//! The walk of [`Node::walk_mut`] calls the hooks of its visitor in pre-order: for a
//! node before anything below it, and for the items of a node in their order.
use crate::ast::{walked, walked_items, ItemView, Node, NodeView, Visitor};
use vstd::prelude::*;

verus! {

/// A call of a hook of a visitor, with what the hook is handed.
pub enum Call {
    /// `visit_node`, with the node.
    Node(NodeView),
    /// `visit_attribute`, with the attribute.
    Attribute(Seq<char>),
}

/// The calls that the walk of a tree makes which lies `level` steps below the root of
/// the walk, where no hook changes what it is handed: one for the node, then those for
/// its items.
pub open spec fn calls(n: NodeView, level: nat) -> Seq<Call>
    decreases n, 0int,
{
    seq![Call::Node(n)] + calls_from(n.items, 0, level)
}

/// The calls that the walk makes for the items from place `from` on: one for an
/// attribute, those of its walk for a node that lies above `usize::MAX` levels.
pub open spec fn calls_from(items: Seq<ItemView>, from: int, level: nat) -> Seq<Call>
    decreases items, items.len() - from + 1,
{
    if from < 0 || from >= items.len() {
        Seq::empty()
    } else {
        (match items[from] {
            ItemView::Attribute(a) => seq![Call::Attribute(a)],
            ItemView::Node(c) => if level < usize::MAX {
                calls(c, level + 1)
            } else {
                Seq::empty()
            },
            ItemView::Nothing => Seq::empty(),
        }) + calls_from(items, from + 1, level)
    }
}

/// Whether the visitors of this type only watch: each decides what its hooks do, and no
/// hook changes what it is handed.
pub open spec fn watches<V: Visitor>() -> bool {
    &&& forall|v: V, n: NodeView| (#[trigger] v.node_hook(n)) matches Some(known) && known.1 == n
    &&& forall|v: V, a: Seq<char>| (#[trigger] v.attribute_hook(a)) matches Some(known) && known.1 == a
}

/// The visitor after one call.
pub open spec fn told_one<V: Visitor>(v: V, call: Call) -> V {
    match call {
        Call::Node(n) => v.node_hook(n).unwrap().0,
        Call::Attribute(a) => v.attribute_hook(a).unwrap().0,
    }
}

/// The visitor after the calls, one after the other.
pub open spec fn told<V: Visitor>(v: V, calls: Seq<Call>) -> V
    decreases calls.len(),
{
    if calls.len() == 0 {
        v
    } else {
        told(told_one(v, calls[0]), calls.drop_first())
    }
}

/// The visitor after two runs of calls is the visitor after the first run, after the second.
pub proof fn lemma_told_on<V: Visitor>(v: V, first: Seq<Call>, second: Seq<Call>)
    ensures
        told(v, first + second) == told(told(v, first), second),
    decreases first.len(),
{
    if first.len() == 0 {
        assert(first + second =~= second);
    } else {
        assert((first + second)[0] == first[0]);
        assert((first + second).drop_first() =~= first.drop_first() + second);
        lemma_told_on(told_one(v, first[0]), first.drop_first(), second);
    }
}

/// A walk with a visitor that only watches leaves the tree as it is, and the visitor as
/// the calls in pre-order leave it.
pub proof fn a_watching_walk_calls_in_preorder<V: Visitor>(v: V, n: NodeView, level: nat)
    requires
        watches::<V>(),
        level <= usize::MAX,
    ensures
        walked(v, n, level) == Some((told(v, calls(n, level)), n)),
    decreases usize::MAX - level, 1int, 0int,
{
    let after = v.node_hook(n).unwrap().0;
    assert(v.node_hook(n) == Some((after, n)));
    lemma_watching_items(after, n, 0, level);
    let rest = calls_from(n.items, 0, level);
    assert((seq![Call::Node(n)] + rest)[0] == Call::Node(n));
    assert((seq![Call::Node(n)] + rest).drop_first() =~= rest);
}

/// The walk of the items of a node with a visitor that only watches leaves the node as
/// it is, and the visitor as the calls for those items leave it.
pub proof fn lemma_watching_items<V: Visitor>(v: V, n: NodeView, from: int, level: nat)
    requires
        watches::<V>(),
        level <= usize::MAX,
        0 <= from,
    ensures
        walked_items(v, n, from, level) == Some((told(v, calls_from(n.items, from, level)), n)),
    decreases usize::MAX - level, 0int, n.items.len() - from,
{
    if from < n.items.len() {
        let rest = calls_from(n.items, from + 1, level);
        match n.items[from] {
            ItemView::Attribute(a) => {
                let after = v.attribute_hook(a).unwrap().0;
                assert(v.attribute_hook(a) == Some((after, a)));
                assert(n.items.update(from, ItemView::Attribute(a)) =~= n.items);
                lemma_watching_items(after, n, from + 1, level);
                assert((seq![Call::Attribute(a)] + rest)[0] == Call::Attribute(a));
                assert((seq![Call::Attribute(a)] + rest).drop_first() =~= rest);
            },
            ItemView::Node(c) => {
                if level < usize::MAX {
                    a_watching_walk_calls_in_preorder(v, c, level + 1);
                    let after = told(v, calls(c, level + 1));
                    assert(n.items.update(from, ItemView::Node(c)) =~= n.items);
                    lemma_watching_items(after, n, from + 1, level);
                    lemma_told_on(v, calls(c, level + 1), rest);
                } else {
                    lemma_watching_items(v, n, from + 1, level);
                    assert(Seq::<Call>::empty() + rest =~= rest);
                }
            },
            ItemView::Nothing => {
                lemma_watching_items(v, n, from + 1, level);
                assert(Seq::<Call>::empty() + rest =~= rest);
            },
        }
    }
}

/// A visitor that does nothing at either hook.
pub struct Idle;

impl Visitor for Idle {
    /// The node stays as it is.
    open spec fn node_hook(&self, node: NodeView) -> Option<(Self, NodeView)> {
        Some((Idle, node))
    }

    /// The attribute stays as it is.
    open spec fn attribute_hook(&self, attr: Seq<char>) -> Option<(Self, Seq<char>)> {
        Some((Idle, attr))
    }

    fn visit_node(&mut self, _node: &mut Node) {
    }

    fn visit_attribute(&mut self, _attr: &mut String) {
    }
}

/// A walk with the visitor that does nothing leaves the tree as it is.
pub proof fn an_idle_walk_changes_nothing(n: NodeView)
    ensures
        walked(Idle, n, 0) == Some((Idle, n)),
{
    assert(watches::<Idle>());
    a_watching_walk_calls_in_preorder(Idle, n, 0);
}

} // verus!
