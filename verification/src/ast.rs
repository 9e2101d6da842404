//! The tree that every feature works on: nodes, their items, and the ways to walk them.
use crate::text::push_text;
use vstd::prelude::*;

verus! {

/// A parenthesised form: a name and the items that follow it.
///
/// `depth` is the nesting level of the form, zero for the root of a document.
#[derive(Debug, PartialEq)]
pub struct Node {
    pub name: String,
    pub depth: usize,
    pub items: Vec<Item>,
}

/// One item of a node.
#[derive(Debug, PartialEq)]
pub enum Item {
    /// What is left where an item was moved out. It is never written.
    Nothing,
    /// A token or string literal, kept as it was read, quotes and escapes included.
    Attribute(String),
    /// A nested form.
    Node(Node),
}

/// The mathematical value of a [`Node`].
pub struct NodeView {
    pub name: Seq<char>,
    pub depth: nat,
    pub items: Seq<ItemView>,
}

/// The mathematical value of an [`Item`].
pub enum ItemView {
    Nothing,
    Attribute(Seq<char>),
    Node(NodeView),
}

/// The value of a node.
pub open spec fn node_view(n: Node) -> NodeView
    decreases n,
{
    NodeView { name: n.name@, depth: n.depth as nat, items: items_view(n.items@) }
}

/// The values of a run of items.
pub open spec fn items_view(items: Seq<Item>) -> Seq<ItemView>
    decreases items,
{
    if items.len() == 0 {
        Seq::empty()
    } else {
        items_view(items.drop_last()).push(item_view(items.last()))
    }
}

/// The value of an item.
pub open spec fn item_view(item: Item) -> ItemView
    decreases item,
{
    match item {
        Item::Nothing => ItemView::Nothing,
        Item::Attribute(a) => ItemView::Attribute(a@),
        Item::Node(n) => ItemView::Node(node_view(n)),
    }
}

impl View for Node {
    type V = NodeView;

    open spec fn view(&self) -> NodeView {
        node_view(*self)
    }
}

impl View for Item {
    type V = ItemView;

    open spec fn view(&self) -> ItemView {
        item_view(*self)
    }
}

/// The values of a run of items are the values of its members, one for one.
pub proof fn lemma_items_view(items: Seq<Item>)
    ensures
        items_view(items).len() == items.len(),
        forall|i: int| 0 <= i < items.len() ==> #[trigger] items_view(items)[i] == item_view(items[i]),
    decreases items.len(),
{
    if items.len() > 0 {
        lemma_items_view(items.drop_last());
    }
}

/// The values of a run of items that grew by one.
pub proof fn lemma_items_view_push(items: Seq<Item>, item: Item)
    ensures
        items_view(items.push(item)) == items_view(items).push(item_view(item)),
{
    assert(items.push(item).drop_last() == items);
}

/// The values of a run of items in which one was replaced.
pub proof fn lemma_items_view_update(items: Seq<Item>, i: int, item: Item)
    requires
        0 <= i < items.len(),
    ensures
        items_view(items.update(i, item)) == items_view(items).update(i, item_view(item)),
{
    lemma_items_view(items);
    lemma_items_view(items.update(i, item));
    assert(items_view(items.update(i, item)) =~= items_view(items).update(i, item_view(item)));
}

impl ItemView {
    /// The nested form, where the item is one.
    pub open spec fn node(self) -> NodeView
        recommends
            self is Node,
    {
        self->Node_0
    }

    /// The text, where the item is an attribute.
    pub open spec fn text(self) -> Seq<char>
        recommends
            self is Attribute,
    {
        self->Attribute_0
    }
}

/// The least index of an item that meets `p`, or the number of items where none does.
pub open spec fn first_index(items: Seq<ItemView>, p: spec_fn(ItemView) -> bool) -> int
    decreases items.len(),
{
    if items.len() == 0 {
        0
    } else if p(items[0]) {
        0
    } else {
        1 + first_index(items.drop_first(), p)
    }
}

/// `first_index` is the least index that meets `p`.
pub proof fn lemma_first_index(items: Seq<ItemView>, p: spec_fn(ItemView) -> bool)
    ensures
        0 <= first_index(items, p) <= items.len(),
        first_index(items, p) < items.len() ==> p(items[first_index(items, p)]),
        forall|j: int| 0 <= j < first_index(items, p) ==> !p(#[trigger] items[j]),
    decreases items.len(),
{
    if items.len() > 0 && !p(items[0]) {
        lemma_first_index(items.drop_first(), p);
        assert forall|j: int| 0 <= j < first_index(items, p) implies !p(#[trigger] items[j]) by {
            if j > 0 {
                assert(items[j] == items.drop_first()[j - 1]);
            }
        }
    }
}

/// An index that meets `p`, with none before it that does, is `first_index`.
pub proof fn lemma_first_index_is(items: Seq<ItemView>, p: spec_fn(ItemView) -> bool, k: int)
    requires
        0 <= k <= items.len(),
        k < items.len() ==> p(items[k]),
        forall|j: int| 0 <= j < k ==> !p(#[trigger] items[j]),
    ensures
        first_index(items, p) == k,
{
    lemma_first_index(items, p);
}

/// Two conditions that agree on every item have the same first index.
pub proof fn lemma_first_index_same(items: Seq<ItemView>, p: spec_fn(ItemView) -> bool, q: spec_fn(ItemView) -> bool)
    requires
        forall|j: int| 0 <= j < items.len() ==> p(#[trigger] items[j]) == q(items[j]),
    ensures
        first_index(items, p) == first_index(items, q),
{
    lemma_first_index(items, p);
    lemma_first_index_is(items, q, first_index(items, p));
}

/// Whether the item is a node with the given name.
pub open spec fn is_node_named(item: ItemView, name: Seq<char>) -> bool {
    item matches ItemView::Node(n) && n.name == name
}

/// The canonical text of a node: `(`, the name, each live item after one space, `)`.
pub open spec fn serialize(n: NodeView) -> Seq<char>
    decreases n,
{
    seq!['('] + n.name + serialize_items(n.items) + seq![')']
}

/// The canonical text of a run of items, each live one after a space.
pub open spec fn serialize_items(items: Seq<ItemView>) -> Seq<char>
    decreases items,
{
    if items.len() == 0 {
        Seq::empty()
    } else {
        serialize_items(items.drop_last()) + serialize_spaced(items.last())
    }
}

/// A space and the text of the item, or nothing for a tombstone.
pub open spec fn serialize_spaced(item: ItemView) -> Seq<char>
    decreases item,
{
    match item {
        ItemView::Nothing => Seq::empty(),
        ItemView::Attribute(a) => seq![' '] + a,
        ItemView::Node(n) => seq![' '] + serialize(n),
    }
}

/// The text of one item alone.
pub open spec fn item_text(item: ItemView) -> Seq<char> {
    match item {
        ItemView::Nothing => Seq::empty(),
        ItemView::Attribute(a) => a,
        ItemView::Node(n) => serialize(n),
    }
}

/// Whether every node below `n` lies one level deeper than its parent, `n` itself at `depth`.
pub open spec fn nested_at(n: NodeView, depth: nat) -> bool
    decreases n,
{
    &&& n.depth == depth
    &&& forall|i: int|
        0 <= i < n.items.len() ==> (#[trigger] n.items[i] matches ItemView::Node(c) ==> nested_at(c, depth + 1))
}

/// The node with `by` added to every depth in it.
pub open spec fn deepened(n: NodeView, by: nat) -> NodeView
    decreases n,
{
    NodeView {
        name: n.name,
        depth: n.depth + by,
        items: Seq::new(
            n.items.len(),
            |i: int|
                if 0 <= i < n.items.len() {
                    match n.items[i] {
                        ItemView::Node(c) => ItemView::Node(deepened(c, by)),
                        other => other,
                    }
                } else {
                    ItemView::Nothing
                },
        ),
    }
}

/// The largest depth recorded in the tree.
pub open spec fn deepest(n: NodeView) -> nat
    decreases n,
{
    deepest_of(n.items, n.depth)
}

/// The largest of `least` and the depths recorded in the nodes among `items`.
pub open spec fn deepest_of(items: Seq<ItemView>, least: nat) -> nat
    decreases items,
{
    if items.len() == 0 {
        least
    } else {
        let rest = deepest_of(items.drop_last(), least);
        match items.last() {
            ItemView::Node(c) => if deepest(c) > rest {
                deepest(c)
            } else {
                rest
            },
            _ => rest,
        }
    }
}

/// `deepest_of` is never below the depth it starts from.
pub proof fn lemma_deepest_of_least(items: Seq<ItemView>, least: nat)
    ensures
        least <= deepest_of(items, least),
    decreases items.len(),
{
    if items.len() > 0 {
        lemma_deepest_of_least(items.drop_last(), least);
    }
}

/// No node among `items` records a depth above `deepest_of`.
pub proof fn lemma_deepest_of(items: Seq<ItemView>, least: nat, i: int)
    requires
        0 <= i < items.len(),
    ensures
        least <= deepest_of(items, least),
        items[i] matches ItemView::Node(c) ==> deepest(c) <= deepest_of(items, least),
    decreases items.len(),
{
    lemma_deepest_of_least(items, least);
    if i < items.len() - 1 {
        lemma_deepest_of(items.drop_last(), least, i);
    }
}

/// A tree that is deepened by nothing is the tree itself.
pub proof fn lemma_deepened_by_zero(n: NodeView)
    ensures
        deepened(n, 0) == n,
    decreases n,
{
    assert forall|i: int| 0 <= i < n.items.len() implies #[trigger] deepened(n, 0).items[i] == n.items[i] by {
        match n.items[i] {
            ItemView::Node(c) => {
                lemma_deepened_by_zero(c);
            },
            _ => {},
        }
    }
    assert(deepened(n, 0).items =~= n.items);
}

/// Deepening keeps a tree's depths consistent.
pub proof fn lemma_deepened_nested(n: NodeView, depth: nat, by: nat)
    requires
        nested_at(n, depth),
    ensures
        nested_at(deepened(n, by), depth + by),
    decreases n,
{
    assert forall|i: int| 0 <= i < deepened(n, by).items.len() implies (#[trigger] deepened(n, by).items[i] matches ItemView::Node(
        c,
    ) ==> nested_at(c, depth + by + 1)) by {
        match n.items[i] {
            ItemView::Node(c) => {
                lemma_deepened_nested(c, depth + 1, by);
            },
            _ => {},
        }
    }
}

/// The depths recorded in a tree that is held in memory fit in `usize`.
pub proof fn lemma_deepest_fits(n: Node)
    ensures
        deepest(n@) <= usize::MAX,
    decreases n,
{
    lemma_deepest_items_fit(n.items@, n.depth as nat);
}

/// The depths recorded in items that are held in memory fit in `usize`.
pub proof fn lemma_deepest_items_fit(items: Seq<Item>, least: nat)
    requires
        least <= usize::MAX,
    ensures
        deepest_of(items_view(items), least) <= usize::MAX,
    decreases items,
{
    if items.len() > 0 {
        lemma_deepest_items_fit(items.drop_last(), least);
        assert(items_view(items).drop_last() == items_view(items.drop_last()));
        assert(items_view(items).last() == item_view(items.last()));
        match items.last() {
            Item::Node(c) => {
                lemma_deepest_fits(c);
            },
            _ => {},
        }
    } else {
        assert(items_view(items).len() == 0);
    }
}

impl Node {
    /// Appends the canonical text of the node to `out`.
    pub fn write_to(&self, out: &mut String)
        ensures
            final(out)@ == old(out)@ + serialize(self@),
        decreases self,
    {
        out.push('(');
        push_text(out, self.name.as_str());
        let ghost head = old(out)@ + seq!['('] + self.name@;
        let ghost views = items_view(self.items@);
        proof {
            lemma_items_view(self.items@);
            assert(old(out)@.push('(') == old(out)@ + seq!['(']);
            assert(views.take(0) == Seq::<ItemView>::empty());
        }
        let mut i: usize = 0;
        while i < self.items.len()
            invariant
                i <= self.items.len(),
                views == items_view(self.items@),
                views.len() == self.items.len(),
                forall|j: int| 0 <= j < self.items.len() ==> #[trigger] views[j] == item_view(self.items@[j]),
                head == old(out)@ + seq!['('] + self.name@,
                out@ == head + serialize_items(views.take(i as int)),
            decreases self.items.len() - i,
        {
            proof {
                assert(views.take(i + 1).drop_last() == views.take(i as int));
                assert(views.take(i + 1).last() == views[i as int]);
            }
            let ghost before = out@;
            match &self.items[i] {
                Item::Nothing => {},
                Item::Attribute(a) => {
                    out.push(' ');
                    push_text(out, a.as_str());
                    assert(out@ == before + (seq![' '] + a@));
                },
                Item::Node(n) => {
                    out.push(' ');
                    n.write_to(out);
                    assert(out@ == before + (seq![' '] + serialize(n@)));
                },
            }
            assert(out@ == before + serialize_spaced(views[i as int]));
            i += 1;
        }
        out.push(')');
        proof {
            assert(views.take(views.len() as int) == views);
            assert(out@ == old(out)@ + serialize(self@));
        }
    }

    /// The canonical text of the node.
    pub fn to_string(&self) -> (s: String)
        ensures
            s@ == serialize(self@),
    {
        let mut s = String::new();
        self.write_to(&mut s);
        assert(Seq::<char>::empty() + serialize(self@) == serialize(self@));
        s
    }

    /// Adds `by` to every depth in the tree.
    pub fn deepen(&mut self, by: usize)
        requires
            deepest(old(self)@) + by <= usize::MAX,
        ensures
            final(self)@ == deepened(old(self)@, by as nat),
        decreases *old(self),
    {
        proof {
            lemma_items_view(self.items@);
            if self.items.len() > 0 {
                lemma_deepest_of(old(self)@.items, old(self)@.depth, 0);
            }
        }
        self.depth = self.depth + by;
        let n = self.items.len();
        let mut i: usize = 0;
        while i < n
            invariant
                i <= n,
                n == self.items.len(),
                n == old(self).items.len(),
                self.name == old(self).name,
                self.depth == old(self).depth + by,
                deepest(old(self)@) + by <= usize::MAX,
                forall|j: int| i <= j < n ==> self.items@[j] == old(self).items@[j],
                forall|j: int|
                    0 <= j < i ==> #[trigger] item_view(self.items@[j]) == deepened(old(self)@, by as nat).items[j],
            decreases n - i,
        {
            proof {
                lemma_items_view(old(self).items@);
                lemma_deepest_of(old(self)@.items, old(self)@.depth, i as int);
            }
            match &mut self.items[i] {
                Item::Node(child) => {
                    child.deepen(by);
                },
                _ => {},
            }
            i += 1;
        }
        proof {
            lemma_items_view(self.items@);
            assert(self@.items =~= deepened(old(self)@, by as nat).items);
        }
    }

    /// Appends `node` as the last item, after adding the depth of `self` to every depth
    /// in it. A node whose own depth is one thus lands one level below `self`.
    pub fn append_node(&mut self, node: Node)
        requires
            deepest(node@) + old(self).depth <= usize::MAX,
        ensures
            final(self)@ == (NodeView {
                items: old(self)@.items.push(ItemView::Node(deepened(node@, old(self)@.depth))),
                ..old(self)@
            }),
            nested_at(old(self)@, old(self)@.depth) && nested_at(node@, 1) ==> nested_at(
                final(self)@,
                old(self)@.depth,
            ),
    {
        let ghost added = node@;
        let ghost before = self@;
        let mut node = node;
        node.deepen(self.depth);
        proof {
            lemma_items_view_push(self.items@, Item::Node(node));
            if nested_at(before, before.depth) && nested_at(added, 1) {
                lemma_deepened_nested(added, 1, before.depth);
                let after = before.items.push(ItemView::Node(deepened(added, before.depth)));
                assert forall|i: int| 0 <= i < after.len() implies (#[trigger] after[i] matches ItemView::Node(c)
                    ==> nested_at(c, before.depth + 1)) by {
                    if i < before.items.len() {
                        assert(after[i] == before.items[i]);
                    }
                }
            }
        }
        self.items.push(Item::Node(node));
    }
}

impl Item {
    /// The text of the item: an attribute as it stands, a node in canonical form, a
    /// tombstone as nothing.
    pub fn to_string(&self) -> (s: String)
        ensures
            s@ == item_text(self@),
    {
        let mut s = String::new();
        match self {
            Item::Nothing => {},
            Item::Attribute(a) => {
                push_text(&mut s, a.as_str());
                assert(Seq::<char>::empty() + a@ == a@);
            },
            Item::Node(n) => {
                n.write_to(&mut s);
                assert(Seq::<char>::empty() + serialize(n@) == serialize(n@));
            },
        }
        s
    }

    /// The node, only if the item is one.
    pub fn as_node(&self) -> (r: Option<&Node>)
        ensures
            match r {
                Some(n) => *self == Item::Node(*n),
                None => !(self is Node),
            },
    {
        match self {
            Item::Node(node) => Some(node),
            _ => None,
        }
    }

    /// The node for writing, only if the item is one.
    pub fn as_node_mut(&mut self) -> (r: Option<&mut Node>)
        ensures
            match r {
                Some(n) => *old(self) == Item::Node(*n) && *final(self) == Item::Node(*final(n)),
                None => !(*old(self) is Node) && *final(self) == *old(self),
            },
    {
        match self {
            Item::Node(node) => Some(node),
            _ => None,
        }
    }

    /// The node that the item is.
    pub fn into_node(self) -> (n: Node)
        requires
            self is Node,
        ensures
            self == Item::Node(n),
    {
        match self {
            Item::Node(node) => node,
            _ => vstd::pervasive::unreached(),
        }
    }

    /// Whether the item is a tombstone.
    pub fn is_nothing(&self) -> (r: bool)
        ensures
            r == (self is Nothing),
    {
        match self {
            Item::Nothing => true,
            _ => false,
        }
    }

    /// The text, only if the item is an attribute.
    pub fn as_attribute(&self) -> (r: Option<&str>)
        ensures
            match r {
                Some(a) => self matches Item::Attribute(text) && a@ == text@,
                None => !(self is Attribute),
            },
    {
        match self {
            Item::Attribute(attribute) => Some(attribute.as_str()),
            _ => None,
        }
    }

    /// The text for writing, only if the item is an attribute.
    pub fn as_attribute_mut(&mut self) -> (r: Option<&mut String>)
        ensures
            match r {
                Some(a) => *old(self) == Item::Attribute(*a) && *final(self) == Item::Attribute(*final(a)),
                None => !(*old(self) is Attribute) && *final(self) == *old(self),
            },
    {
        match self {
            Item::Attribute(attribute) => Some(attribute),
            _ => None,
        }
    }
}

} // verus!
verus! {

/// The nodes among `items`, in their order.
pub open spec fn child_nodes(items: Seq<ItemView>) -> Seq<NodeView>
    decreases items.len(),
{
    if items.len() == 0 {
        Seq::empty()
    } else {
        match items.last() {
            ItemView::Node(n) => child_nodes(items.drop_last()).push(n),
            _ => child_nodes(items.drop_last()),
        }
    }
}

/// The attributes among `items`, in their order.
pub open spec fn attributes(items: Seq<ItemView>) -> Seq<Seq<char>>
    decreases items.len(),
{
    if items.len() == 0 {
        Seq::empty()
    } else {
        match items.last() {
            ItemView::Attribute(a) => attributes(items.drop_last()).push(a),
            _ => attributes(items.drop_last()),
        }
    }
}

/// The places of the nodes among `items`, ascending.
pub open spec fn node_places(items: Seq<ItemView>) -> Seq<int>
    decreases items.len(),
{
    if items.len() == 0 {
        Seq::empty()
    } else {
        match items.last() {
            ItemView::Node(_) => node_places(items.drop_last()).push(items.len() - 1),
            _ => node_places(items.drop_last()),
        }
    }
}

/// The places of the attributes among `items`, ascending.
pub open spec fn attribute_places(items: Seq<ItemView>) -> Seq<int>
    decreases items.len(),
{
    if items.len() == 0 {
        Seq::empty()
    } else {
        match items.last() {
            ItemView::Attribute(_) => attribute_places(items.drop_last()).push(items.len() - 1),
            _ => attribute_places(items.drop_last()),
        }
    }
}

/// The nodes of a tree in the order of a walk that visits each node before the nodes
/// below it, and those from left to right.
pub open spec fn preorder(n: NodeView) -> Seq<NodeView>
    decreases n,
{
    seq![n] + preorder_of(n.items)
}

/// The nodes of the trees among `items`, tree by tree, each in the order of [`preorder`].
pub open spec fn preorder_of(items: Seq<ItemView>) -> Seq<NodeView>
    decreases items,
{
    if items.len() == 0 {
        Seq::empty()
    } else {
        match items.last() {
            ItemView::Node(n) => preorder_of(items.drop_last()) + preorder(n),
            _ => preorder_of(items.drop_last()),
        }
    }
}

/// Whether the nodes `found` have the values `expected`, one for one.
pub open spec fn have_views(found: Seq<&Node>, expected: Seq<NodeView>) -> bool {
    found.len() == expected.len() && forall|i: int| 0 <= i < found.len() ==> (#[trigger] found[i])@ == expected[i]
}

/// Whether the texts `found` have the values `expected`, one for one.
pub open spec fn have_texts(found: Seq<&str>, expected: Seq<Seq<char>>) -> bool {
    found.len() == expected.len() && forall|i: int| 0 <= i < found.len() ==> (#[trigger] found[i])@ == expected[i]
}

/// Whether the numbers `found` are the numbers `expected`, one for one.
pub open spec fn are_places(found: Seq<usize>, expected: Seq<int>) -> bool {
    found.len() == expected.len() && forall|i: int| 0 <= i < found.len() ==> #[trigger] found[i] == expected[i]
}

impl Node {
    /// The immediate children that are nodes, in their order.
    pub fn immediate_node_iter(&self) -> (nodes: Vec<&Node>)
        ensures
            have_views(nodes@, child_nodes(self@.items)),
    {
        let ghost views = self@.items;
        proof {
            lemma_items_view(self.items@);
            assert(views.take(0) == Seq::<ItemView>::empty());
        }
        let mut nodes: Vec<&Node> = Vec::new();
        let mut i: usize = 0;
        while i < self.items.len()
            invariant
                i <= self.items.len(),
                views == self@.items,
                views.len() == self.items.len(),
                forall|j: int| 0 <= j < self.items.len() ==> #[trigger] views[j] == item_view(self.items@[j]),
                have_views(nodes@, child_nodes(views.take(i as int))),
            decreases self.items.len() - i,
        {
            proof {
                assert(views.take(i + 1).drop_last() == views.take(i as int));
                assert(views.take(i + 1).last() == views[i as int]);
            }
            if let Item::Node(node) = &self.items[i] {
                nodes.push(node);
            }
            i += 1;
        }
        proof {
            assert(views.take(views.len() as int) == views);
        }
        nodes
    }

    /// The places in `items` of the immediate children that are nodes, ascending. Each
    /// child can be written through its place.
    pub fn immediate_node_iter_mut(&self) -> (places: Vec<usize>)
        ensures
            are_places(places@, node_places(self@.items)),
            forall|i: int| 0 <= i < places@.len() ==> #[trigger] places@[i] < self.items.len() && self.items@[places@[i] as int] is Node,
    {
        let ghost views = self@.items;
        proof {
            lemma_items_view(self.items@);
            assert(views.take(0) == Seq::<ItemView>::empty());
        }
        let mut places: Vec<usize> = Vec::new();
        let mut i: usize = 0;
        while i < self.items.len()
            invariant
                i <= self.items.len(),
                views == self@.items,
                views.len() == self.items.len(),
                forall|j: int| 0 <= j < self.items.len() ==> #[trigger] views[j] == item_view(self.items@[j]),
                are_places(places@, node_places(views.take(i as int))),
                forall|j: int| 0 <= j < places@.len() ==> #[trigger] places@[j] < i && self.items@[places@[j] as int] is Node,
            decreases self.items.len() - i,
        {
            proof {
                assert(views.take(i + 1).drop_last() == views.take(i as int));
                assert(views.take(i + 1).last() == views[i as int]);
            }
            if let Item::Node(_) = &self.items[i] {
                places.push(i);
            }
            i += 1;
        }
        proof {
            assert(views.take(views.len() as int) == views);
        }
        places
    }

    /// The immediate children that are attributes, in their order.
    pub fn immediate_attribute_iter(&self) -> (texts: Vec<&str>)
        ensures
            have_texts(texts@, attributes(self@.items)),
    {
        let ghost views = self@.items;
        proof {
            lemma_items_view(self.items@);
            assert(views.take(0) == Seq::<ItemView>::empty());
        }
        let mut texts: Vec<&str> = Vec::new();
        let mut i: usize = 0;
        while i < self.items.len()
            invariant
                i <= self.items.len(),
                views == self@.items,
                views.len() == self.items.len(),
                forall|j: int| 0 <= j < self.items.len() ==> #[trigger] views[j] == item_view(self.items@[j]),
                have_texts(texts@, attributes(views.take(i as int))),
            decreases self.items.len() - i,
        {
            proof {
                assert(views.take(i + 1).drop_last() == views.take(i as int));
                assert(views.take(i + 1).last() == views[i as int]);
            }
            if let Item::Attribute(a) = &self.items[i] {
                texts.push(a.as_str());
            }
            i += 1;
        }
        proof {
            assert(views.take(views.len() as int) == views);
        }
        texts
    }

    /// The places in `items` of the immediate children that are attributes, ascending.
    /// Each attribute can be written through its place.
    pub fn immediate_attribute_iter_mut(&self) -> (places: Vec<usize>)
        ensures
            are_places(places@, attribute_places(self@.items)),
            forall|i: int| 0 <= i < places@.len() ==> #[trigger] places@[i] < self.items.len() && self.items@[places@[i] as int] is Attribute,
    {
        let ghost views = self@.items;
        proof {
            lemma_items_view(self.items@);
            assert(views.take(0) == Seq::<ItemView>::empty());
        }
        let mut places: Vec<usize> = Vec::new();
        let mut i: usize = 0;
        while i < self.items.len()
            invariant
                i <= self.items.len(),
                views == self@.items,
                views.len() == self.items.len(),
                forall|j: int| 0 <= j < self.items.len() ==> #[trigger] views[j] == item_view(self.items@[j]),
                are_places(places@, attribute_places(views.take(i as int))),
                forall|j: int| 0 <= j < places@.len() ==> #[trigger] places@[j] < i && self.items@[places@[j] as int] is Attribute,
            decreases self.items.len() - i,
        {
            proof {
                assert(views.take(i + 1).drop_last() == views.take(i as int));
                assert(views.take(i + 1).last() == views[i as int]);
            }
            if let Item::Attribute(_) = &self.items[i] {
                places.push(i);
            }
            i += 1;
        }
        proof {
            assert(views.take(views.len() as int) == views);
        }
        places
    }

    /// Appends the nodes of the tree to `out`, each node before the nodes below it.
    fn collect_nodes<'a>(&'a self, out: &mut Vec<&'a Node>)
        ensures
            final(out)@.len() == old(out)@.len() + preorder(self@).len(),
            forall|i: int| 0 <= i < old(out)@.len() ==> final(out)@[i] == old(out)@[i],
            forall|i: int|
                0 <= i < preorder(self@).len() ==> (#[trigger] final(out)@[old(out)@.len() + i])@ == preorder(self@)[i],
        decreases self,
    {
        let ghost views = self@.items;
        proof {
            lemma_items_view(self.items@);
            assert(views.take(0) == Seq::<ItemView>::empty());
        }
        out.push(self);
        let ghost base = old(out)@.len() + 1;
        let mut i: usize = 0;
        while i < self.items.len()
            invariant
                i <= self.items.len(),
                views == self@.items,
                views.len() == self.items.len(),
                base == old(out)@.len() + 1,
                forall|j: int| 0 <= j < self.items.len() ==> #[trigger] views[j] == item_view(self.items@[j]),
                out@.len() == base + preorder_of(views.take(i as int)).len(),
                forall|j: int| 0 <= j < old(out)@.len() ==> out@[j] == old(out)@[j],
                out@[base - 1] == self,
                forall|j: int|
                    0 <= j < preorder_of(views.take(i as int)).len() ==> (#[trigger] out@[base + j])@ == preorder_of(
                        views.take(i as int),
                    )[j],
            decreases self.items.len() - i,
        {
            proof {
                assert(views.take(i + 1).drop_last() == views.take(i as int));
                assert(views.take(i + 1).last() == views[i as int]);
            }
            if let Item::Node(child) = &self.items[i] {
                let ghost before = out@;
                child.collect_nodes(out);
                proof {
                    let done = preorder_of(views.take(i as int));
                    let more = preorder(child@);
                    assert forall|j: int| 0 <= j < (done + more).len() implies (#[trigger] out@[base + j])@ == (done
                        + more)[j] by {
                        if j < done.len() {
                            assert(out@[base + j] == before[base + j]);
                        } else {
                            assert(out@[before.len() + (j - done.len())]@ == more[j - done.len()]);
                        }
                    }
                }
            }
            i += 1;
        }
        proof {
            assert(views.take(views.len() as int) == views);
            assert forall|j: int| 0 <= j < preorder(self@).len() implies (#[trigger] out@[old(out)@.len() + j])@
                == preorder(self@)[j] by {
                if j > 0 {
                    assert(out@[base + (j - 1)]@ == preorder_of(views)[j - 1]);
                }
            }
        }
    }

    /// The nodes of the tree, each node before the nodes below it, and those from left to
    /// right.
    pub fn node_iter(&self) -> (nodes: Vec<&Node>)
        ensures
            have_views(nodes@, preorder(self@)),
    {
        let mut nodes: Vec<&Node> = Vec::new();
        self.collect_nodes(&mut nodes);
        proof {
            assert forall|i: int| 0 <= i < nodes@.len() implies (#[trigger] nodes@[i])@ == preorder(self@)[i] by {
                assert(nodes@[0 + i]@ == preorder(self@)[i]);
            }
        }
        nodes
    }
}

} // verus!
verus! {

/// The node that a path leads to from `n`: each step of the path is the place of a node
/// among the items of the node before. `None` where a step names no node.
pub open spec fn resolve(n: NodeView, path: Seq<usize>) -> Option<NodeView>
    decreases path.len(),
{
    if path.len() == 0 {
        Some(n)
    } else if path[0] < n.items.len() && n.items[path[0] as int] is Node {
        resolve(n.items[path[0] as int].node(), path.drop_first())
    } else {
        None
    }
}

/// The tree `n` with `with` in place of the node that the path leads to.
pub open spec fn replaced(n: NodeView, path: Seq<usize>, with: NodeView) -> NodeView
    decreases path.len(),
{
    if path.len() == 0 {
        with
    } else if path[0] < n.items.len() && n.items[path[0] as int] is Node {
        NodeView {
            items: n.items.update(
                path[0] as int,
                ItemView::Node(replaced(n.items[path[0] as int].node(), path.drop_first(), with)),
            ),
            ..n
        }
    } else {
        n
    }
}

/// The paths to the nodes among `items`, which begin at place `from` of the node at
/// `path`, the last node first.
pub open spec fn child_paths_from(path: Seq<usize>, items: Seq<ItemView>, from: nat) -> Seq<Seq<usize>>
    decreases items.len(),
{
    if items.len() == 0 {
        Seq::empty()
    } else {
        match items.first() {
            ItemView::Node(_) => child_paths_from(path, items.drop_first(), from + 1).push(path.push(from as usize)),
            _ => child_paths_from(path, items.drop_first(), from + 1),
        }
    }
}

/// The values of a stack of paths.
pub open spec fn paths_view(stack: Seq<Vec<usize>>) -> Seq<Seq<usize>> {
    Seq::new(stack.len(), |i: int| stack[i]@)
}

/// What a step of the walk over `root` does to the paths that wait: the path on top is
/// taken off. Where it leads to a node, it is the next one to visit, and the paths to the
/// children of that node are put on top, the first child uppermost. Where it leads
/// nowhere, the walk goes on with the path below.
pub open spec fn step(root: NodeView, waiting: Seq<Seq<usize>>) -> (Option<Seq<usize>>, Seq<Seq<usize>>)
    decreases waiting.len(),
{
    if waiting.len() == 0 {
        (None, waiting)
    } else {
        match resolve(root, waiting.last()) {
            Some(node) => (Some(waiting.last()), waiting.drop_last() + child_paths_from(waiting.last(), node.items, 0)),
            None => step(root, waiting.drop_last()),
        }
    }
}

/// A walk over the nodes of a tree that holds the places still to visit and no
/// reference into the tree, so that the tree can be written between two steps.
pub struct Walker {
    pub stack: Vec<Vec<usize>>,
}

impl View for Walker {
    type V = Seq<Seq<usize>>;

    open spec fn view(&self) -> Seq<Seq<usize>> {
        paths_view(self.stack@)
    }
}

/// A copy of a path.
pub fn copy_path(path: &Vec<usize>) -> (copy: Vec<usize>)
    ensures
        copy@ == path@,
{
    let mut copy: Vec<usize> = Vec::new();
    let mut i: usize = 0;
    while i < path.len()
        invariant
            i <= path.len(),
            copy@ == path@.take(i as int),
        decreases path.len() - i,
    {
        copy.push(path[i]);
        i += 1;
    }
    assert(path@.take(path@.len() as int) == path@);
    copy
}

impl Walker {
    /// The path to the next node of the walk over `root`, or `None` when the walk is over.
    ///
    /// The nodes come in the order of [`preorder`] as long as the tree stays as it is. A
    /// path that leads nowhere any more, because the tree was changed, is passed over.
    pub fn next(&mut self, root: &Node) -> (r: Option<Vec<usize>>)
        ensures
            match step(root@, old(self)@).0 {
                Some(path) => r matches Some(found) && found@ == path,
                None => r.is_none(),
            },
            final(self)@ == step(root@, old(self)@).1,
    {
        loop
            invariant
                step(root@, old(self)@) == step(root@, self@),
            decreases self.stack.len(),
        {
            let ghost prior = self@;
            let path = match self.stack.pop() {
                Some(path) => path,
                None => {
                    assert(self@ =~= Seq::<Seq<usize>>::empty());
                    return None;
                },
            };
            let ghost below = self@;
            proof {
                assert(prior.drop_last() =~= below);
                assert(prior.last() == path@);
            }
            match root.node_at(&path) {
                None => {},
                Some(node) => {
                    proof {
                        lemma_items_view(node.items@);
                    }
                    let ghost views = node@.items;
                    let mut i: usize = node.items.len();
                    while i > 0
                        invariant
                            i <= node.items.len(),
                            views == node@.items,
                            views.len() == node.items.len(),
                            forall|j: int| 0 <= j < node.items.len() ==> #[trigger] views[j] == item_view(node.items@[j]),
                            self@ == below + child_paths_from(path@, views.skip(i as int), i as nat),
                        decreases i,
                    {
                        i -= 1;
                        proof {
                            assert(views.skip(i as int).drop_first() == views.skip(i + 1));
                            assert(views.skip(i as int).first() == views[i as int]);
                        }
                        if let Item::Node(_) = &node.items[i] {
                            let mut child = copy_path(&path);
                            child.push(i);
                            let ghost before = self.stack@;
                            self.stack.push(child);
                            assert(paths_view(before.push(child)) =~= paths_view(before).push(child@));
                            assert(self@ =~= below + child_paths_from(path@, views.skip(i as int), i as nat));
                        }
                    }
                    proof {
                        assert(views.skip(0) == views);
                    }
                    return Some(path);
                },
            }
        }
    }
}

/// The hooks of [`Node::walk_mut`]. A visitor that has nothing to do at a hook leaves
/// its body empty.
///
/// A visitor may say in `node_hook` and `attribute_hook` what its hooks do. Where it says
/// `Some`, the visitor as it stands decides what becomes of it and of what it is handed,
/// and the hook does just that. Where it says `None`, as every visitor does that says
/// nothing else, the hook is free.
pub trait Visitor: Sized {
    /// What `visit_node` makes of the visitor and of the node, where the visitor as it
    /// stands decides it.
    open spec fn node_hook(&self, node: NodeView) -> Option<(Self, NodeView)> {
        None
    }

    /// What `visit_attribute` makes of the visitor and of the attribute, where the
    /// visitor as it stands decides it.
    open spec fn attribute_hook(&self, attr: Seq<char>) -> Option<(Self, Seq<char>)> {
        None
    }

    /// Called for each node, before the walk goes below it.
    fn visit_node(&mut self, node: &mut Node)
        ensures
            old(self).node_hook(old(node)@) matches Some(known) ==> *final(self) == known.0 && final(node)@ == known.1,
    ;

    /// Called for each attribute.
    fn visit_attribute(&mut self, attr: &mut String)
        ensures
            old(self).attribute_hook(old(attr)@) matches Some(known) ==> *final(self) == known.0 && final(attr)@
                == known.1,
    ;
}

/// What a walk makes of a visitor and of a tree that lies `level` steps below the root
/// of the walk, where the visitor decides what its hooks do: `visit_node` is called for
/// the node, and then the items of what came of it are walked in their order.
pub open spec fn walked<V: Visitor>(visitor: V, n: NodeView, level: nat) -> Option<(V, NodeView)>
    decreases usize::MAX - level, 1int, 0int,
{
    match visitor.node_hook(n) {
        None => None,
        Some(known) => walked_items(known.0, known.1, 0, level),
    }
}

/// What a walk makes of a visitor and of the items of `n` from place `from` on:
/// `visit_attribute` is called for an attribute, a node is walked, unless it lies below
/// `usize::MAX` levels, and a tombstone is passed over.
pub open spec fn walked_items<V: Visitor>(visitor: V, n: NodeView, from: int, level: nat) -> Option<(V, NodeView)>
    decreases usize::MAX - level, 0int, n.items.len() - from,
{
    if from < 0 || from >= n.items.len() {
        Some((visitor, n))
    } else {
        match n.items[from] {
            ItemView::Attribute(a) => match visitor.attribute_hook(a) {
                None => None,
                Some(known) => walked_items(
                    known.0,
                    NodeView { items: n.items.update(from, ItemView::Attribute(known.1)), ..n },
                    from + 1,
                    level,
                ),
            },
            ItemView::Node(c) => if level < usize::MAX {
                match walked(visitor, c, level + 1) {
                    None => None,
                    Some(known) => walked_items(
                        known.0,
                        NodeView { items: n.items.update(from, ItemView::Node(known.1)), ..n },
                        from + 1,
                        level,
                    ),
                }
            } else {
                walked_items(visitor, n, from + 1, level)
            },
            ItemView::Nothing => walked_items(visitor, n, from + 1, level),
        }
    }
}

impl Node {
    /// The node that the path leads to.
    pub fn node_at(&self, path: &Vec<usize>) -> (r: Option<&Node>)
        ensures
            match resolve(self@, path@) {
                Some(node) => r matches Some(found) && found@ == node,
                None => r.is_none(),
            },
    {
        let mut current: &Node = self;
        let mut k: usize = 0;
        assert(path@.skip(0) == path@);
        while k < path.len()
            invariant
                k <= path.len(),
                resolve(self@, path@) == resolve(current@, path@.skip(k as int)),
            decreases path.len() - k,
        {
            proof {
                lemma_items_view(current.items@);
                assert(path@.skip(k as int).drop_first() == path@.skip(k + 1));
                assert(path@.skip(k as int)[0] == path@[k as int]);
            }
            let place = path[k];
            if place >= current.items.len() {
                return None;
            }
            match &current.items[place] {
                Item::Node(child) => {
                    current = child;
                },
                _ => {
                    return None;
                },
            }
            k += 1;
        }
        proof {
            assert(path@.skip(path@.len() as int) =~= Seq::<usize>::empty());
        }
        Some(current)
    }

    /// A walk over the nodes of the tree, which begins at its root.
    pub fn node_iter_mut(&self) -> (walker: Walker)
        ensures
            walker@ == seq![Seq::<usize>::empty()],
    {
        let mut stack: Vec<Vec<usize>> = Vec::new();
        stack.push(Vec::new());
        let walker = Walker { stack };
        assert(walker@ =~= seq![Seq::<usize>::empty()]);
        walker
    }

    /// Walks the tree and calls the hooks of the visitor: `visit_node` for a node before
    /// anything below it, then for each item in its order `visit_attribute` if it is an
    /// attribute, or the walk of the subtree if it is a node.
    ///
    /// A hook may change what it is handed. The walk goes on in the node as the hook left
    /// it. It does not go below a nesting of `usize::MAX` levels. Where the visitor
    /// decides what its hooks do, the visitor and the tree end as [`walked`] says.
    pub fn walk_mut<V: Visitor>(&mut self, visitor: &mut V)
        ensures
            walked(*old(visitor), old(self)@, 0) matches Some(known) ==> *final(visitor) == known.0 && final(self)@
                == known.1,
    {
        self.walk_level(visitor, 0);
    }

    /// Walks the tree, which lies `level` steps below the root of the walk.
    fn walk_level<V: Visitor>(&mut self, visitor: &mut V, level: usize)
        ensures
            walked(*old(visitor), old(self)@, level as nat) matches Some(known) ==> *final(visitor) == known.0
                && final(self)@ == known.1,
        decreases usize::MAX - level,
    {
        let ghost goal = walked(*visitor, self@, level as nat);
        visitor.visit_node(self);
        let n = self.items.len();
        let mut i: usize = 0;
        proof {
            lemma_items_view(self.items@);
        }
        while i < n
            invariant
                i <= n,
                n == self.items.len(),
                goal == walked(*old(visitor), old(self)@, level as nat),
                goal is Some ==> walked_items(*visitor, self@, i as int, level as nat) == goal,
            decreases n - i,
        {
            let ghost before = self@;
            let ghost held = *visitor;
            proof {
                lemma_items_view(self.items@);
                assert(goal is Some ==> walked_items(held, before, i as int, level as nat) == goal);
            }
            match &mut self.items[i] {
                Item::Attribute(attr) => {
                    visitor.visit_attribute(attr);
                },
                Item::Node(node) => {
                    if level < usize::MAX {
                        node.walk_level(visitor, level + 1);
                    }
                },
                Item::Nothing => {},
            }
            proof {
                lemma_items_view(self.items@);
                let now = self@;
                assert(now.items =~= before.items.update(i as int, now.items[i as int]));
                assert(now == (NodeView { items: before.items.update(i as int, now.items[i as int]), ..before }));
                match before.items[i as int] {
                    ItemView::Attribute(_) => {},
                    ItemView::Node(_) => {
                        if level == usize::MAX {
                            assert(now.items =~= before.items);
                        }
                    },
                    ItemView::Nothing => {
                        assert(now.items =~= before.items);
                    },
                }
            }
            i += 1;
        }
        proof {
            lemma_items_view(self.items@);
        }
    }
}

} // verus!
verus! {

impl Node {
    /// The node that the path leads to, for writing. What is written to it is written to
    /// the tree at that place, and a path that leads nowhere leaves the tree as it is.
    pub fn node_at_mut(&mut self, path: &Vec<usize>) -> (r: Option<&mut Node>)
        ensures
            match r {
                Some(found) => resolve(old(self)@, path@) == Some(found@) && final(self)@ == replaced(
                    old(self)@,
                    path@,
                    final(found)@,
                ),
                None => resolve(old(self)@, path@).is_none() && final(self)@ == old(self)@,
            },
    {
        assert(path@.skip(0) == path@);
        self.descend_mut(path, 0)
    }

    /// The node that the rest of the path, from step `from` on, leads to.
    fn descend_mut(&mut self, path: &Vec<usize>, from: usize) -> (r: Option<&mut Node>)
        requires
            from <= path.len(),
        ensures
            match r {
                Some(found) => resolve(old(self)@, path@.skip(from as int)) == Some(found@) && final(self)@
                    == replaced(old(self)@, path@.skip(from as int), final(found)@),
                None => resolve(old(self)@, path@.skip(from as int)).is_none() && final(self)@ == old(self)@,
            },
        decreases path.len() - from,
    {
        if from == path.len() {
            assert(path@.skip(from as int) =~= Seq::<usize>::empty());
            return Some(self);
        }
        proof {
            lemma_items_view(self.items@);
            assert(path@.skip(from as int).drop_first() == path@.skip(from + 1));
            assert(path@.skip(from as int)[0] == path@[from as int]);
        }
        let place = path[from];
        if place >= self.items.len() {
            return None;
        }
        let is_node = match &self.items[place] {
            Item::Node(_) => true,
            _ => false,
        };
        if !is_node {
            return None;
        }
        match &mut self.items[place] {
            Item::Node(child) => {
                proof {
                    lemma_items_view_update(old(self).items@, place as int, Item::Node(*final(child)));
                    assert(old(self)@.items.update(place as int, ItemView::Node(child@)) =~= old(self)@.items);
                }
                child.descend_mut(path, from + 1)
            },
            _ => None,
        }
    }
}

} // verus!
verus! {

/// A copy of a text.
pub fn copy_text(s: &str) -> (copy: String)
    ensures
        copy@ == s@,
{
    let mut copy = String::new();
    push_text(&mut copy, s);
    assert(Seq::<char>::empty() + s@ == s@);
    copy
}

impl Clone for Node {
    /// A copy of the tree.
    fn clone(&self) -> (copy: Self)
        ensures
            copy@ == self@,
        decreases self,
    {
        let mut items: Vec<Item> = Vec::new();
        let mut i: usize = 0;
        proof {
            lemma_items_view(self.items@);
        }
        while i < self.items.len()
            invariant
                i <= self.items.len(),
                items.len() == i,
                forall|j: int| 0 <= j < i ==> #[trigger] item_view(items@[j]) == item_view(self.items@[j]),
            decreases self.items.len() - i,
        {
            let item = match &self.items[i] {
                Item::Nothing => Item::Nothing,
                Item::Attribute(a) => Item::Attribute(copy_text(a.as_str())),
                Item::Node(n) => Item::Node(n.clone()),
            };
            items.push(item);
            i += 1;
        }
        let copy = Node { name: copy_text(self.name.as_str()), depth: self.depth, items };
        proof {
            lemma_items_view(copy.items@);
            assert(copy@.items =~= self@.items);
        }
        copy
    }
}

impl Clone for Item {
    /// A copy of the item.
    fn clone(&self) -> (copy: Self)
        ensures
            copy@ == self@,
    {
        match self {
            Item::Nothing => Item::Nothing,
            Item::Attribute(a) => Item::Attribute(copy_text(a.as_str())),
            Item::Node(n) => Item::Node(n.clone()),
        }
    }
}

} // verus!
