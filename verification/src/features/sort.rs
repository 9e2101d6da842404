//! Moves the items of a module that hold imports before those that hold none.
use crate::ast::{item_view, items_view, lemma_items_view, Item, ItemView, Node, NodeView};
use crate::error::{settles, ErrorView, FeatureError, SWLError};
use crate::eval::Evaluator;
use crate::linker::Linker;
use crate::loader::Loader;
use crate::text::text_eq;
use crate::utils::{is_module, is_module_view};
use vstd::prelude::*;

verus! {

/// Why a node cannot be sorted.
#[derive(Debug, Clone, Copy, PartialEq, Eq, Structural)]
pub enum SortError {
    /// The node is not the root of a module.
    NotAModule,
}

/// Whether `n` or a node below it has the given name.
pub open spec fn mentions(n: NodeView, name: Seq<char>) -> bool
    decreases n,
{
    n.name == name || exists|i: int|
        0 <= i < n.items.len() && (#[trigger] n.items[i] matches ItemView::Node(c) && mentions(c, name))
}

/// Whether `n` is an import or holds one.
pub open spec fn has_import(n: NodeView) -> bool {
    mentions(n, "import"@)
}

/// Whether the item belongs in front: it is a node that is an import or holds one.
pub open spec fn is_front(item: ItemView) -> bool {
    item matches ItemView::Node(n) && has_import(n)
}

/// The items that belong in front, or those that do not, in their order.
pub open spec fn select(items: Seq<ItemView>, front: bool) -> Seq<ItemView>
    decreases items.len(),
{
    if items.len() == 0 {
        Seq::empty()
    } else {
        let rest = select(items.drop_last(), front);
        if is_front(items.last()) == front {
            rest.push(items.last())
        } else {
            rest
        }
    }
}

/// The items that hold imports, then the others, each group in its order.
pub open spec fn frontloaded(items: Seq<ItemView>) -> Seq<ItemView> {
    select(items, true) + select(items, false)
}

/// What sorting makes of a module.
pub open spec fn sorted(m: NodeView) -> Result<NodeView, ErrorView> {
    if !is_module_view(m) {
        Err(ErrorView::Sort(SortError::NotAModule))
    } else {
        Ok(NodeView { items: frontloaded(m.items), ..m })
    }
}

/// Every selected item is of the kind that was asked for.
pub proof fn lemma_select_kind(items: Seq<ItemView>, front: bool)
    ensures
        forall|i: int| 0 <= i < select(items, front).len() ==> is_front(#[trigger] select(items, front)[i]) == front,
        select(items, front).len() <= items.len(),
    decreases items.len(),
{
    if items.len() > 0 {
        lemma_select_kind(items.drop_last(), front);
    }
}

/// Selecting from two runs of items selects from each.
pub proof fn lemma_select_concat(a: Seq<ItemView>, b: Seq<ItemView>, front: bool)
    ensures
        select(a + b, front) == select(a, front) + select(b, front),
    decreases b.len(),
{
    if b.len() == 0 {
        assert(a + b == a);
        assert(select(a, front) + select(b, front) == select(a, front));
    } else {
        assert((a + b).drop_last() == a + b.drop_last());
        assert((a + b).last() == b.last());
        lemma_select_concat(a, b.drop_last(), front);
        if is_front(b.last()) == front {
            assert((select(a, front) + select(b.drop_last(), front)).push(b.last()) == select(a, front) + select(
                b.drop_last(),
                front,
            ).push(b.last()));
        }
    }
}

/// Items that are all of one kind are selected whole by that kind and not at all by the other.
pub proof fn lemma_select_uniform(items: Seq<ItemView>, kind: bool, front: bool)
    requires
        forall|i: int| 0 <= i < items.len() ==> is_front(#[trigger] items[i]) == kind,
    ensures
        select(items, front) == if kind == front {
            items
        } else {
            Seq::empty()
        },
    decreases items.len(),
{
    if items.len() > 0 {
        assert forall|i: int| 0 <= i < items.drop_last().len() implies is_front(#[trigger] items.drop_last()[i])
            == kind by {
            assert(items.drop_last()[i] == items[i]);
        }
        lemma_select_uniform(items.drop_last(), kind, front);
        assert(is_front(items.last()) == kind);
        if kind == front {
            assert(items.drop_last().push(items.last()) == items);
        }
    }
}

/// Sorting twice gives what sorting once gives.
pub proof fn lemma_frontloaded_idempotent(items: Seq<ItemView>)
    ensures
        frontloaded(frontloaded(items)) == frontloaded(items),
{
    let front = select(items, true);
    let back = select(items, false);
    lemma_select_kind(items, true);
    lemma_select_kind(items, false);
    lemma_select_concat(front, back, true);
    lemma_select_concat(front, back, false);
    lemma_select_uniform(front, true, true);
    lemma_select_uniform(front, true, false);
    lemma_select_uniform(back, false, true);
    lemma_select_uniform(back, false, false);
    assert(front + Seq::<ItemView>::empty() == front);
    assert(Seq::<ItemView>::empty() + back == back);
}

/// In sorted items nothing without an import stands before something with one.
pub proof fn lemma_frontloaded_ordered(items: Seq<ItemView>, a: int, b: int)
    requires
        0 <= a < b < frontloaded(items).len(),
    ensures
        is_front(frontloaded(items)[a]) || !is_front(frontloaded(items)[b]),
{
    lemma_select_kind(items, true);
    lemma_select_kind(items, false);
}

/// Sorting is idempotent: a sorted module is sorted into itself.
pub proof fn sort_is_idempotent(m: NodeView)
    requires
        sorted(m) is Ok,
    ensures
        sorted(sorted(m)->Ok_0) == sorted(m),
{
    lemma_frontloaded_idempotent(m.items);
}

/// Whether the node is an import or holds one.
pub fn has_import_node(ast: &Node) -> (r: bool)
    ensures
        r == has_import(ast@),
    decreases ast,
{
    if text_eq(ast.name.as_str(), "import") {
        return true;
    }
    let ghost views = ast@.items;
    proof {
        lemma_items_view(ast.items@);
    }
    let mut i: usize = 0;
    while i < ast.items.len()
        invariant
            i <= ast.items.len(),
            views == ast@.items,
            views.len() == ast.items.len(),
            forall|j: int| 0 <= j < ast.items.len() ==> #[trigger] views[j] == item_view(ast.items@[j]),
            forall|j: int| 0 <= j < i ==> !(#[trigger] views[j] matches ItemView::Node(c) && mentions(c, "import"@)),
        decreases ast.items.len() - i,
    {
        if let Item::Node(child) = &ast.items[i] {
            if has_import_node(child) {
                assert(views[i as int] matches ItemView::Node(c) && mentions(c, "import"@));
                return true;
            }
        }
        i += 1;
    }
    false
}

/// The values of two runs of items, one behind the other.
pub proof fn lemma_items_view_concat(a: Seq<Item>, b: Seq<Item>)
    ensures
        items_view(a + b) == items_view(a) + items_view(b),
{
    lemma_items_view(a);
    lemma_items_view(b);
    lemma_items_view(a + b);
    assert(items_view(a + b) =~= items_view(a) + items_view(b));
}

/// Moves the items of a module that hold imports to the front.
///
/// An item belongs in front where it is a node named `import` or has such a node
/// somewhere below it. The items in front keep their order, and so do the others.
pub fn frontload_imports(module: &mut Node) -> (r: Result<(), SWLError>)
    ensures
        settles(r, old(module)@, final(module)@, sorted(old(module)@)),
        r is Ok ==> forall|a: int, b: int|
            0 <= a < b < final(module)@.items.len() ==> is_front(#[trigger] final(module)@.items[a]) || !is_front(
                #[trigger] final(module)@.items[b],
            ),
{
    if !is_module(module) {
        return Err(SWLError::Other(FeatureError::Sort(SortError::NotAModule)));
    }
    let ghost views = module@.items;
    proof {
        lemma_items_view(module.items@);
        assert(views.take(0) == Seq::<ItemView>::empty());
    }
    let mut front: Vec<Item> = Vec::new();
    let mut back: Vec<Item> = Vec::new();
    let n = module.items.len();
    let mut i: usize = 0;
    while i < n
        invariant
            i <= n,
            n == module.items.len(),
            module.name == old(module).name,
            module.depth == old(module).depth,
            views == old(module)@.items,
            views.len() == n,
            forall|j: int| i <= j < n ==> #[trigger] item_view(module.items@[j]) == views[j],
            items_view(front@) == select(views.take(i as int), true),
            items_view(back@) == select(views.take(i as int), false),
        decreases n - i,
    {
        proof {
            assert(views.take(i + 1).drop_last() == views.take(i as int));
            assert(views.take(i + 1).last() == views[i as int]);
            assert(item_view(module.items@[i as int]) == views[i as int]);
        }
        let mut item = Item::Nothing;
        std::mem::swap(&mut item, &mut module.items[i]);
        let holds_import = match &item {
            Item::Node(node) => has_import_node(node),
            _ => false,
        };
        proof {
            crate::ast::lemma_items_view_push(front@, item);
            crate::ast::lemma_items_view_push(back@, item);
        }
        if holds_import {
            front.push(item);
        } else {
            back.push(item);
        }
        i += 1;
    }
    proof {
        assert(views.take(views.len() as int) == views);
        lemma_items_view_concat(front@, back@);
    }
    front.append(&mut back);
    module.items = front;
    proof {
        assert forall|a: int, b: int| 0 <= a < b < module@.items.len() implies is_front(#[trigger] module@.items[a])
            || !is_front(#[trigger] module@.items[b]) by {
            lemma_frontloaded_ordered(views, a, b);
        }
    }
    Ok(())
}

/// Moves the items of a module that hold imports to the front.
pub fn sort<L: Loader, E: Evaluator>(module: &mut Node, _linker: &mut Linker<L, E>) -> (r: Result<(), SWLError>)
    ensures
        settles(r, old(module)@, final(module)@, sorted(old(module)@)),
        *final(_linker) == *old(_linker),
{
    frontload_imports(module)
}

} // verus!
verus! {

/// What is selected from items was among them.
pub proof fn lemma_select_from(items: Seq<ItemView>, front: bool, i: int)
    requires
        0 <= i < select(items, front).len(),
    ensures
        exists|j: int| 0 <= j < items.len() && items[j] == #[trigger] select(items, front)[i],
    decreases items.len(),
{
    let rest = select(items.drop_last(), front);
    if is_front(items.last()) == front && i == rest.len() {
        assert(items[items.len() - 1] == select(items, front)[i]);
    } else {
        lemma_select_from(items.drop_last(), front, i);
        let j = choose|j: int| 0 <= j < items.drop_last().len() && items.drop_last()[j] == rest[i];
        assert(items[j] == select(items, front)[i]);
    }
}

/// Sorting keeps the depths of a module true.
pub proof fn sorting_keeps_depths(m: NodeView)
    requires
        sorted(m) is Ok,
        crate::ast::nested_at(m, 0),
    ensures
        crate::ast::nested_at(sorted(m)->Ok_0, 0),
{
    let items = frontloaded(m.items);
    let front = select(m.items, true);
    assert forall|i: int| 0 <= i < items.len() implies (#[trigger] items[i] matches ItemView::Node(c)
        ==> crate::ast::nested_at(c, 1)) by {
        if i < front.len() {
            lemma_select_from(m.items, true, i);
            let j = choose|j: int| 0 <= j < m.items.len() && m.items[j] == front[i];
            assert(items[i] == m.items[j]);
        } else {
            lemma_select_from(m.items, false, i - front.len());
            let j = choose|j: int| 0 <= j < m.items.len() && m.items[j] == select(m.items, false)[i - front.len()];
            assert(items[i] == m.items[j]);
        }
    }
}

} // verus!
