//! Merges the start directives of a module into one.
use crate::ast::{
    first_index, is_node_named, item_view, items_view, lemma_deepened_by_zero, lemma_deepest_fits,
    lemma_first_index, lemma_first_index_is, lemma_items_view, lemma_items_view_push, lemma_items_view_update,
    nested_at, Item, ItemView, Node, NodeView,
};
use crate::error::{settles, ErrorView, FeatureError, SWLError};
use crate::eval::Evaluator;
use crate::linker::Linker;
use crate::loader::Loader;
use crate::text::{push_text, text_eq};
use crate::utils::{find_id_attribute, id_attribute, is_module, is_module_view};
use vstd::prelude::*;

verus! {

/// Why the start directives of a module cannot be merged.
#[derive(Debug, Clone, Copy, PartialEq, Eq, Structural)]
pub enum StartMergeError {
    /// The node is not the root of a module.
    NotAModule,
    /// One of several start directives names no function.
    InvalidStartDirective,
}

/// The name of the function that calls the start functions in turn.
pub open spec fn merger_id() -> Seq<char> {
    "$_swl_start_merger"@
}

/// Whether the item is a start directive.
pub open spec fn is_start_item(item: ItemView) -> bool {
    is_node_named(item, "start"@)
}

/// How many start directives stand among `items`.
pub open spec fn count_starts(items: Seq<ItemView>) -> nat
    decreases items.len(),
{
    if items.len() == 0 {
        0
    } else {
        count_starts(items.drop_last()) + if is_start_item(items.last()) {
            1nat
        } else {
            0nat
        }
    }
}

/// The functions that the start directives among `items` name, in the order of the
/// directives. `None` where a directive names none.
pub open spec fn start_ids(items: Seq<ItemView>) -> Option<Seq<Seq<char>>>
    decreases items.len(),
{
    if items.len() == 0 {
        Some(Seq::empty())
    } else {
        match start_ids(items.drop_last()) {
            None => None,
            Some(ids) => if is_start_item(items.last()) {
                match id_attribute(items.last().node()) {
                    None => None,
                    Some(id) => Some(ids.push(id)),
                }
            } else {
                Some(ids)
            },
        }
    }
}

/// The items with a tombstone in place of each start directive.
pub open spec fn without_starts(items: Seq<ItemView>) -> Seq<ItemView> {
    Seq::new(
        items.len(),
        |i: int|
            if is_start_item(items[i]) {
                ItemView::Nothing
            } else {
                items[i]
            },
    )
}

/// A call of the function `id`, two levels below the module.
pub open spec fn call_item(id: Seq<char>) -> ItemView {
    ItemView::Node(NodeView { name: "call"@, depth: 2, items: seq![ItemView::Attribute(id)] })
}

/// The function that calls the functions `ids` in turn.
pub open spec fn merger_function(ids: Seq<Seq<char>>) -> NodeView {
    NodeView {
        name: "func"@,
        depth: 1,
        items: seq![ItemView::Attribute(merger_id())] + Seq::new(ids.len(), |i: int| call_item(ids[i])),
    }
}

/// The start directive that names the merging function.
pub open spec fn merger_start() -> NodeView {
    NodeView { name: "start"@, depth: 1, items: seq![ItemView::Attribute(merger_id())] }
}

/// What merging makes of a module.
///
/// Without a start directive the module stays as it is. A single one moves behind the
/// other items. Several give way to one function that calls what they name, in their
/// order, and to one directive that names that function.
pub open spec fn start_merged(m: NodeView) -> Result<NodeView, ErrorView> {
    if !is_module_view(m) {
        Err(ErrorView::StartMerge(StartMergeError::NotAModule))
    } else if count_starts(m.items) == 0 {
        Ok(m)
    } else if count_starts(m.items) == 1 {
        let only = m.items[first_index(m.items, |item: ItemView| is_start_item(item))];
        Ok(NodeView { items: without_starts(m.items).push(only), ..m })
    } else {
        match start_ids(m.items) {
            None => Err(ErrorView::StartMerge(StartMergeError::InvalidStartDirective)),
            Some(ids) => Ok(
                NodeView {
                    items: without_starts(m.items).push(ItemView::Node(merger_function(ids))).push(
                        ItemView::Node(merger_start()),
                    ),
                    ..m
                },
            ),
        }
    }
}

/// Where a prefix of the items holds a directive that names nothing, so do all of them.
pub proof fn lemma_start_ids_fail(items: Seq<ItemView>, k: int)
    requires
        0 <= k <= items.len(),
        start_ids(items.take(k)).is_none(),
    ensures
        start_ids(items).is_none(),
    decreases items.len(),
{
    if k < items.len() {
        assert(items.drop_last().take(k) == items.take(k));
        lemma_start_ids_fail(items.drop_last(), k);
    } else {
        assert(items.take(k) == items);
    }
}

/// Items without a start directive have no first one.
pub proof fn lemma_count_starts(items: Seq<ItemView>)
    ensures
        count_starts(items) == 0 <==> forall|j: int| 0 <= j < items.len() ==> !is_start_item(#[trigger] items[j]),
    decreases items.len(),
{
    if items.len() > 0 {
        lemma_count_starts(items.drop_last());
        if count_starts(items) == 0 {
            assert forall|j: int| 0 <= j < items.len() implies !is_start_item(#[trigger] items[j]) by {
                if j < items.len() - 1 {
                    assert(items[j] == items.drop_last()[j]);
                }
            }
        } else {
            if !is_start_item(items.last()) {
                let j = choose|j: int| 0 <= j < items.len() - 1 && is_start_item(#[trigger] items.drop_last()[j]);
                assert(is_start_item(items[j]));
            }
        }
    }
}

/// Counts the start directives of a module and finds the first.
fn find_starts(module: &Node) -> (r: (usize, usize))
    ensures
        r.0 == count_starts(module@.items),
        r.1 == first_index(module@.items, |item: ItemView| is_start_item(item)),
        r.1 <= module.items.len(),
        r.0 > 0 ==> r.1 < module.items.len() && module.items@[r.1 as int] is Node,
{
    let ghost views = module@.items;
    let ghost p = |item: ItemView| is_start_item(item);
    proof {
        lemma_items_view(module.items@);
        assert(views.take(0) == Seq::<ItemView>::empty());
    }
    let mut count: usize = 0;
    let mut first: usize = module.items.len();
    let mut i: usize = 0;
    while i < module.items.len()
        invariant
            i <= module.items.len(),
            count <= i,
            views == module@.items,
            views.len() == module.items.len(),
            p == |item: ItemView| is_start_item(item),
            forall|j: int| 0 <= j < module.items.len() ==> #[trigger] views[j] == item_view(module.items@[j]),
            count == count_starts(views.take(i as int)),
            count == 0 ==> first == module.items.len() && forall|j: int| 0 <= j < i ==> !p(#[trigger] views[j]),
            count > 0 ==> first < i && p(views[first as int]) && forall|j: int|
                0 <= j < first ==> !p(#[trigger] views[j]),
        decreases module.items.len() - i,
    {
        proof {
            assert(views.take(i + 1).drop_last() == views.take(i as int));
            assert(views.take(i + 1).last() == views[i as int]);
        }
        if let Item::Node(node) = &module.items[i] {
            if text_eq(node.name.as_str(), "start") {
                if count == 0 {
                    first = i;
                }
                count += 1;
            }
        }
        i += 1;
    }
    proof {
        assert(views.take(views.len() as int) == views);
        lemma_first_index_is(views, p, first as int);
    }
    (count, first)
}

/// Reads the functions that the start directives of a module name.
fn read_start_ids(module: &Node) -> (r: Option<Vec<String>>)
    ensures
        match start_ids(module@.items) {
            Some(ids) => r matches Some(found) && found@.len() == ids.len() && forall|j: int|
                0 <= j < ids.len() ==> #[trigger] found@[j]@ == ids[j],
            None => r.is_none(),
        },
{
    let ghost views = module@.items;
    proof {
        lemma_items_view(module.items@);
        assert(views.take(0) == Seq::<ItemView>::empty());
    }
    let mut found: Vec<String> = Vec::new();
    let mut i: usize = 0;
    while i < module.items.len()
        invariant
            i <= module.items.len(),
            views == module@.items,
            views.len() == module.items.len(),
            forall|j: int| 0 <= j < module.items.len() ==> #[trigger] views[j] == item_view(module.items@[j]),
            start_ids(views.take(i as int)) matches Some(ids) && found@.len() == ids.len() && forall|j: int|
                0 <= j < ids.len() ==> #[trigger] found@[j]@ == ids[j],
        decreases module.items.len() - i,
    {
        proof {
            assert(views.take(i + 1).drop_last() == views.take(i as int));
            assert(views.take(i + 1).last() == views[i as int]);
        }
        if let Item::Node(node) = &module.items[i] {
            if text_eq(node.name.as_str(), "start") {
                match find_id_attribute(node) {
                    None => {
                        proof {
                            lemma_start_ids_fail(views, i + 1);
                        }
                        return None;
                    },
                    Some(id) => {
                        let mut copy = String::new();
                        push_text(&mut copy, id);
                        found.push(copy);
                    },
                }
            }
        }
        i += 1;
    }
    proof {
        assert(views.take(views.len() as int) == views);
    }
    Some(found)
}

/// Puts a tombstone in place of each start directive.
fn bury_starts(module: &mut Node)
    ensures
        final(module)@ == (NodeView { items: without_starts(old(module)@.items), ..old(module)@ }),
{
    let ghost views = module@.items;
    proof {
        lemma_items_view(module.items@);
    }
    let n = module.items.len();
    let mut i: usize = 0;
    while i < n
        invariant
            i <= n,
            n == module.items.len(),
            module.name == old(module).name,
            module.depth == old(module).depth,
            views == old(module)@.items,
            views.len() == n,
            forall|j: int| i <= j < n ==> #[trigger] item_view(module.items@[j]) == views[j],
            forall|j: int| 0 <= j < i ==> #[trigger] item_view(module.items@[j]) == without_starts(views)[j],
        decreases n - i,
    {
        assert(item_view(module.items@[i as int]) == views[i as int]);
        let is_start = match &module.items[i] {
            Item::Node(node) => text_eq(node.name.as_str(), "start"),
            _ => false,
        };
        if is_start {
            module.items[i] = Item::Nothing;
        }
        i += 1;
    }
    proof {
        lemma_items_view(module.items@);
        assert(module@.items =~= without_starts(views));
    }
}

/// Builds the function that calls the functions `ids` in turn.
pub fn create_start_func(id: &str, ids: &Vec<String>) -> (func: Node)
    ensures
        func@.name == "func"@,
        func@.depth == 1,
        func@.items == seq![ItemView::Attribute(id@)] + Seq::new(ids@.len(), |i: int| call_item(ids@[i]@)),
        nested_at(func@, 1),
{
    let mut items: Vec<Item> = Vec::new();
    let mut head = String::new();
    push_text(&mut head, id);
    items.push(Item::Attribute(head));
    let ghost calls = Seq::new(ids@.len(), |i: int| call_item(ids@[i]@));
    proof {
        lemma_items_view(items@);
        assert(items_view(items@) =~= seq![ItemView::Attribute(id@)] + calls.take(0));
    }
    let mut i: usize = 0;
    while i < ids.len()
        invariant
            i <= ids.len(),
            calls == Seq::new(ids@.len(), |i: int| call_item(ids@[i]@)),
            items_view(items@) == seq![ItemView::Attribute(id@)] + calls.take(i as int),
        decreases ids.len() - i,
    {
        let mut name = String::new();
        push_text(&mut name, "call");
        let mut target = String::new();
        push_text(&mut target, ids[i].as_str());
        let mut arguments: Vec<Item> = Vec::new();
        arguments.push(Item::Attribute(target));
        let call = Item::Node(Node { name, depth: 2, items: arguments });
        proof {
            lemma_items_view(arguments@);
            assert(items_view(arguments@) =~= seq![ItemView::Attribute(ids@[i as int]@)]);
            assert(item_view(call) == call_item(ids@[i as int]@));
            lemma_items_view_push(items@, call);
            assert(calls.take(i + 1) == calls.take(i as int).push(calls[i as int]));
            assert((seq![ItemView::Attribute(id@)] + calls.take(i as int)).push(calls[i as int]) =~= seq![
                ItemView::Attribute(id@),
            ] + calls.take(i + 1));
        }
        items.push(call);
        i += 1;
    }
    let mut name = String::new();
    push_text(&mut name, "func");
    let func = Node { name, depth: 1, items };
    proof {
        assert(calls.take(calls.len() as int) == calls);
        assert forall|k: int| 0 <= k < func@.items.len() implies (#[trigger] func@.items[k] matches ItemView::Node(c)
            ==> nested_at(c, 2)) by {
            if k > 0 {
                assert(func@.items[k] == calls[k - 1]);
            }
        }
    }
    func
}

/// Merges the start directives of a module.
///
/// Without a start directive the module stays as it is, and a single one moves behind the
/// other items. Where there are several, a new function `$_swl_start_merger` calls what
/// they name, in their order, and one directive that names the new function takes their
/// place. Each directive is identified by its first attribute that begins with `$`, or
/// else by its first number.
pub fn start_merge<L: Loader, E: Evaluator>(module: &mut Node, _linker: &mut Linker<L, E>) -> (r: Result<
    (),
    SWLError,
>)
    ensures
        settles(r, old(module)@, final(module)@, start_merged(old(module)@)),
        *final(_linker) == *old(_linker),
{
    if !is_module(module) {
        return Err(SWLError::Other(FeatureError::StartMerge(StartMergeError::NotAModule)));
    }
    let ghost views = module@.items;
    let (count, first) = find_starts(module);
    if count == 0 {
        return Ok(());
    }
    proof {
        lemma_items_view(module.items@);
    }
    if count == 1 {
        let mut only = Item::Nothing;
        std::mem::swap(&mut only, &mut module.items[first]);
        proof {
            lemma_items_view_update(old(module).items@, first as int, Item::Nothing);
        }
        bury_starts(module);
        proof {
            lemma_first_index(views, |item: ItemView| is_start_item(item));
            assert(is_start_item(views[first as int]));
            assert(without_starts(views.update(first as int, ItemView::Nothing)) =~= without_starts(views));
        }
        let node = only.into_node();
        proof {
            lemma_deepest_fits(node);
            lemma_deepened_by_zero(node@);
        }
        module.append_node(node);
        return Ok(());
    }
    let ids = match read_start_ids(module) {
        Some(ids) => ids,
        None => {
            return Err(SWLError::Other(FeatureError::StartMerge(StartMergeError::InvalidStartDirective)));
        },
    };
    let ghost names = start_ids(views)->0;
    bury_starts(module);
    let func = create_start_func("$_swl_start_merger", &ids);
    proof {
        assert(Seq::new(ids@.len(), |i: int| call_item(ids@[i]@)) =~= Seq::new(
            names.len(),
            |i: int| call_item(names[i]),
        ));
        assert(func@ == merger_function(names));
        lemma_deepest_fits(func);
        lemma_deepened_by_zero(func@);
    }
    module.append_node(func);
    let mut name = String::new();
    push_text(&mut name, "start");
    let mut target = String::new();
    push_text(&mut target, "$_swl_start_merger");
    let mut arguments: Vec<Item> = Vec::new();
    arguments.push(Item::Attribute(target));
    let start = Node { name, depth: 1, items: arguments };
    proof {
        lemma_items_view(arguments@);
        assert(start@.items =~= seq![ItemView::Attribute(merger_id())]);
        lemma_deepest_fits(start);
        lemma_deepened_by_zero(start@);
    }
    module.append_node(start);
    Ok(())
}

} // verus!
verus! {

/// A module without a start directive is merged into itself.
pub proof fn merge_keeps_a_module_without_start(m: NodeView)
    requires
        is_module_view(m),
        count_starts(m.items) == 0,
    ensures
        start_merged(m) == Ok::<NodeView, ErrorView>(m),
{
}

/// A tombstone adds nothing to the text of the items before it.
pub proof fn lemma_tombstone_is_not_written(items: Seq<ItemView>, item: ItemView)
    ensures
        crate::ast::serialize_items(items.push(ItemView::Nothing).push(item)) == crate::ast::serialize_items(
            items.push(item),
        ),
{
    let buried = items.push(ItemView::Nothing);
    assert(buried.push(item).drop_last() == buried);
    assert(buried.drop_last() == items);
    assert(buried.last() == ItemView::Nothing);
    assert(items.push(item).drop_last() == items);
    assert(crate::ast::serialize_spaced(ItemView::Nothing) == Seq::<char>::empty());
    assert(crate::ast::serialize_items(buried) == crate::ast::serialize_items(buried.drop_last())
        + crate::ast::serialize_spaced(buried.last()));
    assert(crate::ast::serialize_items(items) + Seq::<char>::empty() =~= crate::ast::serialize_items(items));
    assert(crate::ast::serialize_items(buried) == crate::ast::serialize_items(items));
    assert(crate::ast::serialize_items(buried.push(item)) == crate::ast::serialize_items(buried)
        + crate::ast::serialize_spaced(item));
    assert(crate::ast::serialize_items(items.push(item)) == crate::ast::serialize_items(items)
        + crate::ast::serialize_spaced(item));
}

/// A module whose single start directive is its last item keeps its text: the directive
/// leaves a tombstone and comes back behind it.
pub proof fn merge_keeps_the_text_of_a_module_with_one_start(m: NodeView)
    requires
        is_module_view(m),
        count_starts(m.items) == 1,
        m.items.len() > 0,
        is_start_item(m.items.last()),
    ensures
        start_merged(m) is Ok,
        crate::ast::serialize(start_merged(m)->Ok_0) == crate::ast::serialize(m),
{
    let items = m.items;
    let front = items.drop_last();
    let last = items.len() - 1;
    assert(count_starts(front) == 0);
    lemma_count_starts(front);
    assert forall|j: int| 0 <= j < last implies !is_start_item(#[trigger] items[j]) by {
        assert(items[j] == front[j]);
    }
    lemma_first_index_is(items, |item: ItemView| is_start_item(item), last);
    assert(without_starts(items) =~= front.push(ItemView::Nothing));
    lemma_tombstone_is_not_written(front, items.last());
    assert(front.push(items.last()) =~= items);
}

} // verus!
verus! {

/// Merging keeps the depths of a module true.
pub proof fn merging_keeps_depths(m: NodeView)
    requires
        start_merged(m) is Ok,
        nested_at(m, 0),
    ensures
        nested_at(start_merged(m)->Ok_0, 0),
{
    let merged = start_merged(m)->Ok_0;
    let buried = without_starts(m.items);
    if count_starts(m.items) == 0 {
    } else if count_starts(m.items) == 1 {
        let p = |item: ItemView| is_start_item(item);
        lemma_first_index(m.items, p);
        lemma_count_starts(m.items);
        let only = m.items[first_index(m.items, p)];
        assert forall|i: int| 0 <= i < merged.items.len() implies (#[trigger] merged.items[i] matches ItemView::Node(c)
            ==> nested_at(c, 1)) by {
            if i < buried.len() {
                assert(merged.items[i] == buried[i]);
            }
        }
    } else {
        let ids = start_ids(m.items)->0;
        let func = merger_function(ids);
        assert forall|k: int| 0 <= k < func.items.len() implies (#[trigger] func.items[k] matches ItemView::Node(c)
            ==> nested_at(c, 2)) by {
            if k > 0 {
                assert(func.items[k] == call_item(ids[k - 1]));
            }
        }
        assert(nested_at(func, 1));
        assert(nested_at(merger_start(), 1));
        assert forall|i: int| 0 <= i < merged.items.len() implies (#[trigger] merged.items[i] matches ItemView::Node(c)
            ==> nested_at(c, 1)) by {
            if i < buried.len() {
                assert(merged.items[i] == buried[i]);
            }
        }
    }
}

} // verus!
