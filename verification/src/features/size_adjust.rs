//! Sizes the memory of a module: counts the pages that its active data segments reach
//! into and writes the count into the `memory` declaration.
use crate::ast::{
    first_index, is_node_named, item_view, lemma_first_index, lemma_first_index_is, lemma_first_index_same, lemma_items_view,
    lemma_items_view_push, lemma_items_view_update, Item, ItemView, Node, NodeView,
};
use crate::error::{settles, ErrorView, FeatureError, SWLError};
use crate::eval::Evaluator;
use crate::linker::Linker;
use crate::loader::Loader;
use crate::parser::ParseErrorView;
use crate::text::{
    decimal, decimal_of_usize, parse_usize, push_text, string_of_range, text_eq, to_chars, usize_value,
};
use crate::utils::{
    interpreted_length, interpreted_string_length, is_module, is_module_view, is_number, is_quoted,
    is_string_literal, unquoted,
};
use vstd::prelude::*;

verus! {

/// Why the memory of a module cannot be sized.
#[derive(Debug, Clone, Copy, PartialEq, Eq, Structural)]
pub enum SizeAdjustError {
    /// The node is not the root of a module.
    NotAModule,
    /// A data segment has an offset that is no `i32.const`, or it ends beyond the
    /// address space.
    InvalidOffset,
}

/// The bytes in one page of memory.
pub const PAGE_SIZE: usize = 65536;

/// The pages that hold `max_addr` bytes: the quotient rounded up, and one at the least.
pub open spec fn pages_for(max_addr: nat) -> nat {
    if max_addr <= 65536 {
        1
    } else {
        ((max_addr + 65535) / 65536) as nat
    }
}

/// Whether the item is a node that says where a segment lies: `offset` or `i32.const`.
pub open spec fn is_offset_item(item: ItemView) -> bool {
    is_node_named(item, "offset"@) || is_node_named(item, "i32.const"@)
}

/// Whether the item is a `memory` node.
pub open spec fn is_memory_item(item: ItemView) -> bool {
    is_node_named(item, "memory"@)
}

/// Whether a data segment is placed in memory when the module is set up: it names a
/// memory or says where it lies.
pub open spec fn is_active(seg: NodeView) -> bool {
    first_index(seg.items, |item: ItemView| is_memory_item(item)) < seg.items.len() || first_index(
        seg.items,
        |item: ItemView| is_offset_item(item),
    ) < seg.items.len()
}

/// The address that an offset expression gives: the number in `(i32.const N)`, zero
/// where something other than an attribute stands in place of `N`.
pub open spec fn const_offset(c: NodeView) -> Result<nat, ErrorView> {
    if c.name != "i32.const"@ || c.items.len() == 0 {
        Err(ErrorView::SizeAdjust(SizeAdjustError::InvalidOffset))
    } else {
        let text = match c.items[0] {
            ItemView::Attribute(a) => a,
            _ => seq!['0'],
        };
        match usize_value(text) {
            Some(v) => Ok(v as nat),
            None => Err(ErrorView::InvalidInteger(text)),
        }
    }
}

/// The address at which a segment begins: what its first `offset` or `i32.const` item
/// says, zero where it has none. An `offset` holds the expression as its first item.
pub open spec fn segment_offset(seg: NodeView) -> Result<nat, ErrorView> {
    let k = first_index(seg.items, |item: ItemView| is_offset_item(item));
    if k >= seg.items.len() {
        Ok(0)
    } else {
        let found = seg.items[k].node();
        if found.name == "offset"@ {
            if found.items.len() > 0 && found.items[0] is Node {
                const_offset(found.items[0].node())
            } else {
                Err(ErrorView::SizeAdjust(SizeAdjustError::InvalidOffset))
            }
        } else {
            const_offset(found)
        }
    }
}

/// The bytes that the string literals among `items` stand for, taken together.
pub open spec fn payload_size(items: Seq<ItemView>) -> Result<nat, ErrorView>
    decreases items.len(),
{
    if items.len() == 0 {
        Ok(0)
    } else {
        match payload_size(items.drop_last()) {
            Err(e) => Err(e),
            Ok(n) => match items.last() {
                ItemView::Attribute(a) => if is_quoted(a) {
                    match interpreted_length(unquoted(a)) {
                        None => Err(ErrorView::Parser(ParseErrorView::InvalidEscapeSequence)),
                        Some(k) => if n + k > usize::MAX {
                            Err(ErrorView::SizeAdjust(SizeAdjustError::InvalidOffset))
                        } else {
                            Ok(n + k)
                        },
                    }
                } else {
                    Ok(n)
                },
                _ => Ok(n),
            },
        }
    }
}

/// The address behind the last byte of a segment.
pub open spec fn segment_end(seg: NodeView) -> Result<nat, ErrorView> {
    match segment_offset(seg) {
        Err(e) => Err(e),
        Ok(offset) => match payload_size(seg.items) {
            Err(e) => Err(e),
            Ok(size) => if offset + size > usize::MAX {
                Err(ErrorView::SizeAdjust(SizeAdjustError::InvalidOffset))
            } else {
                Ok(offset + size)
            },
        },
    }
}

/// The address behind the last byte of all active data segments among `items`, zero
/// where there is none. The first segment that is not in order decides the failure.
pub open spec fn memory_extent(items: Seq<ItemView>) -> Result<nat, ErrorView>
    decreases items.len(),
{
    if items.len() == 0 {
        Ok(0)
    } else {
        match memory_extent(items.drop_last()) {
            Err(e) => Err(e),
            Ok(most) => match items.last() {
                ItemView::Node(seg) => if seg.name == "data"@ && is_active(seg) {
                    match segment_end(seg) {
                        Err(e) => Err(e),
                        Ok(end) => Ok(if end > most {
                            end
                        } else {
                            most
                        }),
                    }
                } else {
                    Ok(most)
                },
                _ => Ok(most),
            },
        }
    }
}

/// A `memory` declaration with `pages` as its size: in place of its first attribute that
/// is a number, or behind its items where it has none.
pub open spec fn with_pages(memory: NodeView, pages: nat) -> NodeView {
    let k = first_index(memory.items, |item: ItemView| is_number(item));
    let size = ItemView::Attribute(decimal(pages as int));
    NodeView {
        items: if k < memory.items.len() {
            memory.items.update(k, size)
        } else {
            memory.items.push(size)
        },
        ..memory
    }
}

/// The module with `pages` written into its first `memory` item, if it has one.
pub open spec fn with_memory_pages(m: NodeView, pages: nat) -> NodeView {
    let k = first_index(m.items, |item: ItemView| is_memory_item(item));
    if k < m.items.len() {
        NodeView { items: m.items.update(k, ItemView::Node(with_pages(m.items[k].node(), pages))), ..m }
    } else {
        m
    }
}

/// What sizing the memory makes of a module.
pub open spec fn size_adjusted(m: NodeView) -> Result<NodeView, ErrorView> {
    if !is_module_view(m) {
        Err(ErrorView::SizeAdjust(SizeAdjustError::NotAModule))
    } else {
        match memory_extent(m.items) {
            Err(e) => Err(e),
            Ok(max_addr) => Ok(with_memory_pages(m, pages_for(max_addr))),
        }
    }
}

/// The position of the first item of `node` that is a node named `a` or `b`.
pub fn find_child(node: &Node, a: &str, b: &str) -> (k: usize)
    ensures
        k == first_index(node@.items, |item: ItemView| is_node_named(item, a@) || is_node_named(item, b@)),
        k <= node.items.len(),
        k < node.items.len() ==> node.items@[k as int] is Node,
{
    let ghost views = node@.items;
    let ghost p = |item: ItemView| is_node_named(item, a@) || is_node_named(item, b@);
    proof {
        lemma_items_view(node.items@);
    }
    let mut i: usize = 0;
    while i < node.items.len()
        invariant
            i <= node.items.len(),
            views == node@.items,
            views.len() == node.items.len(),
            p == |item: ItemView| is_node_named(item, a@) || is_node_named(item, b@),
            forall|j: int| 0 <= j < node.items.len() ==> #[trigger] views[j] == item_view(node.items@[j]),
            forall|j: int| 0 <= j < i ==> !p(#[trigger] views[j]),
        decreases node.items.len() - i,
    {
        if let Item::Node(child) = &node.items[i] {
            if text_eq(child.name.as_str(), a) || text_eq(child.name.as_str(), b) {
                proof {
                    lemma_first_index_is(views, p, i as int);
                }
                return i;
            }
        }
        i += 1;
    }
    proof {
        lemma_first_index_is(views, p, views.len() as int);
    }
    i
}

/// The position of the first item of `node` that is an attribute and reads as a number.
pub fn find_number(node: &Node) -> (k: usize)
    ensures
        k == first_index(node@.items, |item: ItemView| is_number(item)),
        k <= node.items.len(),
{
    let ghost views = node@.items;
    let ghost p = |item: ItemView| is_number(item);
    proof {
        lemma_items_view(node.items@);
    }
    let mut i: usize = 0;
    while i < node.items.len()
        invariant
            i <= node.items.len(),
            views == node@.items,
            views.len() == node.items.len(),
            p == |item: ItemView| is_number(item),
            forall|j: int| 0 <= j < node.items.len() ==> #[trigger] views[j] == item_view(node.items@[j]),
            forall|j: int| 0 <= j < i ==> !p(#[trigger] views[j]),
        decreases node.items.len() - i,
    {
        if let Item::Attribute(a) = &node.items[i] {
            if parse_usize(a.as_str()).is_some() {
                proof {
                    lemma_first_index_is(views, p, i as int);
                }
                return i;
            }
        }
        i += 1;
    }
    proof {
        lemma_first_index_is(views, p, views.len() as int);
    }
    i
}

/// Whether a data segment is placed in memory when the module is set up. Fails on a
/// node that is no data segment.
pub fn is_active_data_segment(data_seg: &Node) -> (r: Result<bool, SWLError>)
    ensures
        match r {
            Ok(active) => data_seg@.name == "data"@ && active == is_active(data_seg@),
            Err(e) => data_seg@.name != "data"@ && e@ == ErrorView::Simple(
                "Expected a data segment, found "@ + data_seg@.name,
            ),
        },
{
    if !text_eq(data_seg.name.as_str(), "data") {
        let mut message = String::new();
        push_text(&mut message, "Expected a data segment, found ");
        push_text(&mut message, data_seg.name.as_str());
        return Err(SWLError::Simple(message));
    }
    let memory = find_child(data_seg, "memory", "memory");
    let offset = find_child(data_seg, "offset", "i32.const");
    proof {
        let views = data_seg@.items;
        lemma_items_view(data_seg.items@);
        lemma_first_index_same(
            views,
            |item: ItemView| is_node_named(item, "memory"@) || is_node_named(item, "memory"@),
            |item: ItemView| is_memory_item(item),
        );
        lemma_first_index_same(
            views,
            |item: ItemView| is_node_named(item, "offset"@) || is_node_named(item, "i32.const"@),
            |item: ItemView| is_offset_item(item),
        );
    }
    Ok(memory < data_seg.items.len() || offset < data_seg.items.len())
}

/// Reads the address in `(i32.const N)`.
fn read_const_offset(c: &Node) -> (r: Result<usize, SWLError>)
    ensures
        match const_offset(c@) {
            Ok(v) => r == Ok::<usize, SWLError>(v as usize) && v <= usize::MAX,
            Err(e) => r matches Err(found) && found@ == e,
        },
{
    proof {
        lemma_items_view(c.items@);
    }
    if !text_eq(c.name.as_str(), "i32.const") || c.items.len() == 0 {
        return Err(SWLError::Other(FeatureError::SizeAdjust(SizeAdjustError::InvalidOffset)));
    }
    let chars: Vec<char> = match &c.items[0] {
        Item::Attribute(a) => to_chars(a.as_str()),
        _ => {
            let mut zero: Vec<char> = Vec::new();
            zero.push('0');
            assert(zero@ == seq!['0']);
            zero
        },
    };
    let text = string_of_range(&chars, 0, chars.len());
    assert(text@ == chars@) by {
        assert(chars@.subrange(0, chars@.len() as int) == chars@);
    }
    match parse_usize(text.as_str()) {
        Some(v) => Ok(v),
        None => Err(SWLError::Other(FeatureError::InvalidInteger(text))),
    }
}

/// Reads the address at which a segment begins.
fn read_segment_offset(seg: &Node) -> (r: Result<usize, SWLError>)
    ensures
        match segment_offset(seg@) {
            Ok(v) => r == Ok::<usize, SWLError>(v as usize) && v <= usize::MAX,
            Err(e) => r matches Err(found) && found@ == e,
        },
{
    let k = find_child(seg, "offset", "i32.const");
    proof {
        lemma_first_index_same(
            seg@.items,
            |item: ItemView| is_node_named(item, "offset"@) || is_node_named(item, "i32.const"@),
            |item: ItemView| is_offset_item(item),
        );
        lemma_items_view(seg.items@);
    }
    if k >= seg.items.len() {
        return Ok(0);
    }
    match &seg.items[k] {
        Item::Node(found) => {
            proof {
                lemma_items_view(found.items@);
            }
            if text_eq(found.name.as_str(), "offset") {
                if found.items.len() > 0 {
                    if let Item::Node(inner) = &found.items[0] {
                        return read_const_offset(inner);
                    }
                }
                Err(SWLError::Other(FeatureError::SizeAdjust(SizeAdjustError::InvalidOffset)))
            } else {
                read_const_offset(found)
            }
        },
        _ => Ok(0),
    }
}

/// Adds up the bytes that the string literals of a segment stand for.
fn read_payload_size(seg: &Node) -> (r: Result<usize, SWLError>)
    ensures
        match payload_size(seg@.items) {
            Ok(v) => r == Ok::<usize, SWLError>(v as usize) && v <= usize::MAX,
            Err(e) => r matches Err(found) && found@ == e,
        },
{
    let ghost views = seg@.items;
    proof {
        lemma_items_view(seg.items@);
        assert(views.take(0) == Seq::<ItemView>::empty());
    }
    let mut total: usize = 0;
    let mut i: usize = 0;
    while i < seg.items.len()
        invariant
            i <= seg.items.len(),
            views == seg@.items,
            views.len() == seg.items.len(),
            forall|j: int| 0 <= j < seg.items.len() ==> #[trigger] views[j] == item_view(seg.items@[j]),
            payload_size(views.take(i as int)) == Ok::<nat, ErrorView>(total as nat),
        decreases seg.items.len() - i,
    {
        proof {
            assert(views.take(i + 1).drop_last() == views.take(i as int));
            assert(views.take(i + 1).last() == views[i as int]);
        }
        if let Item::Attribute(a) = &seg.items[i] {
            if is_string_literal(a.as_str()) {
                let chars = to_chars(a.as_str());
                let body = string_of_range(&chars, 1, chars.len() - 1);
                let size = match interpreted_string_length(body.as_str()) {
                    Ok(size) => size,
                    Err(e) => {
                        proof {
                            lemma_payload_fails(views, i + 1);
                        }
                        return Err(e);
                    },
                };
                if size > usize::MAX - total {
                    proof {
                        lemma_payload_fails(views, i + 1);
                    }
                    return Err(SWLError::Other(FeatureError::SizeAdjust(SizeAdjustError::InvalidOffset)));
                }
                total += size;
            }
        }
        i += 1;
    }
    proof {
        assert(views.take(views.len() as int) == views);
    }
    Ok(total)
}

/// Where a prefix of the items fails, all of them fail in the same way.
pub proof fn lemma_payload_fails(items: Seq<ItemView>, k: int)
    requires
        0 <= k <= items.len(),
        payload_size(items.take(k)) is Err,
    ensures
        payload_size(items) == payload_size(items.take(k)),
    decreases items.len(),
{
    if k < items.len() {
        assert(items.drop_last().take(k) == items.take(k));
        lemma_payload_fails(items.drop_last(), k);
    } else {
        assert(items.take(k) == items);
    }
}

/// Where a prefix of the items fails, all of them fail in the same way.
pub proof fn lemma_extent_fails(items: Seq<ItemView>, k: int)
    requires
        0 <= k <= items.len(),
        memory_extent(items.take(k)) is Err,
    ensures
        memory_extent(items) == memory_extent(items.take(k)),
    decreases items.len(),
{
    if k < items.len() {
        assert(items.drop_last().take(k) == items.take(k));
        lemma_extent_fails(items.drop_last(), k);
    } else {
        assert(items.take(k) == items);
    }
}

/// Finds the address behind the last byte of a segment.
fn read_segment_end(seg: &Node) -> (r: Result<usize, SWLError>)
    ensures
        match segment_end(seg@) {
            Ok(v) => r == Ok::<usize, SWLError>(v as usize) && v <= usize::MAX,
            Err(e) => r matches Err(found) && found@ == e,
        },
{
    let offset = read_segment_offset(seg)?;
    let size = read_payload_size(seg)?;
    if size > usize::MAX - offset {
        return Err(SWLError::Other(FeatureError::SizeAdjust(SizeAdjustError::InvalidOffset)));
    }
    Ok(offset + size)
}

/// The pages that hold `max_addr` bytes.
pub fn pages(max_addr: usize) -> (n: usize)
    ensures
        n == pages_for(max_addr as nat),
{
    if max_addr <= PAGE_SIZE {
        1
    } else {
        let whole = max_addr / PAGE_SIZE;
        if max_addr % PAGE_SIZE == 0 {
            whole
        } else {
            whole + 1
        }
    }
}

/// Writes the number of pages into a `memory` declaration.
fn set_pages(memory: &mut Node, pages: usize)
    ensures
        final(memory)@ == with_pages(old(memory)@, pages as nat),
{
    let k = find_number(memory);
    let size = Item::Attribute(decimal_of_usize(pages));
    proof {
        lemma_items_view(memory.items@);
    }
    if k < memory.items.len() {
        proof {
            lemma_items_view_update(memory.items@, k as int, size);
        }
        memory.items[k] = size;
    } else {
        proof {
            lemma_items_view_push(memory.items@, size);
        }
        memory.items.push(size);
    }
}

/// Sizes the memory of a module.
///
/// The address behind the last byte of the active data segments decides how many pages
/// of 64 KiB the module needs, one at the least. The count replaces the first number among
/// the attributes of the first `memory` item, or is put behind its items. A module
/// without a `memory` item stays as it is.
pub fn size_adjust<L: Loader, E: Evaluator>(module: &mut Node, _linker: &mut Linker<L, E>) -> (r: Result<
    (),
    SWLError,
>)
    ensures
        settles(r, old(module)@, final(module)@, size_adjusted(old(module)@)),
        *final(_linker) == *old(_linker),
{
    if !is_module(module) {
        return Err(SWLError::Other(FeatureError::SizeAdjust(SizeAdjustError::NotAModule)));
    }
    let ghost views = module@.items;
    proof {
        lemma_items_view(module.items@);
        assert(views.take(0) == Seq::<ItemView>::empty());
    }
    let mut max_addr: usize = 0;
    let mut i: usize = 0;
    while i < module.items.len()
        invariant
            i <= module.items.len(),
            *module == *old(module),
            is_module_view(module@),
            views == module@.items,
            views.len() == module.items.len(),
            forall|j: int| 0 <= j < module.items.len() ==> #[trigger] views[j] == item_view(module.items@[j]),
            memory_extent(views.take(i as int)) == Ok::<nat, ErrorView>(max_addr as nat),
        decreases module.items.len() - i,
    {
        proof {
            assert(views.take(i + 1).drop_last() == views.take(i as int));
            assert(views.take(i + 1).last() == views[i as int]);
        }
        if let Item::Node(node) = &module.items[i] {
            if text_eq(node.name.as_str(), "data") {
                let active = match is_active_data_segment(node) {
                    Ok(active) => active,
                    Err(e) => {
                        assert(false);
                        return Err(e);
                    },
                };
                if active {
                    let end = match read_segment_end(node) {
                        Ok(end) => end,
                        Err(e) => {
                            proof {
                                lemma_extent_fails(views, i + 1);
                            }
                            return Err(e);
                        },
                    };
                    if end > max_addr {
                        max_addr = end;
                    }
                }
            }
        }
        i += 1;
    }
    proof {
        assert(views.take(views.len() as int) == views);
    }
    let k = find_child(module, "memory", "memory");
    proof {
        lemma_first_index_same(
            views,
            |item: ItemView| is_node_named(item, "memory"@) || is_node_named(item, "memory"@),
            |item: ItemView| is_memory_item(item),
        );
    }
    if k >= module.items.len() {
        return Ok(());
    }
    let num_pages = pages(max_addr);
    match &mut module.items[k] {
        Item::Node(memory) => {
            set_pages(memory, num_pages);
        },
        _ => {},
    }
    proof {
        lemma_items_view(module.items@);
        assert(module@.items =~= views.update(
            k as int,
            ItemView::Node(with_pages(views[k as int].node(), num_pages as nat)),
        ));
    }
    Ok(())
}

} // verus!
verus! {

/// Items without a data segment reach into no memory.
pub proof fn lemma_extent_without_data(items: Seq<ItemView>)
    requires
        forall|i: int| 0 <= i < items.len() ==> !is_node_named(#[trigger] items[i], "data"@),
    ensures
        memory_extent(items) == Ok::<nat, ErrorView>(0),
    decreases items.len(),
{
    if items.len() > 0 {
        assert forall|i: int| 0 <= i < items.drop_last().len() implies !is_node_named(
            #[trigger] items.drop_last()[i],
            "data"@,
        ) by {
            assert(items.drop_last()[i] == items[i]);
        }
        lemma_extent_without_data(items.drop_last());
        assert(!is_node_named(items.last(), "data"@));
    }
}

/// A module without data segments needs exactly one page of memory.
pub proof fn a_module_without_data_needs_one_page(m: NodeView)
    requires
        is_module_view(m),
        forall|i: int| 0 <= i < m.items.len() ==> !is_node_named(#[trigger] m.items[i], "data"@),
    ensures
        size_adjusted(m) == Ok::<NodeView, ErrorView>(with_memory_pages(m, 1)),
{
    lemma_extent_without_data(m.items);
}

} // verus!
verus! {

/// Sizing the memory keeps the depths of a module true.
pub proof fn sizing_keeps_depths(m: NodeView)
    requires
        size_adjusted(m) is Ok,
        crate::ast::nested_at(m, 0),
    ensures
        crate::ast::nested_at(size_adjusted(m)->Ok_0, 0),
{
    let sized = size_adjusted(m)->Ok_0;
    let k = first_index(m.items, |item: ItemView| is_memory_item(item));
    lemma_first_index(m.items, |item: ItemView| is_memory_item(item));
    if k < m.items.len() {
        let memory = m.items[k].node();
        let pages = pages_for(memory_extent(m.items)->Ok_0);
        let patched = with_pages(memory, pages);
        let j = first_index(memory.items, |item: ItemView| is_number(item));
        lemma_first_index(memory.items, |item: ItemView| is_number(item));
        assert(is_memory_item(m.items[k]));
        assert(m.items[k] == ItemView::Node(memory));
        assert(crate::ast::nested_at(memory, 1));
        assert forall|i: int| 0 <= i < patched.items.len() implies (#[trigger] patched.items[i] matches ItemView::Node(
            c,
        ) ==> crate::ast::nested_at(c, 2)) by {
            if i < memory.items.len() && i != j {
                assert(patched.items[i] == memory.items[i]);
            } else {
                assert(patched.items[i] is Attribute);
            }
        }
        assert(crate::ast::nested_at(patched, 1));
        assert(sized.items == m.items.update(k, ItemView::Node(patched)));
        assert forall|i: int| 0 <= i < sized.items.len() implies (#[trigger] sized.items[i] matches ItemView::Node(c)
            ==> crate::ast::nested_at(c, 1)) by {
            if i != k {
                assert(sized.items[i] == m.items[i]);
            } else {
                assert(sized.items[i] == ItemView::Node(patched));
            }
        }
    }
}

} // verus!
