//! Rewrites hexadecimal and binary numerals as decimal ones.
use crate::ast::{item_view, lemma_items_view, Item, ItemView, Node, NodeView};
use crate::error::{settles, ErrorView, FeatureError, SWLError};
use crate::eval::Evaluator;
use crate::linker::Linker;
use crate::loader::Loader;
use crate::text::{decimal, decimal_of_i64, has_at, i64_value, parse_integer, string_of, to_chars};
use vstd::prelude::*;

verus! {

/// Why an attribute is no numeral.
#[derive(Debug)]
pub enum NumeralsError {
    /// The attribute begins like a hexadecimal or binary numeral and is none that fits
    /// in 64 bits.
    InvalidNumericLiteral(String),
}

/// The radix that the prefix of an attribute announces: 16 behind `0x`, 2 behind `0b`.
pub open spec fn numeral_radix(a: Seq<char>) -> Option<nat> {
    if has_at(a, 0, seq!['0', 'x']) {
        Some(16)
    } else if has_at(a, 0, seq!['0', 'b']) {
        Some(2)
    } else {
        None
    }
}

/// The text without its `_` characters.
pub open spec fn without_separators(s: Seq<char>) -> Seq<char>
    decreases s.len(),
{
    if s.len() == 0 {
        Seq::empty()
    } else if s.last() == '_' {
        without_separators(s.drop_last())
    } else {
        without_separators(s.drop_last()).push(s.last())
    }
}

/// The attribute in decimal, where it is a numeral: the digits behind the prefix, read
/// without their separators as a signed number of 64 bits. Other attributes stay.
pub open spec fn normalized(a: Seq<char>) -> Result<Seq<char>, ErrorView> {
    match numeral_radix(a) {
        None => Ok(a),
        Some(radix) => match i64_value(without_separators(a).skip(2), radix) {
            Some(v) => Ok(decimal(v)),
            None => Err(ErrorView::InvalidNumericLiteral(a)),
        },
    }
}

/// The failure of the first attribute among `items` that cannot be rewritten.
pub open spec fn attributes_error(items: Seq<ItemView>) -> Option<ErrorView>
    decreases items.len(),
{
    if items.len() == 0 {
        None
    } else {
        match attributes_error(items.drop_last()) {
            Some(e) => Some(e),
            None => match items.last() {
                ItemView::Attribute(a) => match normalized(a) {
                    Err(e) => Some(e),
                    Ok(_) => None,
                },
                _ => None,
            },
        }
    }
}

/// The failure of the first node among `items` that cannot be rewritten.
pub open spec fn children_error(items: Seq<ItemView>) -> Option<ErrorView>
    decreases items,
{
    if items.len() == 0 {
        None
    } else {
        match children_error(items.drop_last()) {
            Some(e) => Some(e),
            None => match items.last() {
                ItemView::Node(c) => match normalized_node(c) {
                    Err(e) => Some(e),
                    Ok(_) => None,
                },
                _ => None,
            },
        }
    }
}

/// The item with its numerals in decimal.
pub open spec fn normalized_item(item: ItemView) -> ItemView
    decreases item,
{
    match item {
        ItemView::Nothing => ItemView::Nothing,
        ItemView::Attribute(a) => ItemView::Attribute(
            match normalized(a) {
                Ok(text) => text,
                Err(_) => a,
            },
        ),
        ItemView::Node(c) => ItemView::Node(
            match normalized_node(c) {
                Ok(node) => node,
                Err(_) => c,
            },
        ),
    }
}

/// The tree with its numerals in decimal.
///
/// The attributes of a node are read before the nodes below it, and the nodes in their
/// order: the first numeral on that way that cannot be read is the failure.
pub open spec fn normalized_node(n: NodeView) -> Result<NodeView, ErrorView>
    decreases n,
{
    match attributes_error(n.items) {
        Some(e) => Err(e),
        None => match children_error(n.items) {
            Some(e) => Err(e),
            None => Ok(
                NodeView {
                    name: n.name,
                    depth: n.depth,
                    items: Seq::new(
                        n.items.len(),
                        |i: int|
                            if 0 <= i < n.items.len() {
                                normalized_item(n.items[i])
                            } else {
                                ItemView::Nothing
                            },
                    ),
                },
            ),
        },
    }
}

/// Where a prefix of the items holds a bad attribute, the first one in all of them is that one.
pub proof fn lemma_attributes_error(items: Seq<ItemView>, k: int)
    requires
        0 <= k <= items.len(),
        attributes_error(items.take(k)) is Some,
    ensures
        attributes_error(items) == attributes_error(items.take(k)),
    decreases items.len(),
{
    if k < items.len() {
        assert(items.drop_last().take(k) == items.take(k));
        lemma_attributes_error(items.drop_last(), k);
    } else {
        assert(items.take(k) == items);
    }
}

/// Where a prefix of the items holds a bad node, the first one in all of them is that one.
pub proof fn lemma_children_error(items: Seq<ItemView>, k: int)
    requires
        0 <= k <= items.len(),
        children_error(items.take(k)) is Some,
    ensures
        children_error(items) == children_error(items.take(k)),
    decreases items.len(),
{
    if k < items.len() {
        assert(items.drop_last().take(k) == items.take(k));
        lemma_children_error(items.drop_last(), k);
    } else {
        assert(items.take(k) == items);
    }
}

/// Items without a bad attribute hold none at any place.
pub proof fn lemma_attributes_fine(items: Seq<ItemView>, i: int)
    requires
        0 <= i < items.len(),
        attributes_error(items).is_none(),
    ensures
        items[i] matches ItemView::Attribute(a) ==> normalized(a) is Ok,
    decreases items.len(),
{
    if i < items.len() - 1 {
        lemma_attributes_fine(items.drop_last(), i);
    }
}

/// Items without a bad node hold none at any place.
pub proof fn lemma_children_fine(items: Seq<ItemView>, i: int)
    requires
        0 <= i < items.len(),
        children_error(items).is_none(),
    ensures
        items[i] matches ItemView::Node(c) ==> normalized_node(c) is Ok,
    decreases items.len(),
{
    if i < items.len() - 1 {
        lemma_children_fine(items.drop_last(), i);
    }
}

/// Rewrites one attribute. `None` stands for an attribute that stays as it is.
pub fn normalize(attr: &str) -> (r: Result<Option<String>, SWLError>)
    ensures
        match normalized(attr@) {
            Ok(text) => match r {
                Ok(Some(found)) => numeral_radix(attr@) is Some && found@ == text,
                Ok(None) => numeral_radix(attr@).is_none(),
                Err(_) => false,
            },
            Err(e) => r matches Err(found) && found@ == e,
        },
{
    let chars = to_chars(attr);
    if chars.len() < 2 || chars[0] != '0' || (chars[1] != 'x' && chars[1] != 'b') {
        assert(chars.len() >= 2 ==> chars@.subrange(0, 2)[0] == chars@[0] && chars@.subrange(0, 2)[1] == chars@[1]);
        return Ok(None);
    }
    let radix: u32 = if chars[1] == 'x' {
        16
    } else {
        2
    };
    assert(chars@.subrange(0, 2) =~= seq!['0', chars@[1]]);
    let mut digits: Vec<char> = Vec::new();
    let mut i: usize = 0;
    while i < chars.len()
        invariant
            i <= chars.len(),
            digits@ == without_separators(chars@.take(i as int)),
        decreases chars.len() - i,
    {
        proof {
            assert(chars@.take(i + 1).drop_last() == chars@.take(i as int));
            assert(chars@.take(i + 1).last() == chars@[i as int]);
        }
        if chars[i] != '_' {
            digits.push(chars[i]);
        }
        i += 1;
    }
    assert(chars@.take(chars@.len() as int) == chars@);
    if digits.len() < 2 {
        proof {
            lemma_separators_prefix(chars@);
        }
        return Err(SWLError::Other(FeatureError::Numerals(NumeralsError::InvalidNumericLiteral(string_of(&chars)))));
    }
    match parse_integer(&digits, 2, radix, true, i64::MIN as i128, i64::MAX as i128) {
        Some(v) => Ok(Some(decimal_of_i64(v as i64))),
        None => Err(SWLError::Other(FeatureError::Numerals(NumeralsError::InvalidNumericLiteral(string_of(&chars))))),
    }
}

/// A text that begins with two characters other than `_` keeps them in front when the
/// separators go.
pub proof fn lemma_separators_prefix(s: Seq<char>)
    requires
        s.len() >= 2,
        s[0] != '_',
        s[1] != '_',
    ensures
        without_separators(s).len() >= 2,
        without_separators(s)[0] == s[0],
        without_separators(s)[1] == s[1],
    decreases s.len(),
{
    if s.len() == 2 {
        assert(s.drop_last().drop_last() =~= Seq::<char>::empty());
        assert(without_separators(s.drop_last().drop_last()) =~= Seq::<char>::empty());
        assert(without_separators(s.drop_last()) =~= seq![s[0]]);
    } else {
        lemma_separators_prefix(s.drop_last());
    }
}

/// Looks for the first numeral in the tree that cannot be read.
fn check_numerals(node: &Node) -> (r: Result<(), SWLError>)
    ensures
        match normalized_node(node@) {
            Ok(_) => r is Ok,
            Err(e) => r matches Err(found) && found@ == e,
        },
    decreases node,
{
    let ghost views = node@.items;
    proof {
        lemma_items_view(node.items@);
        assert(views.take(0) == Seq::<ItemView>::empty());
    }
    let mut i: usize = 0;
    while i < node.items.len()
        invariant
            i <= node.items.len(),
            views == node@.items,
            views.len() == node.items.len(),
            forall|j: int| 0 <= j < node.items.len() ==> #[trigger] views[j] == item_view(node.items@[j]),
            attributes_error(views.take(i as int)).is_none(),
        decreases node.items.len() - i,
    {
        proof {
            assert(views.take(i + 1).drop_last() == views.take(i as int));
            assert(views.take(i + 1).last() == views[i as int]);
        }
        if let Item::Attribute(a) = &node.items[i] {
            match normalize(a.as_str()) {
                Err(e) => {
                    proof {
                        lemma_attributes_error(views, i + 1);
                    }
                    return Err(e);
                },
                Ok(_) => {},
            }
        }
        i += 1;
    }
    proof {
        assert(views.take(views.len() as int) == views);
    }
    let mut k: usize = 0;
    while k < node.items.len()
        invariant
            k <= node.items.len(),
            views == node@.items,
            views.len() == node.items.len(),
            forall|j: int| 0 <= j < node.items.len() ==> #[trigger] views[j] == item_view(node.items@[j]),
            attributes_error(views).is_none(),
            children_error(views.take(k as int)).is_none(),
        decreases node.items.len() - k,
    {
        proof {
            assert(views.take(k + 1).drop_last() == views.take(k as int));
            assert(views.take(k + 1).last() == views[k as int]);
        }
        if let Item::Node(child) = &node.items[k] {
            match check_numerals(child) {
                Err(e) => {
                    proof {
                        lemma_children_error(views, k + 1);
                    }
                    return Err(e);
                },
                Ok(_) => {},
            }
        }
        k += 1;
    }
    proof {
        assert(views.take(views.len() as int) == views);
    }
    Ok(())
}

/// Rewrites the numerals of a tree in which all of them can be read.
fn rewrite_numerals(node: &mut Node)
    requires
        normalized_node(old(node)@) is Ok,
    ensures
        final(node)@ == normalized_node(old(node)@)->Ok_0,
    decreases *old(node),
{
    let ghost views = node@.items;
    proof {
        lemma_items_view(node.items@);
    }
    let n = node.items.len();
    let mut i: usize = 0;
    while i < n
        invariant
            i <= n,
            n == node.items.len(),
            n == old(node).items.len(),
            node.name == old(node).name,
            node.depth == old(node).depth,
            views == old(node)@.items,
            views.len() == n,
            attributes_error(views).is_none(),
            children_error(views).is_none(),
            forall|j: int| 0 <= j < n ==> #[trigger] views[j] == item_view(old(node).items@[j]),
            forall|j: int| i <= j < n ==> node.items@[j] == old(node).items@[j],
            forall|j: int| 0 <= j < i ==> #[trigger] item_view(node.items@[j]) == normalized_item(views[j]),
        decreases n - i,
    {
        proof {
            lemma_attributes_fine(views, i as int);
            lemma_children_fine(views, i as int);
            assert(views[i as int] == item_view(old(node).items@[i as int]));
        }
        match &mut node.items[i] {
            Item::Nothing => {},
            Item::Attribute(a) => {
                match normalize(a.as_str()) {
                    Ok(Some(text)) => {
                        *a = text;
                    },
                    _ => {},
                }
            },
            Item::Node(child) => {
                rewrite_numerals(child);
            },
        }
        i += 1;
    }
    proof {
        lemma_items_view(node.items@);
        assert(node@.items =~= normalized_node(old(node)@)->Ok_0.items);
    }
}

/// Rewrites every attribute of the tree that begins with `0x` or `0b` as a decimal
/// number.
///
/// The `_` separators of the attribute are dropped, and what stands behind the prefix is
/// read as a signed number of 64 bits. The first attribute that cannot be read so, going
/// through each node's attributes before the nodes below it, fails the feature, and the
/// tree stays as it was.
pub fn numerals<L: Loader, E: Evaluator>(module: &mut Node, _linker: &mut Linker<L, E>) -> (r: Result<
    (),
    SWLError,
>)
    ensures
        settles(r, old(module)@, final(module)@, normalized_node(old(module)@)),
        *final(_linker) == *old(_linker),
{
    check_numerals(module)?;
    rewrite_numerals(module);
    Ok(())
}

} // verus!
verus! {

/// Rewriting numerals keeps the depths of a tree true.
pub proof fn normalizing_keeps_depths(n: NodeView, depth: nat)
    requires
        normalized_node(n) is Ok,
        crate::ast::nested_at(n, depth),
    ensures
        crate::ast::nested_at(normalized_node(n)->Ok_0, depth),
    decreases n,
{
    let after = normalized_node(n)->Ok_0;
    assert forall|i: int| 0 <= i < after.items.len() implies (#[trigger] after.items[i] matches ItemView::Node(c)
        ==> crate::ast::nested_at(c, depth + 1)) by {
        match n.items[i] {
            ItemView::Node(c) => {
                lemma_children_fine(n.items, i);
                normalizing_keeps_depths(c, depth + 1);
            },
            _ => {},
        }
    }
}

} // verus!
