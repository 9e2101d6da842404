//! Small questions about nodes and attribute texts that several features ask.
use crate::ast::{
    first_index, item_view, lemma_first_index_is, lemma_items_view, Item, ItemView, Node, NodeView,
};
use crate::error::{FeatureError, SWLError};
use crate::parser::ParserError;
use crate::text::{isize_value, parse_integer, string_of, text_eq, to_chars, usize_value, parse_usize, has_at};
use vstd::prelude::*;

verus! {

/// Whether the node is the root of a module: named `module`, at depth zero.
pub open spec fn is_module_view(n: NodeView) -> bool {
    n.depth == 0 && n.name == "module"@
}

/// Whether the node is the root of a module.
pub fn is_module(a: &Node) -> (r: bool)
    ensures
        r == is_module_view(a@),
{
    a.depth == 0 && text_eq(a.name.as_str(), "module")
}

/// Whether the text is a string literal with something between its quotes.
pub open spec fn is_quoted(s: Seq<char>) -> bool {
    s.len() > 2 && s[0] == '"' && s[s.len() - 1] == '"'
}

/// What stands between the quotes of a string literal.
pub open spec fn unquoted(s: Seq<char>) -> Seq<char> {
    s.subrange(1, s.len() - 1)
}

/// Whether the text is a string literal with something between its quotes.
pub fn is_string_literal(s: &str) -> (r: bool)
    ensures
        r == is_quoted(s@),
{
    let chars = to_chars(s);
    chars.len() > 2 && chars[0] == '"' && chars[chars.len() - 1] == '"'
}

/// Whether `c` is a hexadecimal digit.
pub open spec fn is_hex_digit(c: char) -> bool {
    ('0' <= c && c <= '9') || ('a' <= c && c <= 'f') || ('A' <= c && c <= 'F')
}

/// Whether `c` is a decimal digit.
pub open spec fn is_decimal_digit(c: char) -> bool {
    '0' <= c && c <= '9'
}

/// How many characters the escape at `pos`, where a backslash stands, takes: three where
/// two hexadecimal digits stand behind the backslash, three as well where a decimal
/// digit stands behind it, whatever follows that, and else two.
pub open spec fn escape_length(s: Seq<char>, pos: int) -> int {
    if pos + 2 < s.len() && is_hex_digit(s[pos + 1]) && is_hex_digit(s[pos + 2]) {
        3
    } else if pos + 1 < s.len() && is_decimal_digit(s[pos + 1]) {
        3
    } else {
        2
    }
}

/// How many bytes the body of a string literal stands for, from `pos` on: one for each
/// character, where an escape counts once, as long as [`escape_length`] says. `None`
/// where the text ends inside an escape.
pub open spec fn interpreted_from(s: Seq<char>, pos: int) -> Option<nat>
    decreases s.len() - pos,
{
    if pos < 0 || pos >= s.len() {
        Some(0)
    } else {
        let next = if s[pos] != '\\' {
            pos + 1
        } else {
            pos + escape_length(s, pos)
        };
        if next > s.len() {
            None
        } else {
            match interpreted_from(s, next) {
                Some(n) => Some(n + 1),
                None => None,
            }
        }
    }
}

/// How many bytes the body of a string literal stands for.
pub open spec fn interpreted_length(s: Seq<char>) -> Option<nat> {
    interpreted_from(s, 0)
}

/// The number of bytes that the body of a string literal needs in memory.
pub fn interpreted_string_length(s: &str) -> (r: Result<usize, SWLError>)
    ensures
        match interpreted_length(s@) {
            Some(n) => r == Ok::<usize, SWLError>(n as usize) && n <= usize::MAX,
            None => r matches Err(SWLError::ParserError(ParserError::InvalidEscapeSequence)),
        },
{
    let chars = to_chars(s);
    let ghost text = chars@;
    let mut count: usize = 0;
    let mut pos: usize = 0;
    while pos < chars.len()
        invariant
            pos <= chars.len(),
            text == chars@,
            text == s@,
            count <= pos,
            interpreted_length(text) == match interpreted_from(text, pos as int) {
                Some(n) => Some((n + count) as nat),
                None => None,
            },
        decreases chars.len() - pos,
    {
        let c = chars[pos];
        let step: usize = if c != '\\' {
            1
        } else if chars.len() - pos > 2 && hex_digit(chars[pos + 1]) && hex_digit(chars[pos + 2]) {
            3
        } else if chars.len() - pos > 1 && '0' <= chars[pos + 1] && chars[pos + 1] <= '9' {
            3
        } else {
            2
        };
        if chars.len() - pos < step {
            return Err(SWLError::ParserError(ParserError::InvalidEscapeSequence));
        }
        count += 1;
        pos += step;
    }
    Ok(count)
}

/// Whether `c` is a hexadecimal digit.
pub fn hex_digit(c: char) -> (r: bool)
    ensures
        r == is_hex_digit(c),
{
    ('0' <= c && c <= '9') || ('a' <= c && c <= 'f') || ('A' <= c && c <= 'F')
}

/// Whether the item is an attribute that begins with `$`.
pub open spec fn is_named_id(item: ItemView) -> bool {
    item matches ItemView::Attribute(a) && a.len() > 0 && a[0] == '$'
}

/// Whether the item is an attribute that reads as an unsigned decimal number.
pub open spec fn is_number(item: ItemView) -> bool {
    item matches ItemView::Attribute(a) && usize_value(a) is Some
}

/// The attribute that identifies a node: its first attribute that begins with `$`, or,
/// where it has none, its first attribute that is a number.
pub open spec fn id_attribute(n: NodeView) -> Option<Seq<char>> {
    let named = first_index(n.items, |item: ItemView| is_named_id(item));
    let numbered = first_index(n.items, |item: ItemView| is_number(item));
    if named < n.items.len() {
        Some(n.items[named].text())
    } else if numbered < n.items.len() {
        Some(n.items[numbered].text())
    } else {
        None
    }
}

/// Finds the attribute that identifies a node. A name such as `$x` is preferred to a number.
pub fn find_id_attribute(node: &Node) -> (r: Option<&str>)
    ensures
        match id_attribute(node@) {
            Some(id) => r matches Some(found) && found@ == id,
            None => r.is_none(),
        },
{
    let ghost views = node@.items;
    proof {
        lemma_items_view(node.items@);
    }
    let mut i: usize = 0;
    while i < node.items.len()
        invariant
            i <= node.items.len(),
            views == node@.items,
            views.len() == node.items.len(),
            forall|j: int| 0 <= j < node.items.len() ==> #[trigger] views[j] == item_view(node.items@[j]),
            forall|j: int| 0 <= j < i ==> !is_named_id(#[trigger] views[j]),
        decreases node.items.len() - i,
    {
        if let Item::Attribute(a) = &node.items[i] {
            if first_char_is(a.as_str(), '$') {
                proof {
                    lemma_first_index_is(views, |item: ItemView| is_named_id(item), i as int);
                }
                return Some(a.as_str());
            }
        }
        i += 1;
    }
    proof {
        lemma_first_index_is(views, |item: ItemView| is_named_id(item), views.len() as int);
    }
    let mut k: usize = 0;
    while k < node.items.len()
        invariant
            k <= node.items.len(),
            views == node@.items,
            views.len() == node.items.len(),
            first_index(views, |item: ItemView| is_named_id(item)) == views.len(),
            forall|j: int| 0 <= j < node.items.len() ==> #[trigger] views[j] == item_view(node.items@[j]),
            forall|j: int| 0 <= j < k ==> !is_number(#[trigger] views[j]),
        decreases node.items.len() - k,
    {
        if let Item::Attribute(a) = &node.items[k] {
            if parse_usize(a.as_str()).is_some() {
                proof {
                    lemma_first_index_is(views, |item: ItemView| is_number(item), k as int);
                }
                return Some(a.as_str());
            }
        }
        k += 1;
    }
    proof {
        lemma_first_index_is(views, |item: ItemView| is_number(item), views.len() as int);
    }
    None
}

/// Whether `s` begins with the character `c`.
pub fn first_char_is(s: &str, c: char) -> (r: bool)
    ensures
        r == (s@.len() > 0 && s@[0] == c),
{
    let mut it = s.chars();
    match it.next() {
        Some(first) => first == c,
        None => false,
    }
}

/// The number that a literal denotes: hexadecimal behind `0x`, octal behind `0`,
/// decimal otherwise.
pub open spec fn number_literal(s: Seq<char>) -> Option<int> {
    if has_at(s, 0, seq!['0', 'x']) {
        isize_value(s.skip(2), 16)
    } else if s.len() > 0 && s[0] == '0' {
        isize_value(s.skip(1), 8)
    } else {
        isize_value(s, 10)
    }
}

/// Reads a number literal: hexadecimal behind `0x`, octal behind `0`, decimal otherwise.
pub fn parse_number_literal(v: &str) -> (r: Result<isize, SWLError>)
    ensures
        match number_literal(v@) {
            Some(n) => r == Ok::<isize, SWLError>(n as isize),
            None => r matches Err(SWLError::Other(FeatureError::InvalidInteger(text))) && text@ == v@,
        },
{
    let chars = to_chars(v);
    let parsed = if chars.len() >= 2 && chars[0] == '0' && chars[1] == 'x' {
        assert(chars@.subrange(0, 2) == seq!['0', 'x']);
        parse_integer(&chars, 2, 16, true, isize::MIN as i128, isize::MAX as i128)
    } else if chars.len() >= 1 && chars[0] == '0' {
        assert(chars.len() >= 2 ==> chars@.subrange(0, 2)[1] == chars@[1]);
        parse_integer(&chars, 1, 8, true, isize::MIN as i128, isize::MAX as i128)
    } else {
        assert(chars.len() >= 2 ==> chars@.subrange(0, 2)[0] == chars@[0]);
        assert(chars@.skip(0) == chars@);
        parse_integer(&chars, 0, 10, true, isize::MIN as i128, isize::MAX as i128)
    };
    match parsed {
        Some(n) => Ok(n as isize),
        None => Err(SWLError::Other(FeatureError::InvalidInteger(string_of(&chars)))),
    }
}

} // verus!
verus! {

/// Whether `k` is the place of the first node among `items` for which `f` answers yes,
/// where `f` was asked about each node before it and answered no.
pub open spec fn is_first_match<F: Fn(&Node) -> bool>(items: Seq<Item>, f: F, k: int) -> bool {
    &&& 0 <= k < items.len()
    &&& items[k] matches Item::Node(node) && call_ensures(f, (&node,), true)
    &&& forall|j: int| 0 <= j < k ==> (#[trigger] items[j] matches Item::Node(node) ==> call_ensures(f, (&node,), false))
}

/// Whether `f` answers no for every node among `items`.
pub open spec fn is_no_match<F: Fn(&Node) -> bool>(items: Seq<Item>, f: F) -> bool {
    forall|j: int| 0 <= j < items.len() ==> (#[trigger] items[j] matches Item::Node(node) ==> call_ensures(
        f,
        (&node,),
        false,
    ))
}

/// The first item of `parent_node` that is a node for which `f` answers yes, for writing.
///
/// The answer of `f` is asked for each node in the order of the items, up to the first
/// yes. What is written to the item is written to the node at its place.
pub fn find_child_node_item_mut<F>(parent_node: &mut Node, f: F) -> (r: Option<&mut Item>) where
    F: Fn(&Node) -> bool,

    requires
        forall|node: &Node| call_requires(f, (node,)),
    ensures
        final(parent_node).name == old(parent_node).name,
        final(parent_node).depth == old(parent_node).depth,
        match r {
            Some(item) => exists|k: int|
                #![trigger old(parent_node).items@[k]]
                is_first_match(old(parent_node).items@, f, k) && *item == old(parent_node).items@[k] && final(parent_node).items@ == old(parent_node).items@.update(k, *final(item)),
            None => is_no_match(old(parent_node).items@, f) && *final(parent_node) == *old(parent_node),
        },
{
    let n = parent_node.items.len();
    let mut found: usize = n;
    let mut i: usize = 0;
    while i < n && found == n
        invariant
            i <= n,
            found <= n,
            n == parent_node.items.len(),
            *parent_node == *old(parent_node),
            forall|node: &Node| call_requires(f, (node,)),
            found == n ==> forall|k: int|
                0 <= k < i ==> (#[trigger] parent_node.items@[k] matches Item::Node(node) ==> call_ensures(
                    f,
                    (&node,),
                    false,
                )),
            found < n ==> is_first_match(parent_node.items@, f, found as int),
        decreases n - i,
    {
        if let Item::Node(node) = &parent_node.items[i] {
            if f(node) {
                found = i;
            }
        }
        i += 1;
    }
    if found < n {
        assert(is_first_match(old(parent_node).items@, f, found as int));
        Some(&mut parent_node.items[found])
    } else {
        None
    }
}

} // verus!
