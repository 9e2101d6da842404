//! Parsing and writing are inverse to one another on what the parser builds: the
//! canonical text of a parsed tree parses to the same tree.
use crate::ast::{item_text, nested_at, serialize, serialize_items, serialize_spaced, ItemView, NodeView};
use crate::parser::{
    begins_item, ident_end, is_ident_char, lemma_parse_node_nested, lemma_skip_blank, parse_item_at,
    parse_items_at, parse_node_at, parse_text, skip_blank, starts_comment, string_end, token_end,
    ParseErrorView,
};
use crate::text::{has_at, white_space};
use vstd::prelude::*;

verus! {

/// Whether the text is a string literal that closes with its last character.
pub open spec fn is_string_token(a: Seq<char>) -> bool {
    a.len() >= 2 && a[0] == '"' && string_end(a, 1) == Some(a.len() as int)
}

/// Whether the text, read from `pos` on with `level` parentheses open, holds nothing that
/// ends a bare token before its end, and closes every parenthesis that it opens.
pub open spec fn runs_through(a: Seq<char>, pos: int, level: nat) -> bool
    decreases a.len() - pos,
{
    if pos < 0 || pos >= a.len() {
        level == 0 && pos == a.len()
    } else if level == 0 && (white_space(a[pos]) || a[pos] == ')' || starts_comment(a, pos)) {
        false
    } else if a[pos] == '(' {
        runs_through(a, pos + 1, level + 1)
    } else if a[pos] == ')' {
        runs_through(a, pos + 1, (level - 1) as nat)
    } else {
        runs_through(a, pos + 1, level)
    }
}

/// Whether the text is a bare token.
pub open spec fn is_bare_token(a: Seq<char>) -> bool {
    a.len() > 0 && a[0] != '(' && a[0] != '"' && runs_through(a, 0, 0)
}

/// Whether the text is what the parser reads as one attribute.
pub open spec fn is_token(a: Seq<char>) -> bool {
    is_string_token(a) || is_bare_token(a)
}

/// Whether the item is one that the parser builds.
pub open spec fn is_canonical_item(item: ItemView) -> bool
    decreases item,
{
    match item {
        ItemView::Nothing => false,
        ItemView::Attribute(a) => is_token(a),
        ItemView::Node(c) => is_canonical(c),
    }
}

/// Whether the tree is one that the parser builds: its names are made of name
/// characters, a node without a name has no attribute in front that could be taken for
/// one, its attributes are tokens, and it holds no tombstone.
pub open spec fn is_canonical(n: NodeView) -> bool
    decreases n,
{
    &&& forall|i: int| 0 <= i < n.name.len() ==> is_ident_char(#[trigger] n.name[i])
    &&& n.name.len() > 0 ==> !white_space(n.name[0])
    &&& n.name.len() == 0 && n.items.len() > 0 ==> (n.items[0] matches ItemView::Attribute(a) ==> a.len() > 0
        && !is_ident_char(a[0]))
    &&& forall|i: int| 0 <= i < n.items.len() ==> is_canonical_item(#[trigger] n.items[i])
}

/// A bare token that stands in a text before a space or `)` is read whole.
pub proof fn lemma_token_embedded(s: Seq<char>, p: int, a: Seq<char>, k: int, level: nat)
    requires
        0 <= p,
        0 <= k <= a.len(),
        p + a.len() < s.len(),
        s.subrange(p, p + a.len()) == a,
        s[p + a.len()] == ' ' || s[p + a.len()] == ')',
        runs_through(a, k, level),
    ensures
        token_end(s, p + k, level) == Some(p + a.len()),
    decreases a.len() - k,
{
    if k < a.len() {
        assert(a[k] == s.subrange(p, p + a.len())[k]);
        if k + 1 < a.len() {
            assert(a[k + 1] == s.subrange(p, p + a.len())[k + 1]);
        }
        assert(starts_comment(s, p + k) == starts_comment(a, k));
        if a[k] == '(' {
            lemma_token_embedded(s, p, a, k + 1, level + 1);
        } else if a[k] == ')' {
            lemma_token_embedded(s, p, a, k + 1, (level - 1) as nat);
        } else {
            lemma_token_embedded(s, p, a, k + 1, level);
        }
    }
}

/// What the parser reads as a bare token holds nothing that ends one.
pub proof fn lemma_token_runs(s: Seq<char>, q: int, k: int, level: nat, e: int)
    requires
        0 <= q <= k,
        token_end(s, k, level) == Some(e),
    ensures
        k <= e < s.len(),
        runs_through(s.subrange(q, e), k - q, level),
    decreases s.len() - k,
{
    let stop = level == 0 && (white_space(s[k]) || s[k] == ')' || starts_comment(s, k));
    if !stop {
        let next: nat = if s[k] == '(' {
            level + 1
        } else if s[k] == ')' {
            (level - 1) as nat
        } else {
            level
        };
        lemma_token_runs(s, q, k + 1, next, e);
        let a = s.subrange(q, e);
        assert(a[k - q] == s[k]);
        if k - q + 1 < a.len() {
            assert(a[k - q + 1] == s[k + 1]);
        }
        assert(!starts_comment(a, k - q) || starts_comment(s, k));
    }
}

/// A string literal that stands in a text is read whole.
pub proof fn lemma_string_embedded(s: Seq<char>, p: int, a: Seq<char>, k: int)
    requires
        0 <= p,
        1 <= k,
        p + a.len() <= s.len(),
        s.subrange(p, p + a.len()) == a,
        string_end(a, k) == Some(a.len() as int),
    ensures
        string_end(s, p + k) == Some(p + a.len()),
    decreases a.len() - k,
{
    assert(k < a.len());
    assert(a[k] == s.subrange(p, p + a.len())[k]);
    if a[k] == '"' {
    } else if a[k] == '\\' {
        lemma_string_embedded(s, p, a, k + 2);
    } else {
        lemma_string_embedded(s, p, a, k + 1);
    }
}

/// What the parser reads as a string literal closes with its last character.
pub proof fn lemma_string_closes(s: Seq<char>, q: int, k: int, e: int)
    requires
        0 <= q < k,
        string_end(s, k) == Some(e),
    ensures
        k < e <= s.len(),
        string_end(s.subrange(q, e), k - q) == Some(e - q),
    decreases s.len() - k,
{
    let a = s.subrange(q, e);
    if s[k] == '"' {
        assert(a[k - q] == s[k]);
    } else if s[k] == '\\' {
        lemma_string_closes(s, q, k + 2, e);
        assert(a[k - q] == s[k]);
    } else {
        lemma_string_closes(s, q, k + 1, e);
        assert(a[k - q] == s[k]);
    }
}

/// A name is made of name characters, and none follows it.
pub proof fn lemma_ident_run(s: Seq<char>, p: int)
    requires
        0 <= p <= s.len(),
    ensures
        forall|i: int| p <= i < ident_end(s, p) ==> is_ident_char(#[trigger] s[i]),
        ident_end(s, p) < s.len() ==> !is_ident_char(s[ident_end(s, p)]),
        p <= ident_end(s, p) <= s.len(),
    decreases s.len() - p,
{
    if p < s.len() && is_ident_char(s[p]) {
        lemma_ident_run(s, p + 1);
    }
}

/// A name that stands in a text before something that is no name character is read whole.
pub proof fn lemma_ident_embedded(s: Seq<char>, p: int, name: Seq<char>, k: int)
    requires
        0 <= p,
        0 <= k <= name.len(),
        p + name.len() < s.len(),
        s.subrange(p, p + name.len()) == name,
        forall|i: int| 0 <= i < name.len() ==> is_ident_char(#[trigger] name[i]),
        !is_ident_char(s[p + name.len()]),
    ensures
        ident_end(s, p + k) == p + name.len(),
    decreases name.len() - k,
{
    if k < name.len() {
        assert(name[k] == s.subrange(p, p + name.len())[k]);
        lemma_ident_embedded(s, p, name, k + 1);
    }
}

/// The text of a run of items is the text of the first and the text of the others.
pub proof fn lemma_serialize_items_first(items: Seq<ItemView>)
    requires
        items.len() > 0,
    ensures
        serialize_items(items) == serialize_spaced(items[0]) + serialize_items(items.drop_first()),
    decreases items.len(),
{
    if items.len() == 1 {
        assert(items.drop_last() =~= Seq::<ItemView>::empty());
        assert(items.drop_first() =~= Seq::<ItemView>::empty());
        assert(serialize_items(items.drop_last()) =~= Seq::<char>::empty());
        assert(serialize_items(items) =~= serialize_spaced(items[0]) + serialize_items(items.drop_first()));
    } else {
        lemma_serialize_items_first(items.drop_last());
        assert(items.drop_last().drop_first() == items.drop_first().drop_last());
        assert(items.drop_last()[0] == items[0]);
        assert(items.drop_first().last() == items.last());
        assert(serialize_items(items) =~= serialize_spaced(items[0]) + serialize_items(items.drop_first()));
    }
}

/// What a text holds at a place, it holds in its parts.
pub proof fn lemma_has_at_parts(s: Seq<char>, at: int, a: Seq<char>, b: Seq<char>)
    requires
        has_at(s, at, a + b),
    ensures
        has_at(s, at, a),
        has_at(s, at + a.len(), b),
        forall|i: int| 0 <= i < a.len() ==> s[at + i] == #[trigger] a[i],
        forall|i: int| 0 <= i < b.len() ==> s[at + a.len() + i] == #[trigger] b[i],
{
    let whole = s.subrange(at, at + (a + b).len());
    assert forall|i: int| 0 <= i < a.len() implies s[at + i] == #[trigger] a[i] by {
        assert(whole[i] == (a + b)[i]);
    }
    assert forall|i: int| 0 <= i < b.len() implies s[at + a.len() + i] == #[trigger] b[i] by {
        assert(whole[a.len() + i] == (a + b)[a.len() + i]);
    }
    assert(s.subrange(at, at + a.len()) =~= a);
    assert(s.subrange(at + a.len(), at + a.len() + b.len()) =~= b);
}

/// The items whose canonical text stands in `s` at `at`, before a `)`, parse to
/// themselves.
pub proof fn lemma_reparse_items(s: Seq<char>, at: int, items: Seq<ItemView>, depth: nat)
    requires
        0 <= at,
        has_at(s, at, serialize_items(items) + seq![')']),
        forall|i: int| 0 <= i < items.len() ==> is_canonical_item(#[trigger] items[i]),
        forall|i: int| 0 <= i < items.len() ==> (#[trigger] items[i] matches ItemView::Node(c) ==> nested_at(c, depth)),
    ensures
        skip_blank(s, at) == (if items.len() == 0 {
            at
        } else {
            at + 1
        }),
        items.len() > 0 ==> s[at] == ' ' && begins_item(s, at + 1) && s[at + 1] == item_text(items[0])[0],
        items.len() == 0 ==> s[at] == ')',
        parse_items_at(s, skip_blank(s, at), depth) == Ok::<(Seq<ItemView>, int), ParseErrorView>(
            (items, at + serialize_items(items).len()),
        ),
    decreases items, 0nat,
{
    let whole = serialize_items(items) + seq![')'];
    if items.len() == 0 {
        assert(serialize_items(items) =~= Seq::<char>::empty());
        assert(whole =~= seq![')']);
        assert(s.subrange(at, at + whole.len())[0] == whole[0]);
        assert(s[at] == ')');
        assert(skip_blank(s, at) == at);
        assert(items =~= Seq::<ItemView>::empty());
        assert(parse_items_at(s, at, depth) == Ok::<(Seq<ItemView>, int), ParseErrorView>((Seq::empty(), at)));
    } else {
        let first = items[0];
        let rest = items.drop_first();
        let text = item_text(first);
        let tail = serialize_items(rest) + seq![')'];
        lemma_serialize_items_first(items);
        assert(is_canonical_item(first));
        assert(serialize_spaced(first) == seq![' '] + text);
        assert(whole =~= seq![' '] + (text + tail));
        lemma_has_at_parts(s, at, seq![' '], text + tail);
        assert(s[at + 0] == seq![' '][0]);
        lemma_has_at_parts(s, at + 1, text, tail);
        let end = at + 1 + text.len();
        assert forall|i: int| 0 <= i < rest.len() implies is_canonical_item(#[trigger] rest[i]) by {
            assert(rest[i] == items[i + 1]);
        }
        assert forall|i: int| 0 <= i < rest.len() implies (#[trigger] rest[i] matches ItemView::Node(c) ==> nested_at(
            c,
            depth,
        )) by {
            assert(rest[i] == items[i + 1]);
        }
        lemma_reparse_items(s, end, rest, depth);
        assert(s[end] == ' ' || s[end] == ')');
        match first {
            ItemView::Nothing => {},
            ItemView::Attribute(a) => {
                assert(s[at + 1 + 0] == a[0]);
                if a.len() >= 2 {
                    assert(s[at + 1 + 1] == a[1]);
                }
                if is_string_token(a) {
                    lemma_string_embedded(s, at + 1, a, 1);
                    assert(s.subrange(at + 1, end) == a);
                } else {
                    lemma_token_embedded(s, at + 1, a, 0, 0);
                    assert(starts_comment(s, at + 1) == starts_comment(a, 0));
                    assert(s.subrange(at + 1, end) == a);
                }
                assert(parse_item_at(s, at + 1, depth) == Ok::<(ItemView, int), ParseErrorView>((first, end)));
            },
            ItemView::Node(c) => {
                lemma_reparse_node(s, at + 1, c, depth);
                assert(s[at + 1 + 0] == text[0]);
                assert(text.len() >= 2);
                assert(s[at + 1 + 1] == text[1]);
                lemma_serialized_head(c);
                assert(parse_item_at(s, at + 1, depth) == Ok::<(ItemView, int), ParseErrorView>((first, end)));
            },
        }
        assert(begins_item(s, at + 1));
        assert(skip_blank(s, at + 1) == at + 1);
        assert(skip_blank(s, at) == at + 1);
        assert(seq![first] + rest =~= items);
        assert(serialize_items(items).len() == 1 + text.len() + serialize_items(rest).len());
        assert(text.len() > 0);
        assert(tail.len() >= 1);
        let next = skip_blank(s, end);
        assert(end < s.len());
        assert(next > at + 1);
        assert(next < s.len());
        assert(parse_items_at(s, next, depth) == Ok::<(Seq<ItemView>, int), ParseErrorView>(
            (rest, end + serialize_items(rest).len()),
        ));
        assert(parse_items_at(s, at + 1, depth) == Ok::<(Seq<ItemView>, int), ParseErrorView>(
            (seq![first] + rest, end + serialize_items(rest).len()),
        ));
    }
}

/// The canonical text of a node begins with `(` and goes on with a name character, a
/// space or `)`.
pub proof fn lemma_serialized_head(n: NodeView)
    requires
        is_canonical(n),
    ensures
        serialize(n).len() >= 2,
        serialize(n)[0] == '(',
        serialize(n)[1] != ';',
        serialize(n) == seq!['('] + n.name + (serialize_items(n.items) + seq![')']),
{
    let text = seq!['('] + n.name + (serialize_items(n.items) + seq![')']);
    assert(serialize(n) =~= text);
    if n.name.len() > 0 {
        assert(is_ident_char(n.name[0]));
        assert(text[1] == n.name[0]);
    } else if n.items.len() > 0 {
        lemma_serialize_items_first(n.items);
        assert(is_canonical_item(n.items[0]));
        assert(serialize_spaced(n.items[0])[0] == ' ');
        assert(text[1] == ' ');
    } else {
        assert(serialize_items(n.items) =~= Seq::<char>::empty());
        assert(text[1] == ')');
    }
}

/// A canonical tree whose canonical text stands in `s` at `pos` parses to itself.
pub proof fn lemma_reparse_node(s: Seq<char>, pos: int, n: NodeView, depth: nat)
    requires
        0 <= pos,
        is_canonical(n),
        nested_at(n, depth),
        has_at(s, pos, serialize(n)),
    ensures
        parse_node_at(s, pos, depth) == Ok::<(NodeView, int), ParseErrorView>((n, pos + serialize(n).len())),
    decreases n, 1nat,
{
    lemma_serialized_head(n);
    let tail = serialize_items(n.items) + seq![')'];
    lemma_has_at_parts(s, pos, seq!['('] + n.name, tail);
    lemma_has_at_parts(s, pos, seq!['('], n.name);
    assert(s[pos + 0] == seq!['('][0]);
    let at = pos + 1 + n.name.len();
    assert(s[pos + 1] == serialize(n)[1]) by {
        assert(s.subrange(pos, pos + serialize(n).len())[1] == serialize(n)[1]);
    }
    assert(!starts_comment(s, pos));
    assert(skip_blank(s, pos) == pos);
    assert forall|i: int| 0 <= i < n.items.len() implies (#[trigger] n.items[i] matches ItemView::Node(c) ==> nested_at(
        c,
        depth + 1,
    )) by {}
    lemma_reparse_items(s, at, n.items, depth + 1);
    let body = skip_blank(s, at);
    lemma_skip_blank(s, at);
    if n.name.len() > 0 {
        assert(s[pos + 1 + 0] == n.name[0]);
        assert(is_ident_char(n.name[0]));
        assert(skip_blank(s, pos + 1) == pos + 1);
        lemma_ident_embedded(s, pos + 1, n.name, 0);
        assert(s.subrange(pos + 1, at) == n.name);
    } else {
        assert(n.name =~= Seq::<char>::empty());
        if n.items.len() > 0 {
            assert(is_canonical_item(n.items[0]));
            assert(!is_ident_char(s[at + 1]));
            assert(skip_blank(s, body) == body);
        }
        assert(ident_end(s, body) == body);
        assert(s.subrange(body, body) =~= n.name);
    }
    assert(serialize(n).len() == 1 + n.name.len() + serialize_items(n.items).len() + 1);
}

/// What the parser builds from a form is canonical.
pub proof fn lemma_parsed_node_canonical(s: Seq<char>, pos: int, depth: nat)
    ensures
        parse_node_at(s, pos, depth) matches Ok((node, end)) ==> is_canonical(node),
    decreases s.len() - pos, 0nat,
{
    let open = skip_blank(s, pos);
    if 0 <= pos <= open < s.len() && s[open] == '(' {
        let name_start = skip_blank(s, open + 1);
        let name_end = ident_end(s, name_start);
        let body = skip_blank(s, name_end);
        lemma_skip_blank(s, open + 1);
        lemma_ident_run(s, name_start);
        lemma_skip_blank(s, name_end);
        if !(body <= open || body >= s.len()) {
            lemma_parsed_items_canonical(s, body, depth + 1);
            match parse_items_at(s, body, depth + 1) {
                Err(e) => {},
                Ok((items, close)) => {
                    let name = s.subrange(name_start, name_end);
                    assert forall|i: int| 0 <= i < name.len() implies is_ident_char(#[trigger] name[i]) by {
                        assert(name[i] == s[name_start + i]);
                    }
                    if name.len() > 0 {
                        assert(name[0] == s[name_start + 0]);
                    } else {
                        assert(skip_blank(s, name_start) == name_start);
                    }
                },
            }
        }
    }
}

/// What the parser builds from the items of a form is canonical.
pub proof fn lemma_parsed_items_canonical(s: Seq<char>, pos: int, depth: nat)
    requires
        0 <= pos < s.len() ==> !white_space(s[pos]) && !starts_comment(s, pos),
    ensures
        parse_items_at(s, pos, depth) matches Ok((items, close)) ==> {
            &&& forall|i: int| 0 <= i < items.len() ==> is_canonical_item(#[trigger] items[i])
            &&& items.len() > 0 ==> (items[0] matches ItemView::Attribute(a) ==> a.len() > 0 && a[0] == s[pos])
        },
    decreases s.len() - pos, 2nat,
{
    if !(pos < 0 || pos >= s.len()) && s[pos] != ')' {
        match parse_item_at(s, pos, depth) {
            Err(e) => {},
            Ok((item, end)) => {
                let next = skip_blank(s, end);
                if s[pos] == '(' {
                    lemma_parsed_node_canonical(s, pos, depth);
                } else if s[pos] == '"' {
                    lemma_string_closes(s, pos, pos + 1, end);
                    let a = s.subrange(pos, end);
                    assert(a[0] == s[pos]);
                    assert(is_string_token(a));
                } else {
                    lemma_token_runs(s, pos, pos, 0, end);
                    let a = s.subrange(pos, end);
                    lemma_token_runs(s, pos, pos + 1, if s[pos] == '(' { 1nat } else { 0nat }, end);
                    assert(end > pos);
                    assert(a[0] == s[pos]);
                    assert(is_bare_token(a));
                }
                assert(is_canonical_item(item));
                if !(next <= pos || next >= s.len()) {
                    lemma_skip_blank(s, end);
                    lemma_parsed_items_canonical(s, next, depth);
                    match parse_items_at(s, next, depth) {
                        Err(e) => {},
                        Ok((rest, close)) => {
                            let items = seq![item] + rest;
                            assert forall|i: int| 0 <= i < items.len() implies is_canonical_item(#[trigger] items[i]) by {
                                if i > 0 {
                                    assert(items[i] == rest[i - 1]);
                                }
                            }
                            assert(items[0] == item);
                        },
                    }
                }
            },
        }
    }
}

/// Reparsing the canonical text of a parsed document gives the same tree: what
/// `serialize` writes of a tree that `parse_text` built, `parse_text` reads as that tree.
pub proof fn parse_of_serialized_is_identity(input: Seq<char>)
    requires
        parse_text(input) is Ok,
    ensures
        parse_text(serialize(parse_text(input)->Ok_0)) == parse_text(input),
{
    let n = parse_text(input)->Ok_0;
    lemma_parsed_node_canonical(input, 0, 0);
    lemma_parse_node_nested(input, 0, 0);
    let text = serialize(n);
    assert(text.subrange(0, text.len() as int) =~= text);
    lemma_reparse_node(text, 0, n, 0);
}

/// Writing, reparsing and writing again gives the text that was written first: the
/// canonical text of a parsed document is a fixed point of parsing and writing.
pub proof fn canonical_text_is_a_fixed_point(input: Seq<char>)
    requires
        parse_text(input) is Ok,
    ensures
        parse_text(serialize(parse_text(input)->Ok_0)) is Ok,
        serialize(parse_text(serialize(parse_text(input)->Ok_0))->Ok_0) == serialize(parse_text(input)->Ok_0),
{
    parse_of_serialized_is_identity(input);
}

} // verus!
