//! Printing settles the block comments that stand on one line: each is printed between
//! two spaces, without the white space at its ends. A text without line comments, whose
//! block comments stand on one line each, is therefore printed once and for all:
//! printing the result again changes nothing.
use crate::parser::{starts_pair, string_end, ParseErrorView};
use crate::pretty::{
    back_space, block_comment_text, body_gap, body_text, comment_lines, continues, first_line_end, flat, flat_from,
    header_end, header_text, is_blank, is_comment, is_first_line, is_func, is_headed, is_simple,
    is_single_line_kind, layout, layout_from, lemma_skip_space, lines, lines_from, pretty, rendered,
    rendered_parens, skip_space, spaced, tokenize, trimmed, with_commas, without_blank_back, without_blank_front,
    TokenView,
};
use crate::reprint::{is_plain, is_settled, lemma_one_line, printed_tokens_read_as_themselves};
use crate::roundtrip::is_bare_token;
use crate::text::white_space;
use vstd::prelude::*;

verus! {

/// A block comment as printing leaves it: between two spaces what is left of it without
/// the white space at its ends.
pub open spec fn settled_comment(comment: Seq<char>) -> Seq<char> {
    " "@ + trimmed(comment) + " "@
}

/// The token with each block comment in it as printing leaves it.
pub open spec fn settled(t: TokenView) -> TokenView
    decreases t,
{
    match t {
        TokenView::BlockComment(comment) => TokenView::BlockComment(settled_comment(comment)),
        TokenView::Parens(items) => TokenView::Parens(settled_all(items)),
        other => other,
    }
}

/// The tokens with each block comment in them as printing leaves it.
pub open spec fn settled_all(items: Seq<TokenView>) -> Seq<TokenView>
    decreases items,
{
    if items.len() == 0 {
        Seq::empty()
    } else {
        settled_all(items.drop_last()).push(settled(items.last()))
    }
}

/// Whether the text holds no line feed.
pub open spec fn is_one_line(s: Seq<char>) -> bool {
    forall|i: int| 0 <= i < s.len() ==> #[trigger] s[i] != '\n'
}

/// Whether the token is neat: it holds no line comment, each block comment in it stands
/// on one line, its bare tokens are not empty and close the parentheses that they open,
/// its string literals close, and no form in it begins with a token that begins with `;`.
pub open spec fn is_neat(t: TokenView) -> bool
    decreases t,
{
    match t {
        TokenView::Ident(a) => is_bare_token(a),
        TokenView::StringLiteral(b) => string_end(seq!['"'] + b + seq!['"'], 1) == Some((b.len() + 2) as int),
        TokenView::Parens(items) => {
            &&& forall|i: int| 0 <= i < items.len() ==> is_neat(#[trigger] items[i])
            &&& items.len() > 0 ==> (items[0] matches TokenView::Ident(a) ==> a[0] != ';')
        },
        TokenView::BlockComment(comment) => {
            &&& is_one_line(comment)
            &&& forall|i: int| 0 <= i < comment.len() - 1 ==> !#[trigger] starts_pair(comment, i, ';', ')')
        },
        TokenView::LineComment(_) => false,
    }
}

/// The settled tokens are as many, each the settled one of its place.
pub proof fn lemma_settled_all(items: Seq<TokenView>)
    ensures
        settled_all(items).len() == items.len(),
        forall|i: int| 0 <= i < items.len() ==> #[trigger] settled_all(items)[i] == settled(items[i]),
    decreases items.len(),
{
    if items.len() > 0 {
        lemma_settled_all(items.drop_last());
        assert forall|i: int| 0 <= i < items.len() implies #[trigger] settled_all(items)[i] == settled(items[i]) by {
            if i < items.len() - 1 {
                assert(items.drop_last()[i] == items[i]);
            }
        }
    }
}

/// White space is passed over backwards down to a character that is none.
pub proof fn lemma_back_space(s: Seq<char>, end: int, stop: int)
    requires
        0 <= stop < end <= s.len(),
        !white_space(s[stop]),
    ensures
        stop < back_space(s, end) <= end,
        !white_space(s[back_space(s, end) - 1]),
    decreases end,
{
    if white_space(s[end - 1]) {
        lemma_back_space(s, end - 1, stop);
    }
}

/// What is left of a text without the white space at its ends is empty, or begins and
/// ends with something else.
pub proof fn lemma_trimmed(s: Seq<char>)
    ensures
        is_blank(s) ==> trimmed(s).len() == 0,
        !is_blank(s) ==> trimmed(s).len() > 0 && !white_space(trimmed(s)[0]) && !white_space(trimmed(s).last()),
        forall|i: int| 0 <= i < trimmed(s).len() ==> #[trigger] trimmed(s)[i] == s[skip_space(s, 0) + i],
        skip_space(s, 0) + trimmed(s).len() <= s.len(),
        0 <= skip_space(s, 0),
{
    lemma_skip_space(s, 0);
    if !is_blank(s) {
        lemma_back_space(s, s.len() as int, skip_space(s, 0));
    }
}

/// A settled block comment stays as it is when it is settled again.
pub proof fn lemma_settled_comment(comment: Seq<char>)
    ensures
        trimmed(settled_comment(comment)) == trimmed(comment),
{
    reveal_strlit(" ");
    lemma_trimmed(comment);
    let x = trimmed(comment);
    let c = settled_comment(comment);
    assert(c.len() == x.len() + 2);
    assert(c[0] == ' ');
    assert(c[c.len() - 1] == ' ');
    assert(white_space(' '));
    if x.len() == 0 {
        assert(skip_space(c, 2) == 2);
        assert(skip_space(c, 1) == 2);
        assert(skip_space(c, 0) == 2);
        assert(is_blank(c));
        assert(trimmed(c) =~= x);
    } else {
        assert(c[1] == x[0]);
        assert(skip_space(c, 1) == 1);
        assert(skip_space(c, 0) == 1);
        assert(c[c.len() - 2] == x.last());
        assert(back_space(c, c.len() - 1) == c.len() - 1);
        assert(back_space(c, c.len() as int) == c.len() - 1);
        assert(c.subrange(1, c.len() - 1) =~= x);
    }
}

/// A block comment on one line is printed between `(; ` and ` ;)` without the white
/// space at its ends, at any indentation and on one line.
pub proof fn lemma_one_line_text(comment: Seq<char>, indent: Seq<char>)
    requires
        is_one_line(comment),
    ensures
        block_comment_text(comment, indent) == "(; "@ + trimmed(comment) + " ;)"@,
        flat(TokenView::BlockComment(comment)) == "(; "@ + trimmed(comment) + " ;)"@,
{
    reveal_strlit(";)");
    reveal_strlit("(; ");
    reveal_strlit(" ;)");
    reveal_strlit(" ");
    lemma_one_line(comment, 0);
    let whole = lines_from(comment, 0);
    assert(comment.subrange(0, comment.len() as int) =~= comment);
    assert(whole =~= seq![comment]);
    assert(with_commas(comment) =~= comment);
    if is_blank(comment) {
        assert(whole.drop_first() =~= Seq::<Seq<char>>::empty());
        assert(without_blank_front(whole) =~= Seq::<Seq<char>>::empty()) by {
            assert(without_blank_front(whole) == without_blank_front(whole.drop_first()));
        }
        assert(comment_lines(comment).len() == 0);
        assert(trimmed(comment) =~= Seq::<char>::empty());
        assert("(; "@ + " "@ + ";)"@ =~= "(; "@ + trimmed(comment) + " ;)"@);
    } else {
        assert(without_blank_front(whole) == whole);
        assert(whole.last() == comment);
        assert(without_blank_back(whole) == whole);
        assert(comment_lines(comment) == whole);
        assert("(; "@ + trimmed(whole[0]) + " "@ + ";)"@ =~= "(; "@ + trimmed(comment) + " ;)"@);
    }
}

/// A settled block comment of one line is one of those that are read back as they are
/// printed.
pub proof fn lemma_settled_is_settled(comment: Seq<char>)
    requires
        is_neat(TokenView::BlockComment(comment)),
    ensures
        is_settled(settled_comment(comment)),
        is_one_line(settled_comment(comment)),
{
    reveal_strlit(" ");
    lemma_trimmed(comment);
    lemma_settled_comment(comment);
    let x = trimmed(comment);
    let c = settled_comment(comment);
    let a = skip_space(comment, 0);
    assert(c.len() == x.len() + 2);
    assert forall|i: int| 0 <= i < c.len() implies #[trigger] c[i] != '\n' by {
        if 0 < i < c.len() - 1 {
            assert(c[i] == x[i - 1]);
            assert(x[i - 1] == comment[a + i - 1]);
        }
    }
    assert forall|i: int| 0 <= i < c.len() - 1 implies !#[trigger] starts_pair(c, i, ';', ')') by {
        if 0 < i < c.len() - 2 {
            assert(c[i] == x[i - 1]);
            assert(c[i + 1] == x[i]);
            assert(x[i - 1] == comment[a + i - 1]);
            assert(x[i] == comment[a + i]);
            assert(!starts_pair(comment, a + i - 1, ';', ')'));
        }
    }
}

/// A neat token, settled, is plain.
pub proof fn lemma_settled_plain(t: TokenView)
    requires
        is_neat(t),
    ensures
        is_plain(settled(t)),
    decreases t,
{
    match t {
        TokenView::Parens(items) => {
            lemma_settled_all(items);
            assert forall|i: int| 0 <= i < items.len() implies is_plain(#[trigger] settled_all(items)[i]) by {
                lemma_settled_plain(items[i]);
            }
        },
        TokenView::BlockComment(comment) => {
            lemma_settled_is_settled(comment);
        },
        _ => {},
    }
}

/// Whether each block comment in the token stands on one line.
pub open spec fn is_lined(t: TokenView) -> bool
    decreases t,
{
    match t {
        TokenView::Parens(items) => forall|i: int| 0 <= i < items.len() ==> is_lined(#[trigger] items[i]),
        TokenView::BlockComment(comment) => is_one_line(comment),
        _ => true,
    }
}

/// Whether each block comment in the tokens stands on one line.
pub open spec fn all_lined(items: Seq<TokenView>) -> bool {
    forall|i: int| 0 <= i < items.len() ==> is_lined(#[trigger] items[i])
}

/// A neat token holds its block comments on one line each.
pub proof fn lemma_neat_lined(t: TokenView)
    requires
        is_neat(t),
    ensures
        is_lined(t),
    decreases t,
{
    match t {
        TokenView::Parens(items) => {
            assert forall|i: int| 0 <= i < items.len() implies is_lined(#[trigger] items[i]) by {
                lemma_neat_lined(items[i]);
            }
        },
        _ => {},
    }
}

/// Settling keeps the head of a run of tokens.
pub proof fn lemma_same_head(items: Seq<TokenView>)
    ensures
        forall|name: Seq<char>| #[trigger] is_headed(settled_all(items), name) == is_headed(items, name),
        is_simple(settled_all(items)) == is_simple(items),
        is_single_line_kind(settled_all(items)) == is_single_line_kind(items),
{
    lemma_settled_all(items);
}

/// Settling keeps what the layout asks of a token.
pub proof fn lemma_same_kind(t: TokenView)
    ensures
        is_first_line(settled(t)) == is_first_line(t),
        is_func(settled(t)) == is_func(t),
        is_comment(settled(t)) == is_comment(t),
        settled(t) is StringLiteral == t is StringLiteral,
        forall|a: Seq<char>| (settled(t) == TokenView::Ident(a)) == (t == TokenView::Ident(a)),
        settled(t) matches TokenView::Ident(a) ==> t == TokenView::Ident(a),
{
    match t {
        TokenView::Parens(items) => {
            lemma_same_head(items);
        },
        _ => {},
    }
}

/// Settling keeps where the header of a form goes on.
pub proof fn lemma_same_continues(items: Seq<TokenView>, i: int)
    requires
        0 <= i < items.len(),
    ensures
        continues(settled_all(items), i) == continues(items, i),
{
    lemma_settled_all(items);
    lemma_same_kind(items[i]);
    if i + 1 < items.len() {
        lemma_same_kind(items[i + 1]);
    }
}

/// Settling keeps where the first line of a function ends.
pub proof fn lemma_same_first_line_end(items: Seq<TokenView>, from: int)
    ensures
        first_line_end(settled_all(items), from) == first_line_end(items, from),
    decreases items.len() - from,
{
    lemma_settled_all(items);
    if 0 <= from < items.len() {
        lemma_same_kind(items[from]);
        lemma_same_first_line_end(items, from + 1);
    }
}

/// Settling keeps where the header of a form ends.
pub proof fn lemma_same_header_end(items: Seq<TokenView>, from: int)
    ensures
        header_end(settled_all(items), from) == header_end(items, from),
    decreases items.len() - from,
{
    lemma_settled_all(items);
    if 0 <= from < items.len() {
        lemma_same_continues(items, from);
        lemma_same_header_end(items, from + 1);
    }
}

/// Settling keeps the line feeds before a token behind a header.
pub proof fn lemma_same_gap(items: Seq<TokenView>, at: int, header: int)
    requires
        0 <= header <= at < items.len(),
    ensures
        body_gap(settled_all(items), at, header) == body_gap(items, at, header),
{
    lemma_settled_all(items);
    lemma_same_kind(items[at]);
    lemma_same_kind(items[at - header]);
    if at > 0 {
        lemma_same_kind(items[at - 1]);
    }
}

/// A token whose block comments stand on one line each is printed on one line as the
/// settled token is.
pub proof fn lemma_same_flat(t: TokenView)
    requires
        is_lined(t),
    ensures
        flat(settled(t)) == flat(t),
    decreases t, 0nat,
{
    match t {
        TokenView::Parens(items) => {
            lemma_same_flat_from(items, 0);
        },
        TokenView::BlockComment(comment) => {
            lemma_one_line_text(comment, Seq::empty());
            lemma_settled_comment(comment);
            lemma_trimmed(comment);
            let c = settled_comment(comment);
            reveal_strlit(" ");
            assert(is_one_line(c)) by {
                assert forall|i: int| 0 <= i < c.len() implies #[trigger] c[i] != '\n' by {
                    if 0 < i < c.len() - 1 {
                        assert(c[i] == trimmed(comment)[i - 1]);
                    }
                }
            }
            lemma_one_line_text(c, Seq::empty());
        },
        _ => {},
    }
}

/// Tokens whose block comments stand on one line each are printed on one line as the
/// settled tokens are.
pub proof fn lemma_same_flat_from(items: Seq<TokenView>, from: int)
    requires
        all_lined(items),
    ensures
        flat_from(settled_all(items), from) == flat_from(items, from),
    decreases items, items.len() - from,
{
    lemma_settled_all(items);
    if 0 <= from < items.len() {
        lemma_same_flat(items[from]);
        lemma_same_flat_from(items, from + 1);
    }
}

/// Tokens whose block comments stand on one line each are printed behind spaces as the
/// settled tokens are.
pub proof fn lemma_same_spaced(items: Seq<TokenView>, from: int, to: int)
    requires
        all_lined(items),
    ensures
        spaced(settled_all(items), from, to) == spaced(items, from, to),
    decreases items, to - from,
{
    lemma_settled_all(items);
    if !(from < 0 || from >= to || to > items.len()) {
        lemma_same_flat(items[from]);
        lemma_same_spaced(items, from + 1, to);
    }
}

/// A token whose block comments stand on one line each is printed as the settled token is.
pub proof fn lemma_same_rendered(t: TokenView, indent: Seq<char>)
    requires
        is_lined(t),
    ensures
        rendered(settled(t), indent) == rendered(t, indent),
    decreases t, 0nat,
{
    match t {
        TokenView::Parens(items) => {
            lemma_same_parens(items, indent);
        },
        TokenView::BlockComment(comment) => {
            lemma_one_line_text(comment, indent);
            lemma_settled_comment(comment);
            lemma_trimmed(comment);
            let c = settled_comment(comment);
            reveal_strlit(" ");
            assert(is_one_line(c)) by {
                assert forall|i: int| 0 <= i < c.len() implies #[trigger] c[i] != '\n' by {
                    if 0 < i < c.len() - 1 {
                        assert(c[i] == trimmed(comment)[i - 1]);
                    }
                }
            }
            lemma_one_line_text(c, indent);
        },
        _ => {},
    }
}

/// A form whose block comments stand on one line each is printed as the settled form is.
pub proof fn lemma_same_parens(items: Seq<TokenView>, indent: Seq<char>)
    requires
        all_lined(items),
    ensures
        rendered_parens(settled_all(items), indent) == rendered_parens(items, indent),
    decreases items, items.len() + 2,
{
    lemma_settled_all(items);
    lemma_same_head(items);
    let inner = indent.push('\t');
    if is_single_line_kind(items) || is_simple(items) {
        lemma_same_flat_from(items, 0);
    } else if is_headed(items, "func"@) {
        let k = first_line_end(items, 1);
        lemma_same_first_line_end(items, 1);
        if 1 <= k <= items.len() {
            lemma_same_spaced(items, 1, k);
            lemma_same_lines(items, k, k, inner, 1);
        }
    } else if is_headed(items, "component"@) {
        if 1 <= items.len() {
            lemma_same_lines(items, 1, 1, inner, 2);
        }
    } else {
        let header = header_end(items, 0);
        lemma_same_header_end(items, 0);
        if 0 <= header <= items.len() {
            lemma_same_header(items, 0, inner);
            lemma_same_body(items, header, header, inner);
        }
    }
}

/// Tokens whose block comments stand on one line each are printed on lines of their own
/// as the settled tokens are.
pub proof fn lemma_same_lines(items: Seq<TokenView>, first: int, from: int, indent: Seq<char>, gap: nat)
    requires
        all_lined(items),
    ensures
        lines(settled_all(items), first, from, indent, gap) == lines(items, first, from, indent, gap),
    decreases items, items.len() - from,
{
    lemma_settled_all(items);
    if 0 <= from < items.len() {
        lemma_same_rendered(items[from], indent);
        lemma_same_lines(items, first, from + 1, indent, gap);
    }
}

/// The header of a form whose block comments stand on one line each is printed as that
/// of the settled form is.
pub proof fn lemma_same_header(items: Seq<TokenView>, from: int, indent: Seq<char>)
    requires
        all_lined(items),
    ensures
        header_text(settled_all(items), from, indent) == header_text(items, from, indent),
    decreases items, items.len() - from,
{
    lemma_settled_all(items);
    if 0 <= from < items.len() {
        lemma_same_continues(items, from);
        lemma_same_rendered(items[from], indent);
        lemma_same_header(items, from + 1, indent);
    }
}

/// What stands behind the header of a form whose block comments stand on one line each
/// is printed as that of the settled form is.
pub proof fn lemma_same_body(items: Seq<TokenView>, from: int, header: int, indent: Seq<char>)
    requires
        all_lined(items),
    ensures
        body_text(settled_all(items), from, header, indent) == body_text(items, from, header, indent),
    decreases items, items.len() - from,
{
    lemma_settled_all(items);
    if !(from < 0 || from >= items.len() || header < 0 || header > from) {
        lemma_same_gap(items, from, header);
        lemma_same_rendered(items[from], indent);
        lemma_same_body(items, from + 1, header, indent);
    }
}

/// Tokens whose block comments stand on one line each are laid out as the settled tokens are.
pub proof fn lemma_same_layout(tokens: Seq<TokenView>, from: int)
    requires
        all_lined(tokens),
    ensures
        layout_from(settled_all(tokens), from) == layout_from(tokens, from),
    decreases tokens.len() - from,
{
    lemma_settled_all(tokens);
    if 0 <= from < tokens.len() {
        lemma_same_rendered(tokens[from], Seq::empty());
        lemma_same_layout(tokens, from + 1);
    }
}

/// The printed text of neat tokens is read as those tokens, settled.
pub proof fn printed_tokens_read_as_settled(tokens: Seq<TokenView>)
    requires
        forall|i: int| 0 <= i < tokens.len() ==> is_neat(#[trigger] tokens[i]),
    ensures
        tokenize(layout(tokens)) == Ok::<Seq<TokenView>, ParseErrorView>(settled_all(tokens)),
        layout(settled_all(tokens)) == layout(tokens),
{
    lemma_settled_all(tokens);
    assert forall|i: int| 0 <= i < tokens.len() implies is_lined(#[trigger] tokens[i]) by {
        lemma_neat_lined(tokens[i]);
    }
    assert forall|i: int| 0 <= i < tokens.len() implies is_plain(#[trigger] settled_all(tokens)[i]) by {
        lemma_settled_plain(tokens[i]);
    }
    lemma_same_layout(tokens, 0);
    printed_tokens_read_as_themselves(settled_all(tokens));
}

/// Printing a text whose tokens are neat, and printing the result again, gives what
/// printing once gives.
pub proof fn printing_neat_text_again_changes_nothing(code: Seq<char>)
    requires
        tokenize(code) is Ok,
        forall|i: int| 0 <= i < tokenize(code)->Ok_0.len() ==> is_neat(#[trigger] tokenize(code)->Ok_0[i]),
    ensures
        pretty(code) is Ok,
        pretty(pretty(code)->Ok_0) == pretty(code),
{
    printed_tokens_read_as_settled(tokenize(code)->Ok_0);
}

} // verus!
