//! Printing changes white space only: the printed text of tokens without line comments,
//! whose block comments stand as they are printed on one line, reads as those tokens, so
//! that printing it once more changes nothing.
use crate::parser::{starts_comment, starts_pair, string_end, ParseErrorView};
use crate::pretty::{
    block_comment_text, body_gap, body_text, comment_close, comment_lines, continues, first_line_end, flat,
    flat_from, header_end, header_text, is_blank, is_headed, is_simple, is_single_line_kind, layout, layout_from,
    lemma_skip_space, line_feeds, lines, lines_from, literal_end, pretty, rendered, rendered_component,
    rendered_func, rendered_generic, skip_space, spaced, token_at, tokenize, tokens_at, trimmed, with_commas,
    without_blank_back, without_blank_front, without_newlines, TokenView,
};
use crate::roundtrip::{is_bare_token, lemma_has_at_parts, lemma_string_embedded, runs_through};
use crate::text::{has_at, index_of, white_space};
use vstd::prelude::*;

verus! {

/// Whether the text holds white space only.
pub open spec fn all_white(w: Seq<char>) -> bool {
    forall|i: int| 0 <= i < w.len() ==> white_space(#[trigger] w[i])
}

/// Whether the text is white space that parts two tokens.
pub open spec fn is_gap(w: Seq<char>) -> bool {
    w.len() > 0 && all_white(w)
}

/// Whether a token can end before the place `e` of a text: the text ends there, or
/// white space or `)` stands there.
pub open spec fn follows_ok(s: Seq<char>, e: int) -> bool {
    e >= s.len() || white_space(s[e]) || s[e] == ')'
}

/// Whether the text, wherever it stands before white space, `)` or the end of a text,
/// is read as the token `t` and nothing else. Such a text begins with a character that
/// begins a token and does not end with a line feed.
pub open spec fn reads(text: Seq<char>, t: TokenView) -> bool {
    &&& text.len() > 0
    &&& !white_space(text[0])
    &&& text[0] != ')'
    &&& text.last() != '\n'
    &&& forall|s: Seq<char>, pos: int|
        0 <= pos && has_at(s, pos, text) && follows_ok(s, pos + text.len()) ==> #[trigger] token_at(s, pos) == Ok::<
            (TokenView, int),
            ParseErrorView,
        >((t, pos + text.len()))
}

/// Whether the block comment stands as it is printed on one line: between two spaces
/// what is left of it without the white space at its ends, without a line feed and
/// without the two characters that close a block comment.
pub open spec fn is_settled(comment: Seq<char>) -> bool {
    &&& comment == " "@ + trimmed(comment) + " "@
    &&& forall|i: int| 0 <= i < comment.len() ==> #[trigger] comment[i] != '\n'
    &&& forall|i: int| 0 <= i < comment.len() - 1 ==> !#[trigger] starts_pair(comment, i, ';', ')')
}

/// Whether the token is plain: it holds no line comment, its block comments stand as
/// they are printed on one line, its bare tokens are not empty and close the parentheses
/// that they open, its string literals close, and no form in it begins with a token that
/// begins with `;`.
pub open spec fn is_plain(t: TokenView) -> bool
    decreases t,
{
    match t {
        TokenView::Ident(a) => is_bare_token(a),
        TokenView::StringLiteral(b) => string_end(seq!['"'] + b + seq!['"'], 1) == Some((b.len() + 2) as int),
        TokenView::Parens(items) => {
            &&& forall|i: int| 0 <= i < items.len() ==> is_plain(#[trigger] items[i])
            &&& items.len() > 0 ==> (items[0] matches TokenView::Ident(a) ==> a[0] != ';')
        },
        TokenView::BlockComment(comment) => is_settled(comment),
        TokenView::LineComment(_) => false,
    }
}

/// The two characters that open a block comment.
pub open spec fn opener() -> Seq<char> {
    seq!['(', ';']
}

/// The two characters that close a block comment.
pub open spec fn closer() -> Seq<char> {
    seq![';', ')']
}

/// A text without a line feed is one line.
pub proof fn lemma_one_line(s: Seq<char>, from: int)
    requires
        0 <= from,
        forall|i: int| 0 <= i < s.len() ==> #[trigger] s[i] != '\n',
    ensures
        index_of(s, '\n', from) >= s.len(),
    decreases s.len() - from,
{
    if from < s.len() {
        lemma_one_line(s, from + 1);
    }
}

/// A settled block comment is printed as it stands, between its opener and its closer,
/// at any indentation and on one line.
pub proof fn lemma_settled_text(comment: Seq<char>, indent: Seq<char>)
    requires
        is_settled(comment),
    ensures
        block_comment_text(comment, indent) == opener() + comment + closer(),
        flat(TokenView::BlockComment(comment)) == opener() + comment + closer(),
{
    reveal_strlit("(;\n");
    reveal_strlit(";)");
    reveal_strlit("(; ");
    reveal_strlit(" ;)");
    reveal_strlit(" ");
    lemma_one_line(comment, 0);
    let whole = lines_from(comment, 0);
    assert(comment.subrange(0, comment.len() as int) =~= comment);
    assert(whole =~= seq![comment]);
    assert(with_commas(comment) =~= comment);
    let text = opener() + comment + closer();
    assert("(; "@ + trimmed(comment) + " ;)"@ =~= opener() + (" "@ + trimmed(comment) + " "@) + closer());
    if is_blank(comment) {
        assert(whole.drop_first() =~= Seq::<Seq<char>>::empty());
        assert(without_blank_front(whole) =~= Seq::<Seq<char>>::empty()) by {
            assert(without_blank_front(whole) == without_blank_front(whole.drop_first()));
        }
        assert(comment_lines(comment).len() == 0);
        assert(trimmed(comment) =~= Seq::<char>::empty());
        assert("(; "@ + " "@ + ";)"@ =~= opener() + (" "@ + trimmed(comment) + " "@) + closer());
    } else {
        assert(without_blank_front(whole) == whole);
        assert(whole.last() == comment);
        assert(without_blank_back(whole) == whole);
        assert(comment_lines(comment) == whole);
        assert("(; "@ + trimmed(whole[0]) + " "@ + ";)"@ =~= opener() + (" "@ + trimmed(comment) + " "@) + closer());
    }
}

/// The first closer behind a settled block comment that stands in a text before a
/// closer is the one behind it.
pub proof fn lemma_settled_close(s: Seq<char>, start: int, comment: Seq<char>, k: int)
    requires
        0 <= start,
        0 <= k <= comment.len(),
        is_settled(comment),
        has_at(s, start, comment + closer()),
    ensures
        comment_close(s, start + k) == Some(start + comment.len()),
    decreases comment.len() - k,
{
    reveal_strlit(" ");
    let text = comment + closer();
    assert(text.len() == comment.len() + 2);
    assert forall|i: int| 0 <= i < text.len() implies s[start + i] == #[trigger] text[i] by {
        assert(s.subrange(start, start + text.len())[i] == text[i]);
    }
    if k < comment.len() {
        assert(s[start + k] == text[k]);
        assert(s[start + k + 1] == text[k + 1]);
        assert(text[k] == comment[k]);
        if k + 1 < comment.len() {
            assert(text[k + 1] == comment[k + 1]);
            assert(!starts_pair(comment, k, ';', ')'));
        } else {
            assert(comment.last() == (" "@ + trimmed(comment) + " "@).last());
            assert(comment[k] == ' ');
        }
        assert(!starts_pair(s, start + k, ';', ')'));
        lemma_settled_close(s, start, comment, k + 1);
    } else {
        assert(text[k] == ';');
        assert(text[k + 1] == ')');
        assert(starts_pair(s, start + k, ';', ')'));
    }
}

/// A settled block comment, between its opener and its closer, is read as itself.
pub proof fn lemma_comment_reads(comment: Seq<char>)
    requires
        is_settled(comment),
    ensures
        reads(opener() + comment + closer(), TokenView::BlockComment(comment)),
        (opener() + comment + closer())[0] == '(',
{
    let text = opener() + comment + closer();
    assert(text.len() == comment.len() + 4);
    assert(text[0] == '(');
    assert(text[1] == ';');
    assert(text.last() == ')');
    assert forall|s: Seq<char>, pos: int|
        0 <= pos && has_at(s, pos, text) && follows_ok(s, pos + text.len()) implies #[trigger] token_at(s, pos) == Ok::<
        (TokenView, int),
        ParseErrorView,
    >((TokenView::BlockComment(comment), pos + text.len())) by {
        assert forall|i: int| 0 <= i < text.len() implies s[pos + i] == #[trigger] text[i] by {
            assert(s.subrange(pos, pos + text.len())[i] == text[i]);
        }
        assert(s[pos] == text[0]);
        assert(s[pos + 1] == text[1]);
        assert(starts_pair(s, pos, '(', ';'));
        let rest = comment + closer();
        assert(s.subrange(pos + 2, pos + 2 + rest.len()) =~= rest) by {
            assert forall|i: int| 0 <= i < rest.len() implies s[pos + 2 + i] == rest[i] by {
                assert(text[i + 2] == rest[i]);
            }
        }
        lemma_settled_close(s, pos + 2, comment, 0);
        assert(s.subrange(pos + 2, pos + 2 + comment.len()) =~= comment) by {
            assert forall|i: int| 0 <= i < comment.len() implies s[pos + 2 + i] == comment[i] by {
                assert(text[i + 2] == comment[i]);
            }
        }
    }
}

/// White space that stands before something else is skipped whole.
pub proof fn lemma_skip_white(s: Seq<char>, pos: int, w: Seq<char>)
    requires
        0 <= pos,
        has_at(s, pos, w),
        all_white(w),
        pos + w.len() >= s.len() || !white_space(s[pos + w.len()]),
    ensures
        skip_space(s, pos) == pos + w.len(),
    decreases w.len(),
{
    if w.len() > 0 {
        assert(s.subrange(pos, pos + w.len())[0] == w[0]);
        assert(white_space(w[0]));
        let rest = w.drop_first();
        assert(s.subrange(pos + 1, pos + 1 + rest.len()) =~= rest);
        assert forall|i: int| 0 <= i < rest.len() implies white_space(#[trigger] rest[i]) by {
            assert(rest[i] == w[i + 1]);
        }
        lemma_skip_white(s, pos + 1, rest);
    }
}

/// A bare token that stands in a text before white space, `)` or the end is read whole.
pub proof fn lemma_literal_embedded(s: Seq<char>, p: int, a: Seq<char>, k: int, level: nat)
    requires
        0 <= p,
        0 <= k <= a.len(),
        has_at(s, p, a),
        follows_ok(s, p + a.len()),
        runs_through(a, k, level),
    ensures
        literal_end(s, p + k, level) == p + a.len(),
    decreases a.len() - k,
{
    if k < a.len() {
        assert(a[k] == s.subrange(p, p + a.len())[k]);
        if k + 1 < a.len() {
            assert(a[k + 1] == s.subrange(p, p + a.len())[k + 1]);
        }
        assert(starts_comment(s, p + k) == starts_comment(a, k));
        if a[k] == '(' {
            lemma_literal_embedded(s, p, a, k + 1, level + 1);
        } else if a[k] == ')' {
            lemma_literal_embedded(s, p, a, k + 1, (level - 1) as nat);
        } else {
            lemma_literal_embedded(s, p, a, k + 1, level);
        }
    }
}

/// A bare token does not end with white space.
pub proof fn lemma_bare_last(a: Seq<char>, k: int, level: nat)
    requires
        0 <= k < a.len(),
        runs_through(a, k, level),
    ensures
        !white_space(a.last()),
    decreases a.len() - k,
{
    if k + 1 < a.len() {
        if a[k] == '(' {
            lemma_bare_last(a, k + 1, level + 1);
        } else if a[k] == ')' {
            lemma_bare_last(a, k + 1, (level - 1) as nat);
        } else {
            lemma_bare_last(a, k + 1, level);
        }
    } else {
        assert(a.last() == a[k]);
        if a[k] == '(' {
            assert(runs_through(a, k + 1, level + 1));
        } else if a[k] == ')' {
        } else {
            assert(runs_through(a, k + 1, level));
            assert(level == 0);
        }
    }
}

/// A bare token is read as itself.
pub proof fn lemma_bare_reads(a: Seq<char>)
    requires
        is_bare_token(a),
    ensures
        reads(a, TokenView::Ident(a)),
{
    lemma_bare_last(a, 0, 0);
    assert forall|s: Seq<char>, pos: int|
        0 <= pos && has_at(s, pos, a) && follows_ok(s, pos + a.len()) implies #[trigger] token_at(s, pos) == Ok::<
        (TokenView, int),
        ParseErrorView,
    >((TokenView::Ident(a), pos + a.len())) by {
        assert(a[0] == s.subrange(pos, pos + a.len())[0]);
        if a.len() >= 2 {
            assert(a[1] == s.subrange(pos, pos + a.len())[1]);
        }
        assert(!starts_comment(s, pos));
        lemma_literal_embedded(s, pos, a, 0, 0);
    }
}

/// A string literal is read as itself.
pub proof fn lemma_string_reads(b: Seq<char>)
    requires
        is_plain(TokenView::StringLiteral(b)),
    ensures
        reads(seq!['"'] + b + seq!['"'], TokenView::StringLiteral(b)),
{
    let text = seq!['"'] + b + seq!['"'];
    assert(text.len() == b.len() + 2);
    assert(text[0] == '"');
    assert(text.last() == '"');
    assert forall|s: Seq<char>, pos: int|
        0 <= pos && has_at(s, pos, text) && follows_ok(s, pos + text.len()) implies #[trigger] token_at(s, pos) == Ok::<
        (TokenView, int),
        ParseErrorView,
    >((TokenView::StringLiteral(b), pos + text.len())) by {
        assert(text[0] == s.subrange(pos, pos + text.len())[0]);
        lemma_string_embedded(s, pos, text, 1);
        assert(s.subrange(pos + 1, pos + text.len() - 1) =~= b) by {
            assert forall|i: int| 0 <= i < b.len() implies s[pos + 1 + i] == b[i] by {
                assert(text[i + 1] == s.subrange(pos, pos + text.len())[i + 1]);
            }
        }
    }
}

/// Texts, each behind its separator, and a tail behind the last: what stands between the
/// parentheses of a printed form, from the token at place `from` on.
pub open spec fn joined(seps: Seq<Seq<char>>, texts: Seq<Seq<char>>, from: int, tail: Seq<char>) -> Seq<char>
    decreases texts.len() - from,
{
    if from < 0 || from >= texts.len() {
        tail
    } else {
        seps[from] + texts[from] + joined(seps, texts, from + 1, tail)
    }
}

/// Texts that read as tokens, with white space between them, read as those tokens up to
/// the `)` or the end of the text behind them.
pub proof fn lemma_joined_tokenizes(
    s: Seq<char>,
    pos: int,
    items: Seq<TokenView>,
    seps: Seq<Seq<char>>,
    texts: Seq<Seq<char>>,
    tail: Seq<char>,
    from: int,
)
    requires
        0 <= pos,
        0 <= from <= items.len(),
        items.len() == texts.len(),
        items.len() == seps.len(),
        has_at(s, pos, joined(seps, texts, from, tail)),
        pos + joined(seps, texts, from, tail).len() >= s.len() || s[pos + joined(seps, texts, from, tail).len()] == ')',
        forall|i: int| from <= i < items.len() ==> reads(#[trigger] texts[i], items[i]),
        forall|i: int| from < i < items.len() ==> is_gap(#[trigger] seps[i]),
        from < items.len() ==> all_white(seps[from]),
        all_white(tail),
    ensures
        tokens_at(s, skip_space(s, pos)) == Ok::<(Seq<TokenView>, int), ParseErrorView>(
            (items.skip(from), pos + joined(seps, texts, from, tail).len()),
        ),
    decreases items.len() - from,
{
    let whole = joined(seps, texts, from, tail);
    let close = pos + whole.len();
    if from >= items.len() {
        assert(whole == tail);
        lemma_skip_white(s, pos, tail);
        assert(items.skip(from) =~= Seq::<TokenView>::empty());
    } else {
        let sep = seps[from];
        let text = texts[from];
        let rest = joined(seps, texts, from + 1, tail);
        assert(whole == sep + text + rest);
        assert(whole =~= sep + (text + rest));
        lemma_has_at_parts(s, pos, sep, text + rest);
        lemma_has_at_parts(s, pos + sep.len(), text, rest);
        let a = pos + sep.len();
        let e = a + text.len();
        assert(reads(text, items[from]));
        assert(s[a + 0] == text[0]);
        lemma_skip_white(s, pos, sep);
        assert(skip_space(s, pos) == a);
        assert(skip_space(s, a) == a);
        assert(follows_ok(s, e)) by {
            if e < s.len() {
                if from + 1 < items.len() {
                    let next = seps[from + 1];
                    assert(is_gap(next));
                    assert(rest == next + texts[from + 1] + joined(seps, texts, from + 2, tail));
                    assert(rest[0] == next[0]);
                    assert(s[e + 0] == rest[0]);
                } else {
                    assert(rest == tail);
                    if tail.len() > 0 {
                        assert(s[e + 0] == tail[0]);
                    }
                }
            }
        }
        assert(token_at(s, a) == Ok::<(TokenView, int), ParseErrorView>((items[from], e)));
        lemma_joined_tokenizes(s, e, items, seps, texts, tail, from + 1);
        let next = skip_space(s, e);
        lemma_skip_space(s, e);
        assert(seq![items[from]] + items.skip(from + 1) =~= items.skip(from));
        assert(close == e + rest.len());
    }
}

/// The first character of a token as it is printed.
pub open spec fn head_char(t: TokenView) -> char {
    match t {
        TokenView::Ident(a) => a[0],
        TokenView::StringLiteral(_) => '"',
        _ => '(',
    }
}

/// What stands between parentheses without a line feed at its end and behind something
/// that reads as tokens up to the closing parenthesis is a form of those tokens.
pub proof fn lemma_parens_reads(items: Seq<TokenView>, seps: Seq<Seq<char>>, texts: Seq<Seq<char>>, tail: Seq<char>)
    requires
        items.len() == texts.len(),
        items.len() == seps.len(),
        forall|i: int| 0 <= i < items.len() ==> reads(#[trigger] texts[i], items[i]),
        forall|i: int| 0 < i < items.len() ==> is_gap(#[trigger] seps[i]),
        items.len() > 0 ==> seps[0].len() == 0 && texts[0][0] != ';',
        all_white(tail),
        items.len() == 0 ==> tail.len() == 0,
    ensures
        reads(seq!['('] + joined(seps, texts, 0, tail) + seq![')'], TokenView::Parens(items)),
{
    let inside = joined(seps, texts, 0, tail);
    let text = seq!['('] + inside + seq![')'];
    assert(text[0] == '(');
    assert(text.last() == ')');
    assert forall|s: Seq<char>, pos: int|
        0 <= pos && has_at(s, pos, text) && follows_ok(s, pos + text.len()) implies #[trigger] token_at(s, pos) == Ok::<
        (TokenView, int),
        ParseErrorView,
    >((TokenView::Parens(items), pos + text.len())) by {
        assert(text =~= seq!['('] + (inside + seq![')']));
        lemma_has_at_parts(s, pos, seq!['('], inside + seq![')']);
        lemma_has_at_parts(s, pos + 1, inside, seq![')']);
        assert(s[pos + 0] == seq!['('][0]);
        let stop = pos + 1 + inside.len();
        assert(s[stop + 0] == seq![')'][0]);
        if items.len() > 0 {
            assert(reads(texts[0], items[0]));
            assert(inside == seps[0] + texts[0] + joined(seps, texts, 1, tail));
            assert(seps[0] =~= Seq::<char>::empty());
            assert(inside[0] == texts[0][0]);
            assert(s[pos + 1 + 0] == inside[0]);
            assert(all_white(seps[0]));
        } else {
            assert(inside =~= Seq::<char>::empty());
        }
        assert(!starts_pair(s, pos, '(', ';'));
        assert(skip_space(s, pos + 1) == pos + 1);
        lemma_joined_tokenizes(s, pos + 1, items, seps, texts, tail, 0);
        assert(items.skip(0) =~= items);
    }
}

/// The separators of a form that is printed on one line: a space before each token but
/// the first.
pub open spec fn flat_seps(n: nat) -> Seq<Seq<char>> {
    Seq::new(
        n,
        |i: int|
            if i == 0 {
                Seq::empty()
            } else {
                seq![' ']
            },
    )
}

/// The tokens of a form that is printed on one line, each as it is printed there.
pub open spec fn flat_texts(items: Seq<TokenView>) -> Seq<Seq<char>> {
    Seq::new(items.len(), |i: int| flat(items[i]))
}

/// The tokens of a form on one line are its texts behind their separators.
pub proof fn lemma_flat_shape(items: Seq<TokenView>, from: int)
    requires
        0 <= from <= items.len(),
    ensures
        from < items.len() ==> joined(flat_seps(items.len()), flat_texts(items), from, Seq::empty()) == flat_seps(
            items.len(),
        )[from] + flat_from(items, from),
        from == items.len() ==> flat_from(items, from) == Seq::<char>::empty(),
    decreases items.len() - from,
{
    let seps = flat_seps(items.len());
    let texts = flat_texts(items);
    if from < items.len() {
        lemma_flat_shape(items, from + 1);
        if from + 1 < items.len() {
            assert(seps[from + 1] == seq![' ']);
            assert(joined(seps, texts, from, Seq::empty()) =~= seps[from] + flat_from(items, from));
        } else {
            assert(joined(seps, texts, from + 1, Seq::empty()) =~= Seq::<char>::empty());
            assert(joined(seps, texts, from, Seq::empty()) =~= seps[from] + flat_from(items, from));
        }
    }
}

/// The separators of a function or component: nothing before its head, a space before
/// each token on the first line, and before each other token line feeds and the
/// indentation.
pub open spec fn block_seps(n: nat, k: int, inner: Seq<char>, gap: nat) -> Seq<Seq<char>> {
    Seq::new(
        n,
        |i: int|
            if i == 0 {
                Seq::empty()
            } else if i < k {
                seq![' ']
            } else if i == k {
                line_feeds(1) + inner
            } else {
                line_feeds(gap) + inner
            },
    )
}

/// The tokens of a function or component, each as it is printed: on one line before
/// place `k`, at the indentation `inner` from there on.
pub open spec fn block_texts(items: Seq<TokenView>, k: int, inner: Seq<char>) -> Seq<Seq<char>> {
    Seq::new(
        items.len(),
        |i: int|
            if i < k {
                flat(items[i])
            } else {
                rendered(items[i], inner)
            },
    )
}

/// The lines of a function or component are its texts behind their separators.
pub proof fn lemma_lines_shape(items: Seq<TokenView>, k: int, from: int, inner: Seq<char>, gap: nat)
    requires
        1 <= k <= from <= items.len(),
    ensures
        joined(block_seps(items.len(), k, inner, gap), block_texts(items, k, inner), from, Seq::empty()) == lines(
            items,
            k,
            from,
            inner,
            gap,
        ),
    decreases items.len() - from,
{
    let seps = block_seps(items.len(), k, inner, gap);
    let texts = block_texts(items, k, inner);
    if from < items.len() {
        lemma_lines_shape(items, k, from + 1, inner, gap);
        assert(joined(seps, texts, from, Seq::empty()) =~= lines(items, k, from, inner, gap));
    } else {
        assert(joined(seps, texts, from, Seq::empty()) =~= lines(items, k, from, inner, gap));
    }
}

/// The first line of a function is its texts behind their separators.
pub proof fn lemma_spaced_shape(items: Seq<TokenView>, k: int, from: int, inner: Seq<char>, gap: nat)
    requires
        1 <= from <= k <= items.len(),
    ensures
        joined(block_seps(items.len(), k, inner, gap), block_texts(items, k, inner), from, Seq::empty()) == spaced(
            items,
            from,
            k,
        ) + lines(items, k, k, inner, gap),
    decreases k - from,
{
    let seps = block_seps(items.len(), k, inner, gap);
    let texts = block_texts(items, k, inner);
    if from < k {
        lemma_spaced_shape(items, k, from + 1, inner, gap);
        assert(joined(seps, texts, from, Seq::empty()) =~= spaced(items, from, k) + lines(items, k, k, inner, gap));
    } else {
        lemma_lines_shape(items, k, k, inner, gap);
        assert(spaced(items, from, k) =~= Seq::<char>::empty());
        assert(joined(seps, texts, from, Seq::empty()) =~= spaced(items, from, k) + lines(items, k, k, inner, gap));
    }
}

/// The first line of a function ends behind where it begins, inside the function.
pub proof fn lemma_first_line_end(items: Seq<TokenView>, from: int)
    requires
        0 <= from <= items.len(),
    ensures
        from <= first_line_end(items, from) <= items.len(),
    decreases items.len() - from,
{
    if from < items.len() && crate::pretty::is_first_line(items[from]) {
        lemma_first_line_end(items, from + 1);
    }
}

/// A text whose last character is no line feed has no line feed to take away.
pub proof fn lemma_nothing_to_undo(s: Seq<char>)
    requires
        s.len() > 0,
        s.last() != '\n',
    ensures
        without_newlines(s) == s,
{
}

/// What is joined of texts that end without a line feed, behind something that ends
/// without one, ends without one.
pub proof fn lemma_joined_last(
    head: Seq<char>,
    seps: Seq<Seq<char>>,
    texts: Seq<Seq<char>>,
    tail: Seq<char>,
    from: int,
)
    requires
        0 <= from <= texts.len(),
        texts.len() == seps.len(),
        head.len() > 0,
        from == texts.len() && tail.len() == 0 ==> head.last() != '\n',
        tail.len() > 0 ==> tail.last() != '\n',
        forall|i: int| from <= i < texts.len() ==> (#[trigger] texts[i]).len() > 0 && texts[i].last() != '\n',
    ensures
        (head + joined(seps, texts, from, tail)).last() != '\n',
    decreases texts.len() - from,
{
    let whole = joined(seps, texts, from, tail);
    if from >= texts.len() {
        if tail.len() > 0 {
            assert((head + whole).last() == tail.last());
        } else {
            assert(head + whole =~= head);
        }
    } else {
        let next = head + seps[from] + texts[from];
        assert(texts[from].len() > 0);
        assert(next.last() == texts[from].last());
        lemma_joined_last(next, seps, texts, tail, from + 1);
        assert(head + whole =~= next + joined(seps, texts, from + 1, tail));
    }
}

/// The header of a form ends behind where it begins, inside the form.
pub proof fn lemma_header_end(items: Seq<TokenView>, from: int)
    requires
        0 <= from <= items.len(),
    ensures
        from <= header_end(items, from) <= items.len(),
        from < items.len() ==> from < header_end(items, from),
    decreases items.len() - from,
{
    if from < items.len() && continues(items, from) {
        lemma_header_end(items, from + 1);
    }
}

/// Inside the header of a form, the header goes on behind every token but the last, and
/// behind the last one only where it is the last token of the form.
pub proof fn lemma_header_run(items: Seq<TokenView>, from: int, i: int)
    requires
        0 <= from <= i < header_end(items, from),
        from <= items.len(),
    ensures
        header_end(items, i) == header_end(items, from),
        i < header_end(items, from) - 1 ==> continues(items, i),
        i == header_end(items, from) - 1 ==> !continues(items, i) || header_end(items, from) == items.len(),
    decreases i - from,
{
    lemma_header_end(items, from);
    if from < i {
        lemma_header_end(items, from + 1);
        lemma_header_run(items, from + 1, i);
    } else {
        if continues(items, i) {
            lemma_header_end(items, i + 1);
        }
    }
}

/// The separators of a form that is printed in the general way: nothing before the
/// first token, a space before each other token of the header, and before each token
/// behind the header line feeds and the indentation.
pub open spec fn generic_seps(items: Seq<TokenView>, header: int, inner: Seq<char>) -> Seq<Seq<char>> {
    Seq::new(
        items.len(),
        |i: int|
            if i == 0 {
                Seq::empty()
            } else if i < header {
                seq![' ']
            } else {
                line_feeds(body_gap(items, i, header)) + inner
            },
    )
}

/// The tokens of a form that is printed in the general way, each as it is printed.
pub open spec fn generic_texts(items: Seq<TokenView>, inner: Seq<char>) -> Seq<Seq<char>> {
    Seq::new(items.len(), |i: int| rendered(items[i], inner))
}

/// The space that stands behind a header that takes the whole form and goes on.
pub open spec fn generic_tail(items: Seq<TokenView>, header: int) -> Seq<char> {
    if header == items.len() && items.len() > 0 && continues(items, items.len() - 1) {
        seq![' ']
    } else {
        Seq::empty()
    }
}

/// The tokens behind the header are their texts behind their separators.
pub proof fn lemma_body_shape(items: Seq<TokenView>, header: int, from: int, inner: Seq<char>, tail: Seq<char>)
    requires
        1 <= header <= from <= items.len(),
    ensures
        joined(generic_seps(items, header, inner), generic_texts(items, inner), from, tail) == body_text(
            items,
            from,
            header,
            inner,
        ) + tail,
    decreases items.len() - from,
{
    let seps = generic_seps(items, header, inner);
    let texts = generic_texts(items, inner);
    if from < items.len() {
        lemma_body_shape(items, header, from + 1, inner, tail);
        assert(joined(seps, texts, from, tail) =~= body_text(items, from, header, inner) + tail);
    } else {
        assert(joined(seps, texts, from, tail) =~= body_text(items, from, header, inner) + tail);
    }
}

/// The header and what follows it are the texts of the form behind their separators.
pub proof fn lemma_header_shape(items: Seq<TokenView>, from: int, inner: Seq<char>)
    requires
        0 <= from < header_end(items, 0),
        from < items.len(),
    ensures
        header_text(items, from, inner) + body_text(items, header_end(items, 0), header_end(items, 0), inner)
            == generic_texts(items, inner)[from] + joined(
            generic_seps(items, header_end(items, 0), inner),
            generic_texts(items, inner),
            from + 1,
            generic_tail(items, header_end(items, 0)),
        ),
    decreases header_end(items, 0) - from,
{
    let h = header_end(items, 0);
    let seps = generic_seps(items, h, inner);
    let texts = generic_texts(items, inner);
    let tail = generic_tail(items, h);
    let body = body_text(items, h, h, inner);
    lemma_header_end(items, 0);
    lemma_header_run(items, 0, from);
    reveal_strlit(" ");
    assert(" "@ =~= seq![' ']);
    if from == h - 1 {
        lemma_body_shape(items, h, h, inner, tail);
        if continues(items, from) {
            assert(h == items.len());
            assert(header_text(items, from + 1, inner) =~= Seq::<char>::empty());
            assert(body =~= Seq::<char>::empty());
            assert(tail == seq![' ']);
            assert(header_text(items, from, inner) + body =~= texts[from] + joined(seps, texts, from + 1, tail));
        } else {
            assert(tail =~= Seq::<char>::empty());
            assert(header_text(items, from, inner) + body =~= texts[from] + joined(seps, texts, from + 1, tail));
        }
    } else {
        lemma_header_shape(items, from + 1, inner);
        assert(continues(items, from));
        assert(seps[from + 1] == seq![' ']);
        assert(joined(seps, texts, from + 1, tail) == seps[from + 1] + texts[from + 1] + joined(
            seps,
            texts,
            from + 2,
            tail,
        ));
        assert(header_text(items, from, inner) == rendered(items[from], inner) + " "@ + header_text(
            items,
            from + 1,
            inner,
        ));
        assert(texts[from] == rendered(items[from], inner));
        let after = header_text(items, from + 1, inner) + body;
        assert(after == texts[from + 1] + joined(seps, texts, from + 2, tail));
        assert(header_text(items, from, inner) + body =~= texts[from] + seq![' '] + after);
        assert(texts[from] + joined(seps, texts, from + 1, tail) =~= texts[from] + seq![' '] + after);
    }
}

/// Line feeds and an indentation of white space part two tokens.
pub proof fn lemma_break_is_gap(n: nat, inner: Seq<char>)
    requires
        n >= 1,
        all_white(inner),
    ensures
        is_gap(line_feeds(n) + inner),
{
    let w = line_feeds(n) + inner;
    assert forall|i: int| 0 <= i < w.len() implies white_space(#[trigger] w[i]) by {
        if i < n {
            assert(w[i] == '\n');
        } else {
            assert(w[i] == inner[i - n]);
        }
    }
}

/// A form of plain tokens on one line reads as the form.
pub proof fn lemma_flat_parens_reads(items: Seq<TokenView>)
    requires
        forall|i: int| 0 <= i < items.len() ==> reads(#[trigger] flat(items[i]), items[i]),
        items.len() > 0 ==> flat(items[0])[0] != ';',
    ensures
        reads(flat(TokenView::Parens(items)), TokenView::Parens(items)),
        flat(TokenView::Parens(items))[0] == '(',
{
    let seps = flat_seps(items.len());
    let texts = flat_texts(items);
    lemma_flat_shape(items, 0);
    assert forall|i: int| 0 < i < items.len() implies is_gap(#[trigger] seps[i]) by {
        assert(seps[i] == seq![' ']);
        assert(seps[i][0] == ' ');
    }
    assert forall|i: int| 0 <= i < items.len() implies reads(#[trigger] texts[i], items[i]) by {
        assert(texts[i] == flat(items[i]));
    }
    lemma_parens_reads(items, seps, texts, Seq::empty());
    if items.len() > 0 {
        assert(seps[0] + flat_from(items, 0) =~= flat_from(items, 0));
    } else {
        assert(joined(seps, texts, 0, Seq::empty()) =~= flat_from(items, 0));
    }
    assert(flat(TokenView::Parens(items)) =~= seq!['('] + joined(seps, texts, 0, Seq::empty()) + seq![')']);
}

/// A function or component of plain tokens reads as the form.
pub proof fn lemma_block_reads(items: Seq<TokenView>, k: int, inner: Seq<char>, gap: nat)
    requires
        1 <= k <= items.len(),
        gap >= 1,
        all_white(inner),
        forall|i: int| 0 <= i < items.len() ==> reads(#[trigger] flat(items[i]), items[i]),
        forall|i: int| 0 <= i < items.len() ==> reads(#[trigger] rendered(items[i], inner), items[i]),
        flat(items[0])[0] != ';',
    ensures
        reads(
            seq!['('] + flat(items[0]) + spaced(items, 1, k) + lines(items, k, k, inner, gap) + seq![')'],
            TokenView::Parens(items),
        ),
        without_newlines(seq!['('] + flat(items[0]) + spaced(items, 1, k) + lines(items, k, k, inner, gap)) == seq![
            '(',
        ] + flat(items[0]) + spaced(items, 1, k) + lines(items, k, k, inner, gap),
{
    let seps = block_seps(items.len(), k, inner, gap);
    let texts = block_texts(items, k, inner);
    lemma_spaced_shape(items, k, 1, inner, gap);
    assert forall|i: int| 0 < i < items.len() implies is_gap(#[trigger] seps[i]) by {
        if i < k {
            assert(seps[i] == seq![' ']);
            assert(seps[i][0] == ' ');
        } else if i == k {
            lemma_break_is_gap(1, inner);
        } else {
            lemma_break_is_gap(gap, inner);
        }
    }
    assert forall|i: int| 0 <= i < items.len() implies reads(#[trigger] texts[i], items[i]) by {
        if i < k {
            assert(texts[i] == flat(items[i]));
        } else {
            assert(texts[i] == rendered(items[i], inner));
        }
    }
    lemma_parens_reads(items, seps, texts, Seq::empty());
    let inside = joined(seps, texts, 0, Seq::empty());
    assert(inside =~= flat(items[0]) + spaced(items, 1, k) + lines(items, k, k, inner, gap));
    let body = seq!['('] + flat(items[0]) + spaced(items, 1, k) + lines(items, k, k, inner, gap);
    assert(body =~= seq!['('] + inside);
    assert(seq!['('] + inside + seq![')'] =~= body + seq![')']);
    lemma_joined_last(seq!['('], seps, texts, Seq::empty(), 0);
    lemma_nothing_to_undo(body);
}

/// A form of plain tokens that is printed in the general way reads as the form.
pub proof fn lemma_generic_reads(items: Seq<TokenView>, inner: Seq<char>)
    requires
        items.len() > 0,
        all_white(inner),
        forall|i: int| 0 <= i < items.len() ==> reads(#[trigger] rendered(items[i], inner), items[i]),
        rendered(items[0], inner)[0] != ';',
    ensures
        reads(
            seq!['('] + header_text(items, 0, inner) + body_text(
                items,
                header_end(items, 0),
                header_end(items, 0),
                inner,
            ) + seq![')'],
            TokenView::Parens(items),
        ),
        without_newlines(
            seq!['('] + header_text(items, 0, inner) + body_text(
                items,
                header_end(items, 0),
                header_end(items, 0),
                inner,
            ),
        ) == seq!['('] + header_text(items, 0, inner) + body_text(
            items,
            header_end(items, 0),
            header_end(items, 0),
            inner,
        ),
{
    let h = header_end(items, 0);
    let seps = generic_seps(items, h, inner);
    let texts = generic_texts(items, inner);
    let tail = generic_tail(items, h);
    lemma_header_end(items, 0);
    lemma_header_shape(items, 0, inner);
    assert forall|i: int| 0 < i < items.len() implies is_gap(#[trigger] seps[i]) by {
        if i < h {
            assert(seps[i] == seq![' ']);
            assert(seps[i][0] == ' ');
        } else {
            lemma_break_is_gap(body_gap(items, i, h), inner);
        }
    }
    assert forall|i: int| 0 <= i < items.len() implies reads(#[trigger] texts[i], items[i]) by {
        assert(texts[i] == rendered(items[i], inner));
    }
    assert(all_white(tail)) by {
        if tail.len() > 0 {
            assert(tail[0] == ' ');
        }
    }
    lemma_parens_reads(items, seps, texts, tail);
    let inside = joined(seps, texts, 0, tail);
    let body = seq!['('] + header_text(items, 0, inner) + body_text(items, h, h, inner);
    assert(inside =~= header_text(items, 0, inner) + body_text(items, h, h, inner));
    assert(body =~= seq!['('] + inside);
    assert(seq!['('] + inside + seq![')'] =~= body + seq![')']);
    lemma_joined_last(seq!['('], seps, texts, tail, 0);
    lemma_nothing_to_undo(body);
}

/// A plain token, printed at any indentation of white space or on one line, reads as
/// itself.
pub proof fn lemma_plain_reads(t: TokenView, indent: Seq<char>)
    requires
        is_plain(t),
        all_white(indent),
    ensures
        reads(rendered(t, indent), t),
        reads(flat(t), t),
        rendered(t, indent)[0] == head_char(t),
        flat(t)[0] == head_char(t),
    decreases t,
{
    match t {
        TokenView::Ident(a) => {
            lemma_bare_reads(a);
        },
        TokenView::StringLiteral(b) => {
            lemma_string_reads(b);
            assert((seq!['"'] + b + seq!['"'])[0] == '"');
        },
        TokenView::Parens(items) => {
            let inner = indent.push('\t');
            assert forall|i: int| 0 <= i < inner.len() implies white_space(#[trigger] inner[i]) by {
                if i < indent.len() {
                    assert(inner[i] == indent[i]);
                }
            }
            assert forall|i: int| 0 <= i < items.len() implies reads(#[trigger] flat(items[i]), items[i]) by {
                lemma_plain_reads(items[i], inner);
            }
            assert forall|i: int| 0 <= i < items.len() implies reads(#[trigger] rendered(items[i], inner), items[i]) by {
                lemma_plain_reads(items[i], inner);
            }
            if items.len() > 0 {
                lemma_plain_reads(items[0], inner);
                assert(head_char(items[0]) != ';');
            }
            lemma_flat_parens_reads(items);
            reveal_strlit("(");
            reveal_strlit(")");
            assert("("@ =~= seq!['(']);
            assert(")"@ =~= seq![')']);
            if is_single_line_kind(items) || is_simple(items) {
            } else if is_headed(items, "func"@) {
                let k = first_line_end(items, 1);
                lemma_first_line_end(items, 1);
                lemma_block_reads(items, k, inner, 1);
                assert(flat(items[0]) == "func"@);
                let body = seq!['('] + flat(items[0]) + spaced(items, 1, k) + lines(items, k, k, inner, 1);
                assert("("@ + "func"@ + spaced(items, 1, k) + lines(items, k, k, inner, 1) =~= body);
                assert(rendered_func(items, indent) =~= body + seq![')']);
                assert(body[0] == '(');
            } else if is_headed(items, "component"@) {
                lemma_block_reads(items, 1, inner, 2);
                assert(flat(items[0]) == "component"@);
                assert(spaced(items, 1, 1) =~= Seq::<char>::empty());
                let body = seq!['('] + flat(items[0]) + spaced(items, 1, 1) + lines(items, 1, 1, inner, 2);
                assert("("@ + "component"@ + lines(items, 1, 1, inner, 2) =~= body);
                assert(rendered_component(items, indent) =~= body + seq![')']);
                assert(body[0] == '(');
            } else {
                lemma_header_end(items, 0);
                lemma_generic_reads(items, inner);
                let h = header_end(items, 0);
                let body = seq!['('] + header_text(items, 0, inner) + body_text(items, h, h, inner);
                assert("("@ + header_text(items, 0, inner) + body_text(items, h, h, inner) =~= body);
                assert(rendered_generic(items, indent) =~= body + seq![')']);
                assert(body[0] == '(');
            }
        },
        TokenView::BlockComment(comment) => {
            lemma_settled_text(comment, indent);
            lemma_comment_reads(comment);
        },
        TokenView::LineComment(_) => {},
    }
}

/// The separators of the tokens of a text: a line feed before each token but the first.
pub open spec fn top_seps(n: nat) -> Seq<Seq<char>> {
    Seq::new(
        n,
        |i: int|
            if i == 0 {
                Seq::empty()
            } else {
                seq!['\n']
            },
    )
}

/// The tokens of a text, each as it is printed.
pub open spec fn top_texts(tokens: Seq<TokenView>) -> Seq<Seq<char>> {
    Seq::new(tokens.len(), |i: int| rendered(tokens[i], Seq::empty()))
}

/// The printed tokens of a text are their texts behind their separators.
pub proof fn lemma_layout_shape(tokens: Seq<TokenView>, from: int)
    requires
        0 <= from <= tokens.len(),
    ensures
        from < tokens.len() ==> joined(top_seps(tokens.len()), top_texts(tokens), from, Seq::empty()) == top_seps(
            tokens.len(),
        )[from] + layout_from(tokens, from),
        from == tokens.len() ==> layout_from(tokens, from) == Seq::<char>::empty(),
    decreases tokens.len() - from,
{
    let seps = top_seps(tokens.len());
    let texts = top_texts(tokens);
    if from < tokens.len() {
        lemma_layout_shape(tokens, from + 1);
        if from + 1 < tokens.len() {
            assert(seps[from + 1] == seq!['\n']);
            assert(joined(seps, texts, from, Seq::empty()) =~= seps[from] + layout_from(tokens, from));
        } else {
            assert(joined(seps, texts, from + 1, Seq::empty()) =~= Seq::<char>::empty());
            assert(joined(seps, texts, from, Seq::empty()) =~= seps[from] + layout_from(tokens, from));
        }
    }
}

/// Printing changes white space only: the printed text of plain tokens is read as
/// those tokens.
pub proof fn printed_tokens_read_as_themselves(tokens: Seq<TokenView>)
    requires
        forall|i: int| 0 <= i < tokens.len() ==> is_plain(#[trigger] tokens[i]),
    ensures
        tokenize(layout(tokens)) == Ok::<Seq<TokenView>, ParseErrorView>(tokens),
{
    let seps = top_seps(tokens.len());
    let texts = top_texts(tokens);
    let s = layout(tokens);
    lemma_layout_shape(tokens, 0);
    assert forall|i: int| 0 <= i < tokens.len() implies reads(#[trigger] texts[i], tokens[i]) by {
        lemma_plain_reads(tokens[i], Seq::empty());
        assert(texts[i] == rendered(tokens[i], Seq::empty()));
    }
    assert forall|i: int| 0 < i < tokens.len() implies is_gap(#[trigger] seps[i]) by {
        assert(seps[i] == seq!['\n']);
        assert(seps[i][0] == '\n');
    }
    let inside = joined(seps, texts, 0, Seq::empty());
    if tokens.len() > 0 {
        assert(seps[0] + layout_from(tokens, 0) =~= layout_from(tokens, 0));
        assert(reads(texts[0], tokens[0]));
        assert(inside == seps[0] + texts[0] + joined(seps, texts, 1, Seq::empty()));
        assert(seps[0] =~= Seq::<char>::empty());
        assert(inside[0] == texts[0][0]);
        assert(all_white(seps[0]));
    } else {
        assert(inside =~= layout_from(tokens, 0));
    }
    assert(inside == s);
    assert(s.subrange(0, s.len() as int) =~= s);
    lemma_joined_tokenizes(s, 0, tokens, seps, texts, Seq::empty(), 0);
    assert(skip_space(s, 0) == 0);
    assert(tokens.skip(0) =~= tokens);
}

/// Printing a text whose tokens are plain, and printing the result again, gives what
/// printing once gives.
pub proof fn printing_plain_text_again_changes_nothing(code: Seq<char>)
    requires
        tokenize(code) is Ok,
        forall|i: int| 0 <= i < tokenize(code)->Ok_0.len() ==> is_plain(#[trigger] tokenize(code)->Ok_0[i]),
    ensures
        pretty(code) is Ok,
        pretty(pretty(code)->Ok_0) == pretty(code),
{
    printed_tokens_read_as_themselves(tokenize(code)->Ok_0);
}

} // verus!
