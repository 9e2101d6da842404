//! The parser: from source text to a tree.
//!
//! A document is one parenthesised form. White space, `;;` line comments and `(;` .. `;)`
//! block comments separate tokens and mean nothing else.
use crate::ast::{items_view, lemma_items_view_push, nested_at, Item, ItemView, Node, NodeView};
use crate::error::SWLError;
use crate::text::{alphanumeric, white_space, string_of_range, to_chars};
use vstd::prelude::*;

verus! {

/// Why a text is not a document.
#[derive(Debug)]
pub enum ParserError {
    /// The text ended inside a form, a string or a token.
    UnexpectedEOF,
    /// Something other than white space and comments follows the document.
    StrayData(String),
    /// The text does not continue as it has to.
    UnexpectedToken { expected: String, got: String },
    /// A string literal ends inside an escape sequence.
    InvalidEscapeSequence,
}

/// The mathematical value of a [`ParserError`].
pub enum ParseErrorView {
    UnexpectedEOF,
    StrayData(Seq<char>),
    UnexpectedToken { expected: Seq<char>, got: Seq<char> },
    InvalidEscapeSequence,
}

impl View for ParserError {
    type V = ParseErrorView;

    open spec fn view(&self) -> ParseErrorView {
        match self {
            ParserError::UnexpectedEOF => ParseErrorView::UnexpectedEOF,
            ParserError::StrayData(rest) => ParseErrorView::StrayData(rest@),
            ParserError::UnexpectedToken { expected, got } => ParseErrorView::UnexpectedToken {
                expected: expected@,
                got: got@,
            },
            ParserError::InvalidEscapeSequence => ParseErrorView::InvalidEscapeSequence,
        }
    }
}

/// The characters that a name is made of: letters, digits, `.`, `_` and `-`.
pub open spec fn is_ident_char(c: char) -> bool {
    alphanumeric(c) || c == '.' || c == '_' || c == '-'
}

/// Whether `s` holds `a` at `pos` and `b` right after it.
pub open spec fn starts_pair(s: Seq<char>, pos: int, a: char, b: char) -> bool {
    0 <= pos && pos + 1 < s.len() && s[pos] == a && s[pos + 1] == b
}

/// Whether a comment begins at `pos`: `;;` or `(;`.
pub open spec fn starts_comment(s: Seq<char>, pos: int) -> bool {
    starts_pair(s, pos, ';', ';') || starts_pair(s, pos, '(', ';')
}

/// Where the line that holds `pos` ends: behind its line feed, or at the end of the text.
pub open spec fn line_end(s: Seq<char>, pos: int) -> int
    decreases s.len() - pos,
{
    if pos < 0 || pos >= s.len() {
        s.len() as int
    } else if s[pos] == '\n' {
        pos + 1
    } else {
        line_end(s, pos + 1)
    }
}

/// Where the block comment whose body begins at `pos` ends: behind the first `;)`, or at
/// the end of the text where none follows.
pub open spec fn block_end(s: Seq<char>, pos: int) -> int
    decreases s.len() - pos,
{
    if pos < 0 || pos >= s.len() {
        s.len() as int
    } else if starts_pair(s, pos, ';', ')') {
        pos + 2
    } else {
        block_end(s, pos + 1)
    }
}

/// A line ends at or behind the position asked about, inside the text.
pub proof fn lemma_line_end(s: Seq<char>, pos: int)
    requires
        0 <= pos <= s.len(),
    ensures
        pos <= line_end(s, pos) <= s.len(),
    decreases s.len() - pos,
{
    if pos < s.len() && s[pos] != '\n' {
        lemma_line_end(s, pos + 1);
    }
}

/// A block comment ends at or behind the position asked about, inside the text.
pub proof fn lemma_block_end(s: Seq<char>, pos: int)
    requires
        0 <= pos <= s.len(),
    ensures
        pos <= block_end(s, pos) <= s.len(),
    decreases s.len() - pos,
{
    if pos < s.len() && !starts_pair(s, pos, ';', ')') {
        lemma_block_end(s, pos + 1);
    }
}

/// The first position at or behind `pos` that holds neither white space nor a comment.
pub open spec fn skip_blank(s: Seq<char>, pos: int) -> int
    decreases s.len() - pos,
{
    if pos < 0 || pos >= s.len() {
        pos
    } else if starts_pair(s, pos, ';', ';') {
        proof {
            lemma_line_end(s, pos + 2);
        }
        skip_blank(s, line_end(s, pos + 2))
    } else if starts_pair(s, pos, '(', ';') {
        proof {
            lemma_block_end(s, pos + 2);
        }
        skip_blank(s, block_end(s, pos + 2))
    } else if white_space(s[pos]) {
        skip_blank(s, pos + 1)
    } else {
        pos
    }
}

/// Skipping blanks moves forward and stays inside the text; where it stops, no blank begins.
pub proof fn lemma_skip_blank(s: Seq<char>, pos: int)
    requires
        0 <= pos <= s.len(),
    ensures
        pos <= skip_blank(s, pos) <= s.len(),
        skip_blank(s, pos) < s.len() ==> !white_space(s[skip_blank(s, pos)]) && !starts_comment(
            s,
            skip_blank(s, pos),
        ),
    decreases s.len() - pos,
{
    if pos < s.len() {
        if starts_pair(s, pos, ';', ';') {
            lemma_line_end(s, pos + 2);
            lemma_skip_blank(s, line_end(s, pos + 2));
        } else if starts_pair(s, pos, '(', ';') {
            lemma_block_end(s, pos + 2);
            lemma_skip_blank(s, block_end(s, pos + 2));
        } else if white_space(s[pos]) {
            lemma_skip_blank(s, pos + 1);
        }
    }
}

/// Whether an item can begin at `pos`: something stands there that is no white space, no
/// `)` and begins no comment.
pub open spec fn begins_item(s: Seq<char>, pos: int) -> bool {
    0 <= pos < s.len() && !white_space(s[pos]) && s[pos] != ')' && !starts_comment(s, pos)
}

/// Where the run of name characters that begins at `pos` ends.
pub open spec fn ident_end(s: Seq<char>, pos: int) -> int
    decreases s.len() - pos,
{
    if 0 <= pos < s.len() && is_ident_char(s[pos]) {
        ident_end(s, pos + 1)
    } else {
        pos
    }
}

/// Where the string literal whose body begins at `pos` ends: behind the first quote that
/// no backslash precedes. A backslash takes the character after it along, whatever it is.
pub open spec fn string_end(s: Seq<char>, pos: int) -> Option<int>
    decreases s.len() - pos,
{
    if pos < 0 || pos >= s.len() {
        None
    } else if s[pos] == '"' {
        Some(pos + 1)
    } else if s[pos] == '\\' {
        if pos + 1 >= s.len() {
            None
        } else {
            string_end(s, pos + 2)
        }
    } else {
        string_end(s, pos + 1)
    }
}

/// A string literal ends behind where its body begins, inside the text.
pub proof fn lemma_string_end(s: Seq<char>, pos: int)
    requires
        0 <= pos,
    ensures
        string_end(s, pos) matches Some(end) ==> pos < end <= s.len(),
    decreases s.len() - pos,
{
    if pos < s.len() && s[pos] != '"' {
        if s[pos] == '\\' {
            if pos + 1 < s.len() {
                lemma_string_end(s, pos + 2);
            }
        } else {
            lemma_string_end(s, pos + 1);
        }
    }
}

/// Where the bare token that holds `pos` ends, `level` parentheses being open inside it.
///
/// Outside parentheses of its own a token ends before white space, before `)` and before
/// a comment. Inside them it runs on, so that `offset=(i32.const 4)` is one token.
pub open spec fn token_end(s: Seq<char>, pos: int, level: nat) -> Option<int>
    decreases s.len() - pos,
{
    if pos < 0 || pos >= s.len() {
        None
    } else if level == 0 && (white_space(s[pos]) || s[pos] == ')' || starts_comment(s, pos)) {
        Some(pos)
    } else if s[pos] == '(' {
        token_end(s, pos + 1, level + 1)
    } else if s[pos] == ')' {
        token_end(s, pos + 1, (level - 1) as nat)
    } else {
        token_end(s, pos + 1, level)
    }
}

/// A token ends at or behind the position asked about.
pub proof fn lemma_token_end(s: Seq<char>, pos: int, level: nat)
    requires
        0 <= pos,
    ensures
        token_end(s, pos, level) matches Some(end) ==> pos <= end < s.len(),
    decreases s.len() - pos,
{
    if pos < s.len() && !(level == 0 && (white_space(s[pos]) || s[pos] == ')' || starts_comment(s, pos))) {
        if s[pos] == '(' {
            lemma_token_end(s, pos + 1, level + 1);
        } else if s[pos] == ')' {
            lemma_token_end(s, pos + 1, (level - 1) as nat);
        } else {
            lemma_token_end(s, pos + 1, level);
        }
    }
}

/// The form that begins at or behind `pos`, after blanks, and the position behind its
/// closing parenthesis.
pub open spec fn parse_node_at(s: Seq<char>, pos: int, depth: nat) -> Result<(NodeView, int), ParseErrorView>
    decreases s.len() - pos, 0nat,
{
    let open = skip_blank(s, pos);
    if 0 <= pos <= open < s.len() && s[open] == '(' {
        let name_start = skip_blank(s, open + 1);
        let name_end = ident_end(s, name_start);
        let body = skip_blank(s, name_end);
        // The body begins behind the parenthesis. Where the text ends before it, the form is left open.
        if body <= open || body >= s.len() {
            Err(ParseErrorView::UnexpectedEOF)
        } else {
            match parse_items_at(s, body, depth + 1) {
                Err(e) => Err(e),
                Ok((items, close)) => Ok(
                    (NodeView { name: s.subrange(name_start, name_end), depth, items }, close + 1),
                ),
            }
        }
    } else {
        Err(
            ParseErrorView::UnexpectedToken {
                expected: seq!['('],
                got: if 0 <= open < s.len() {
                    seq![s[open]]
                } else {
                    Seq::empty()
                },
            },
        )
    }
}

/// The items from `pos`, where no blank begins, up to the `)` that closes their form, and
/// the position of that parenthesis.
pub open spec fn parse_items_at(s: Seq<char>, pos: int, depth: nat) -> Result<(Seq<ItemView>, int), ParseErrorView>
    decreases s.len() - pos, 2nat,
{
    if pos < 0 || pos >= s.len() {
        Err(ParseErrorView::UnexpectedEOF)
    } else if s[pos] == ')' {
        Ok((Seq::empty(), pos))
    } else {
        match parse_item_at(s, pos, depth) {
            Err(e) => Err(e),
            Ok((item, end)) => {
                let next = skip_blank(s, end);
                // An item is never empty. Where the text ends behind it, the form is left open.
                if next <= pos || next >= s.len() {
                    Err(ParseErrorView::UnexpectedEOF)
                } else {
                    match parse_items_at(s, next, depth) {
                        Err(e) => Err(e),
                        Ok((rest, close)) => Ok((seq![item] + rest, close)),
                    }
                }
            },
        }
    }
}

/// The item that begins at `pos` and the position behind it: a nested form where `(`
/// stands, a string literal where `"` stands, a bare token otherwise.
pub open spec fn parse_item_at(s: Seq<char>, pos: int, depth: nat) -> Result<(ItemView, int), ParseErrorView>
    decreases s.len() - pos, 1nat,
{
    if pos < 0 || pos >= s.len() {
        Err(ParseErrorView::UnexpectedEOF)
    } else if s[pos] == '(' {
        match parse_node_at(s, pos, depth) {
            Err(e) => Err(e),
            Ok((node, end)) => Ok((ItemView::Node(node), end)),
        }
    } else if s[pos] == '"' {
        match string_end(s, pos + 1) {
            None => Err(ParseErrorView::UnexpectedEOF),
            Some(end) => Ok((ItemView::Attribute(s.subrange(pos, end)), end)),
        }
    } else {
        match token_end(s, pos, 0) {
            None => Err(ParseErrorView::UnexpectedEOF),
            Some(end) => Ok((ItemView::Attribute(s.subrange(pos, end)), end)),
        }
    }
}

/// The document that begins at `pos`: one form, after which only blanks may follow.
pub open spec fn parse_document(s: Seq<char>, pos: int, depth: nat) -> Result<NodeView, ParseErrorView> {
    match parse_node_at(s, pos, depth) {
        Err(e) => Err(e),
        Ok((node, end)) => {
            let rest = skip_blank(s, end);
            if rest < s.len() {
                Err(ParseErrorView::StrayData(s.subrange(rest, s.len() as int)))
            } else {
                Ok(node)
            }
        },
    }
}

/// The document that a text holds.
pub open spec fn parse_text(s: Seq<char>) -> Result<NodeView, ParseErrorView> {
    parse_document(s, 0, 0)
}

/// Whether `r` is the outcome `expected`, by the values of what it holds.
pub open spec fn is_outcome(r: Result<Node, SWLError>, expected: Result<NodeView, ParseErrorView>) -> bool {
    match expected {
        Ok(n) => r matches Ok(node) && node@ == n,
        Err(e) => r matches Err(SWLError::ParserError(found)) && found@ == e,
    }
}

/// A cursor over the characters of a text.
pub struct Parser {
    input: Vec<char>,
    pos: usize,
    depth: usize,
}

impl Parser {
    #[verifier::type_invariant]
    spec fn inv(self) -> bool {
        self.depth <= self.pos <= self.input.len()
    }

    /// The text that the parser reads.
    pub closed spec fn text(&self) -> Seq<char> {
        self.input@
    }

    /// How many characters of the text lie behind the cursor.
    pub closed spec fn position(&self) -> nat {
        self.pos as nat
    }

    /// The depth that the next form is given.
    pub closed spec fn level(&self) -> nat {
        self.depth as nat
    }

    /// A parser at the start of `input`.
    pub fn new(input: &str) -> (parser: Parser)
        ensures
            parser.text() == input@,
            parser.position() == 0,
            parser.level() == 0,
    {
        Parser { input: to_chars(input), pos: 0, depth: 0 }
    }

    /// Parses the rest of the text as one document and moves the cursor to the end of
    /// the text, whatever the outcome.
    pub fn parse(&mut self) -> (r: Result<Node, SWLError>)
        ensures
            final(self).text() == old(self).text(),
            final(self).position() == old(self).text().len(),
            final(self).level() == old(self).level(),
            is_outcome(r, parse_document(old(self).text(), old(self).position() as int, old(self).level())),
    {
        proof {
            use_type_invariant(&*self);
        }
        let start = self.pos;
        let outcome = self.parse_node(start, self.depth);
        self.pos = self.input.len();
        match outcome {
            Err(e) => Err(SWLError::ParserError(e)),
            Ok((node, end)) => {
                let rest = self.eat_whitespace(end);
                if !self.is_eof(rest) {
                    Err(SWLError::ParserError(ParserError::StrayData(self.remaining_str(rest))))
                } else {
                    Ok(node)
                }
            },
        }
    }

    /// The text from `pos` on.
    fn remaining_str(&self, pos: usize) -> (rest: String)
        ensures
            pos <= self.input.len() ==> rest@ == self.input@.subrange(pos as int, self.input.len() as int),
            pos > self.input.len() ==> rest@ == Seq::<char>::empty(),
    {
        if pos > self.input.len() {
            return String::new();
        }
        string_of_range(&self.input, pos, self.input.len())
    }

    /// Whether `pos` is the end of the text.
    fn is_eof(&self, pos: usize) -> (r: bool)
        ensures
            r == (pos >= self.input.len()),
    {
        pos >= self.input.len()
    }

    /// The character at `pos`, if there is one.
    fn peek(&self, pos: usize) -> (c: Option<char>)
        ensures
            match c {
                Some(c) => pos < self.input.len() && c == self.input@[pos as int],
                None => pos >= self.input.len(),
            },
    {
        if pos < self.input.len() {
            Some(self.input[pos])
        } else {
            None
        }
    }

    /// The character at `pos`, which has to be there.
    fn must_peek(&self, pos: usize) -> (c: Result<char, ParserError>)
        ensures
            match c {
                Ok(c) => pos < self.input.len() && c == self.input@[pos as int],
                Err(e) => pos >= self.input.len() && e == ParserError::UnexpectedEOF,
            },
    {
        match self.peek(pos) {
            Some(c) => Ok(c),
            None => Err(ParserError::UnexpectedEOF),
        }
    }

    /// Whether the text holds `a` at `pos` and `b` behind it.
    fn is_next(&self, pos: usize, a: char, b: char) -> (r: bool)
        ensures
            r == starts_pair(self.input@, pos as int, a, b),
    {
        pos < self.input.len() && self.input.len() - pos >= 2 && self.input[pos] == a && self.input[pos + 1] == b
    }

    /// The position behind `expected`, which has to stand at `pos`.
    fn assert_next(&self, pos: usize, expected: char) -> (r: Result<usize, ParserError>)
        ensures
            match r {
                Ok(after) => pos < self.input.len() && self.input@[pos as int] == expected && after == pos + 1,
                Err(e) => !(pos < self.input.len() && self.input@[pos as int] == expected) && e@
                    == (ParseErrorView::UnexpectedToken {
                    expected: seq![expected],
                    got: if pos < self.input.len() {
                        seq![self.input@[pos as int]]
                    } else {
                        Seq::empty()
                    },
                }),
            },
    {
        if pos < self.input.len() && self.input[pos] == expected {
            return Ok(pos + 1);
        }
        let mut wanted = String::new();
        wanted.push(expected);
        let mut got = String::new();
        if pos < self.input.len() {
            got.push(self.input[pos]);
        }
        assert(wanted@ == seq![expected]);
        assert(pos < self.input.len() ==> got@ == seq![self.input@[pos as int]]);
        Err(ParserError::UnexpectedToken { expected: wanted, got })
    }

    /// Skips to the end of the line.
    fn eat_line(&self, pos: usize) -> (end: usize)
        requires
            pos <= self.input.len(),
        ensures
            end == line_end(self.input@, pos as int),
            pos <= end <= self.input.len(),
    {
        let mut cur: usize = pos;
        while cur < self.input.len()
            invariant
                pos <= cur <= self.input.len(),
                line_end(self.input@, pos as int) == line_end(self.input@, cur as int),
            decreases self.input.len() - cur,
        {
            if self.input[cur] == '\n' {
                return cur + 1;
            }
            cur += 1;
        }
        cur
    }

    /// Skips to the end of a block comment.
    fn eat_comment(&self, pos: usize) -> (end: usize)
        requires
            pos <= self.input.len(),
        ensures
            end == block_end(self.input@, pos as int),
            pos <= end <= self.input.len(),
    {
        let mut cur: usize = pos;
        while cur < self.input.len()
            invariant
                pos <= cur <= self.input.len(),
                block_end(self.input@, pos as int) == block_end(self.input@, cur as int),
            decreases self.input.len() - cur,
        {
            if self.is_next(cur, ';', ')') {
                return cur + 2;
            }
            cur += 1;
        }
        cur
    }

    /// Skips white space and comments.
    fn eat_whitespace(&self, pos: usize) -> (end: usize)
        requires
            pos <= self.input.len(),
        ensures
            end == skip_blank(self.input@, pos as int),
            pos <= end <= self.input.len(),
    {
        let mut cur: usize = pos;
        loop
            invariant
                pos <= cur <= self.input.len(),
                skip_blank(self.input@, pos as int) == skip_blank(self.input@, cur as int),
            ensures
                pos <= cur <= self.input.len(),
                cur == skip_blank(self.input@, pos as int),
            decreases self.input.len() - cur,
        {
            if cur >= self.input.len() {
                break ;
            }
            if self.is_next(cur, ';', ';') {
                cur = self.eat_line(cur + 2);
            } else if self.is_next(cur, '(', ';') {
                cur = self.eat_comment(cur + 2);
            } else if self.input[cur].is_whitespace() {
                cur += 1;
            } else {
                break ;
            }
        }
        cur
    }

    /// Skips a name.
    fn parse_identifier(&self, pos: usize) -> (end: usize)
        requires
            pos <= self.input.len(),
        ensures
            end == ident_end(self.input@, pos as int),
            pos <= end <= self.input.len(),
    {
        let mut cur: usize = pos;
        while cur < self.input.len() && (self.input[cur].is_alphanumeric() || self.input[cur] == '.'
            || self.input[cur] == '_' || self.input[cur] == '-')
            invariant
                pos <= cur <= self.input.len(),
                ident_end(self.input@, pos as int) == ident_end(self.input@, cur as int),
            decreases self.input.len() - cur,
        {
            cur += 1;
        }
        cur
    }

    /// Skips the body of a string literal and its closing quote.
    fn eat_string(&self, pos: usize) -> (end: Option<usize>)
        requires
            pos <= self.input.len(),
        ensures
            match end {
                Some(e) => string_end(self.input@, pos as int) == Some(e as int) && pos < e <= self.input.len(),
                None => string_end(self.input@, pos as int).is_none(),
            },
    {
        let mut cur: usize = pos;
        while cur < self.input.len()
            invariant
                pos <= cur,
                string_end(self.input@, pos as int) == string_end(self.input@, cur as int),
            decreases self.input.len() - cur,
        {
            let c = self.input[cur];
            if c == '"' {
                return Some(cur + 1);
            }
            if c == '\\' {
                if self.input.len() - cur < 2 {
                    assert(string_end(self.input@, cur + 2).is_none());
                    return None;
                }
                cur += 2;
            } else {
                cur += 1;
            }
        }
        None
    }

    /// Skips a bare token.
    fn eat_token(&self, pos: usize) -> (end: Option<usize>)
        requires
            pos <= self.input.len(),
        ensures
            match end {
                Some(e) => token_end(self.input@, pos as int, 0) == Some(e as int) && pos <= e < self.input.len(),
                None => token_end(self.input@, pos as int, 0).is_none(),
            },
    {
        let mut cur: usize = pos;
        let mut level: usize = 0;
        while cur < self.input.len()
            invariant
                pos <= cur <= self.input.len(),
                level <= cur - pos,
                token_end(self.input@, pos as int, 0) == token_end(self.input@, cur as int, level as nat),
            decreases self.input.len() - cur,
        {
            let c = self.input[cur];
            if level == 0 && (c.is_whitespace() || c == ')' || self.is_next(cur, ';', ';') || self.is_next(
                cur,
                '(',
                ';',
            )) {
                return Some(cur);
            }
            if c == '(' {
                level += 1;
            } else if c == ')' {
                level -= 1;
            }
            cur += 1;
        }
        None
    }

    /// Parses the item at `pos`.
    fn parse_item(&self, pos: usize, depth: usize) -> (r: Result<(Item, usize), ParserError>)
        requires
            pos < self.input.len(),
            depth <= pos,
        ensures
            match parse_item_at(self.input@, pos as int, depth as nat) {
                Ok((item, end)) => r matches Ok((found, e)) && found@ == item && e == end && pos <= e
                    <= self.input.len() && (begins_item(self.input@, pos as int) ==> pos < e),
                Err(error) => r matches Err(found) && found@ == error,
            },
        decreases self.input.len() - pos, 1nat,
    {
        proof {
            if begins_item(self.input@, pos as int) {
                let first = self.input@[pos as int];
                lemma_token_end(self.input@, pos + 1, if first == '(' { 1nat } else { 0nat });
            }
        }
        let c = self.input[pos];
        if c == '(' {
            match self.parse_node(pos, depth) {
                Err(e) => Err(e),
                Ok((node, end)) => Ok((Item::Node(node), end)),
            }
        } else if c == '"' {
            match self.eat_string(pos + 1) {
                None => Err(ParserError::UnexpectedEOF),
                Some(end) => Ok((Item::Attribute(string_of_range(&self.input, pos, end)), end)),
            }
        } else {
            match self.eat_token(pos) {
                None => Err(ParserError::UnexpectedEOF),
                Some(end) => Ok((Item::Attribute(string_of_range(&self.input, pos, end)), end)),
            }
        }
    }

    /// Parses the form at or behind `pos`.
    #[verifier::loop_isolation(false)]
    fn parse_node(&self, pos: usize, depth: usize) -> (r: Result<(Node, usize), ParserError>)
        requires
            pos <= self.input.len(),
            depth <= pos,
        ensures
            match parse_node_at(self.input@, pos as int, depth as nat) {
                Ok((node, end)) => r matches Ok((found, e)) && found@ == node && e == end && pos < e
                    <= self.input.len(),
                Err(error) => r matches Err(found) && found@ == error,
            },
        decreases self.input.len() - pos, 0nat,
    {
        let ghost s = self.input@;
        let open = self.eat_whitespace(pos);
        let after = match self.assert_next(open, '(') {
            Ok(after) => after,
            Err(e) => {
                return Err(e);
            },
        };
        let name_start = self.eat_whitespace(after);
        let name_end = self.parse_identifier(name_start);
        let body = self.eat_whitespace(name_end);
        let name = string_of_range(&self.input, name_start, name_end);
        let mut items: Vec<Item> = Vec::new();
        let mut cur: usize = body;
        proof {
            lemma_skip_blank(s, name_end as int);
        }
        loop
            invariant
                pos < body <= cur <= self.input.len(),
                cur < self.input.len() ==> !white_space(s[cur as int]) && !starts_comment(s, cur as int),
                parse_items_at(s, body as int, (depth + 1) as nat) == match parse_items_at(
                    s,
                    cur as int,
                    (depth + 1) as nat,
                ) {
                    Ok((rest, close)) => Ok((items_view(items@) + rest, close)),
                    Err(e) => Err(e),
                },
            decreases self.input.len() - cur,
        {
            let c = match self.must_peek(cur) {
                Ok(c) => c,
                Err(e) => {
                    return Err(e);
                },
            };
            if c == ')' {
                assert(items_view(items@) + Seq::<ItemView>::empty() == items_view(items@));
                break ;
            }
            let (item, end) = match self.parse_item(cur, depth + 1) {
                Err(e) => {
                    return Err(e);
                },
                Ok(found) => found,
            };
            let next = self.eat_whitespace(end);
            proof {
                lemma_skip_blank(s, end as int);
                lemma_items_view_push(items@, item);
                let done = items_view(items@);
                assert forall|rest: Seq<ItemView>| #[trigger] (done.push(item@) + rest) == done + (seq![item@] + rest) by {
                    assert((done.push(item@) + rest) =~= done + (seq![item@] + rest));
                }
            }
            items.push(item);
            cur = next;
        }
        Ok((Node { name, depth, items }, cur + 1))
    }
}

} // verus!
verus! {

/// What the parser builds records the true nesting depths.
pub proof fn lemma_parse_node_nested(s: Seq<char>, pos: int, depth: nat)
    ensures
        parse_node_at(s, pos, depth) matches Ok((node, end)) ==> nested_at(node, depth),
    decreases s.len() - pos, 0nat,
{
    let open = skip_blank(s, pos);
    if 0 <= pos <= open < s.len() && s[open] == '(' {
        let body = skip_blank(s, ident_end(s, skip_blank(s, open + 1)));
        if !(body <= open || body >= s.len()) {
            lemma_parse_items_nested(s, body, depth + 1);
        }
    }
}

/// The items that the parser builds record the true nesting depths.
pub proof fn lemma_parse_items_nested(s: Seq<char>, pos: int, depth: nat)
    ensures
        parse_items_at(s, pos, depth) matches Ok((items, close)) ==> forall|i: int|
            0 <= i < items.len() ==> (#[trigger] items[i] matches ItemView::Node(c) ==> nested_at(c, depth)),
    decreases s.len() - pos, 2nat,
{
    if !(pos < 0 || pos >= s.len()) && s[pos] != ')' {
        match parse_item_at(s, pos, depth) {
            Err(e) => {},
            Ok((item, end)) => {
                let next = skip_blank(s, end);
                if !(next <= pos || next >= s.len()) {
                    lemma_parse_items_nested(s, next, depth);
                    if s[pos] == '(' {
                        lemma_parse_node_nested(s, pos, depth);
                    }
                    match parse_items_at(s, next, depth) {
                        Err(e) => {},
                        Ok((rest, close)) => {
                            let items = seq![item] + rest;
                            assert forall|i: int| 0 <= i < items.len() implies (#[trigger] items[i] matches ItemView::Node(
                                c,
                            ) ==> nested_at(c, depth)) by {
                                if i > 0 {
                                    assert(items[i] == rest[i - 1]);
                                }
                            }
                        },
                    }
                }
            },
        }
    }
}

/// A parsed document is a tree of depth zero at the root whose depths are the true ones.
pub proof fn lemma_parse_nested(s: Seq<char>)
    ensures
        parse_text(s) matches Ok(node) ==> nested_at(node, 0),
{
    lemma_parse_node_nested(s, 0, 0);
}

} // verus!
