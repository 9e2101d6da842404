//! The pretty-printer: from the text of a module to the same text, laid out.
//!
//! The printer reads the text with a tokenizer of its own, which keeps comments, and
//! writes the tokens back with one tab for each level of nesting.
use crate::error::{ErrorView, SWLError};
use crate::parser::{lemma_string_end, starts_pair, string_end, ParseErrorView, ParserError};
use crate::text::{index_of, lemma_index_of, string_of_range, to_chars, white_space};
use vstd::prelude::*;

verus! {

/// A token of module text, as the printer sees it.
#[derive(Debug, PartialEq)]
pub enum Token {
    /// A comment from `;;` to the end of the line, without the two semicolons.
    LineComment(String),
    /// A comment between `(;` and `;)`, without those.
    BlockComment(String),
    /// A parenthesised form: the tokens between its parentheses.
    Parens(Vec<Token>),
    /// A string literal, without its quotes.
    StringLiteral(String),
    /// Any other token.
    Ident(String),
}

/// The mathematical value of a [`Token`].
pub enum TokenView {
    LineComment(Seq<char>),
    BlockComment(Seq<char>),
    Parens(Seq<TokenView>),
    StringLiteral(Seq<char>),
    Ident(Seq<char>),
}

/// The value of a token.
pub open spec fn token_view(token: Token) -> TokenView
    decreases token,
{
    match token {
        Token::LineComment(c) => TokenView::LineComment(c@),
        Token::BlockComment(c) => TokenView::BlockComment(c@),
        Token::Parens(children) => TokenView::Parens(tokens_view(children@)),
        Token::StringLiteral(s) => TokenView::StringLiteral(s@),
        Token::Ident(s) => TokenView::Ident(s@),
    }
}

/// The values of a run of tokens.
pub open spec fn tokens_view(tokens: Seq<Token>) -> Seq<TokenView>
    decreases tokens,
{
    if tokens.len() == 0 {
        Seq::empty()
    } else {
        tokens_view(tokens.drop_last()).push(token_view(tokens.last()))
    }
}

impl Token {
    /// The tokens of the form, only if the token is one.
    pub fn as_parens(&self) -> (r: Option<&Vec<Token>>)
        ensures
            match r {
                Some(items) => *self == Token::Parens(*items),
                None => !(self is Parens),
            },
    {
        match self {
            Token::Parens(items) => Some(items),
            _ => None,
        }
    }

    /// The text of the comment, only if the token is a block comment.
    pub fn as_block_comment(&self) -> (r: Option<&str>)
        ensures
            match r {
                Some(text) => self matches Token::BlockComment(comment) && text@ == comment@,
                None => !(self is BlockComment),
            },
    {
        match self {
            Token::BlockComment(comment) => Some(comment.as_str()),
            _ => None,
        }
    }

    /// The text of the comment, only if the token is a line comment.
    pub fn as_line_comment(&self) -> (r: Option<&str>)
        ensures
            match r {
                Some(text) => self matches Token::LineComment(comment) && text@ == comment@,
                None => !(self is LineComment),
            },
    {
        match self {
            Token::LineComment(comment) => Some(comment.as_str()),
            _ => None,
        }
    }

    /// The text of the token, only if it is a bare token.
    pub fn as_literal(&self) -> (r: Option<&str>)
        ensures
            match r {
                Some(text) => self matches Token::Ident(lit) && text@ == lit@,
                None => !(self is Ident),
            },
    {
        match self {
            Token::Ident(lit) => Some(lit.as_str()),
            _ => None,
        }
    }

    /// What stands between the quotes, only if the token is a string literal.
    pub fn as_string_lit(&self) -> (r: Option<&str>)
        ensures
            match r {
                Some(text) => self matches Token::StringLiteral(body) && text@ == body@,
                None => !(self is StringLiteral),
            },
    {
        match self {
            Token::StringLiteral(body) => Some(body.as_str()),
            _ => None,
        }
    }
}

impl View for Token {
    type V = TokenView;

    open spec fn view(&self) -> TokenView {
        token_view(*self)
    }
}

/// The values of a run of tokens are the values of its members, one for one.
pub proof fn lemma_tokens_view(tokens: Seq<Token>)
    ensures
        tokens_view(tokens).len() == tokens.len(),
        forall|i: int| 0 <= i < tokens.len() ==> #[trigger] tokens_view(tokens)[i] == token_view(tokens[i]),
    decreases tokens.len(),
{
    if tokens.len() > 0 {
        lemma_tokens_view(tokens.drop_last());
    }
}

/// The values of a run of tokens that grew by one.
pub proof fn lemma_tokens_view_push(tokens: Seq<Token>, token: Token)
    ensures
        tokens_view(tokens.push(token)) == tokens_view(tokens).push(token_view(token)),
{
    assert(tokens.push(token).drop_last() == tokens);
}

/// The first position at or behind `pos` that holds no white space.
pub open spec fn skip_space(s: Seq<char>, pos: int) -> int
    decreases s.len() - pos,
{
    if 0 <= pos < s.len() && white_space(s[pos]) {
        skip_space(s, pos + 1)
    } else {
        pos
    }
}

/// Skipping white space moves forward and stays inside the text.
pub proof fn lemma_skip_space(s: Seq<char>, pos: int)
    requires
        0 <= pos <= s.len(),
    ensures
        pos <= skip_space(s, pos) <= s.len(),
        skip_space(s, pos) < s.len() ==> !white_space(s[skip_space(s, pos)]),
    decreases s.len() - pos,
{
    if pos < s.len() && white_space(s[pos]) {
        lemma_skip_space(s, pos + 1);
    }
}

/// Where the bare token that holds `pos` ends, `level` parentheses being open inside
/// it: before white space, `)` or a comment outside parentheses of its own, or with the
/// text.
pub open spec fn literal_end(s: Seq<char>, pos: int, level: nat) -> int
    decreases s.len() - pos,
{
    if pos < 0 || pos >= s.len() {
        s.len() as int
    } else if level == 0 && (white_space(s[pos]) || starts_pair(s, pos, '(', ';') || starts_pair(s, pos, ';', ';')
        || s[pos] == ')') {
        pos
    } else if s[pos] == '(' {
        literal_end(s, pos + 1, level + 1)
    } else if s[pos] == ')' {
        literal_end(s, pos + 1, (level - 1) as nat)
    } else {
        literal_end(s, pos + 1, level)
    }
}

/// A bare token ends at or behind the position asked about, inside the text.
pub proof fn lemma_literal_end(s: Seq<char>, pos: int, level: nat)
    requires
        0 <= pos <= s.len(),
    ensures
        pos <= literal_end(s, pos, level) <= s.len(),
    decreases s.len() - pos,
{
    if pos < s.len() && !(level == 0 && (white_space(s[pos]) || starts_pair(s, pos, '(', ';') || starts_pair(
        s,
        pos,
        ';',
        ';',
    ) || s[pos] == ')')) {
        if s[pos] == '(' {
            lemma_literal_end(s, pos + 1, level + 1);
        } else if s[pos] == ')' {
            lemma_literal_end(s, pos + 1, (level - 1) as nat);
        } else {
            lemma_literal_end(s, pos + 1, level);
        }
    }
}

/// Where the first `;)` at or behind `pos` begins, if there is one.
pub open spec fn comment_close(s: Seq<char>, pos: int) -> Option<int>
    decreases s.len() - pos,
{
    if pos < 0 || pos >= s.len() {
        None
    } else if starts_pair(s, pos, ';', ')') {
        Some(pos)
    } else {
        comment_close(s, pos + 1)
    }
}

/// A block comment closes behind where its body begins, inside the text.
pub proof fn lemma_comment_close(s: Seq<char>, pos: int)
    requires
        0 <= pos,
    ensures
        comment_close(s, pos) matches Some(close) ==> pos <= close && close + 2 <= s.len(),
    decreases s.len() - pos,
{
    if pos < s.len() && !starts_pair(s, pos, ';', ')') {
        lemma_comment_close(s, pos + 1);
    }
}

/// The token that begins at `pos` and the position behind it.
///
/// `(;` begins a block comment, which has to be closed. `(` begins a form, which has to
/// be closed. `;;` begins a line comment, which ends with the line or with the text. `"`
/// begins a string literal, which has to be closed. Anything else is a bare token, which
/// is empty where the text ends or `)` stands.
pub open spec fn token_at(s: Seq<char>, pos: int) -> Result<(TokenView, int), ParseErrorView>
    decreases s.len() - pos, 0nat,
{
    if starts_pair(s, pos, '(', ';') {
        match comment_close(s, pos + 2) {
            None => Err(ParseErrorView::UnexpectedEOF),
            Some(close) => Ok((TokenView::BlockComment(s.subrange(pos + 2, close)), close + 2)),
        }
    } else if 0 <= pos < s.len() && s[pos] == '(' {
        match tokens_at(s, pos + 1) {
            Err(e) => Err(e),
            Ok((children, stop)) => if 0 <= stop < s.len() && s[stop] == ')' {
                Ok((TokenView::Parens(children), stop + 1))
            } else {
                Err(ParseErrorView::UnexpectedToken { expected: seq![')'], got: Seq::empty() })
            },
        }
    } else if starts_pair(s, pos, ';', ';') {
        let end = index_of(s, '\n', pos + 2);
        Ok(
            (
                TokenView::LineComment(s.subrange(pos + 2, end)),
                if end < s.len() {
                    end + 1
                } else {
                    end
                },
            ),
        )
    } else if 0 <= pos < s.len() && s[pos] == '"' {
        match string_end(s, pos + 1) {
            None => Err(ParseErrorView::UnexpectedEOF),
            Some(end) => Ok((TokenView::StringLiteral(s.subrange(pos + 1, end - 1)), end)),
        }
    } else {
        let end = literal_end(s, pos, 0);
        Ok((TokenView::Ident(s.subrange(pos, end)), end))
    }
}

/// The tokens from `pos` up to the `)` that closes their form, or to the end of the
/// text, and the position where they stop.
pub open spec fn tokens_at(s: Seq<char>, pos: int) -> Result<(Seq<TokenView>, int), ParseErrorView>
    decreases s.len() - pos, 1nat,
{
    if pos < 0 || pos >= s.len() || s[pos] == ')' {
        Ok((Seq::empty(), pos))
    } else {
        let start = skip_space(s, pos);
        proof {
            lemma_skip_space(s, pos);
        }
        match token_at(s, start) {
            Err(e) => Err(e),
            Ok((token, end)) => {
                let next = skip_space(s, end);
                // A token and the white space around it are never empty here, and end inside the text.
                if next <= pos || next > s.len() {
                    Err(ParseErrorView::UnexpectedEOF)
                } else {
                    match tokens_at(s, next) {
                        Err(e) => Err(e),
                        Ok((rest, stop)) => Ok((seq![token] + rest, stop)),
                    }
                }
            },
        }
    }
}

/// The tokens of a text, up to its end or to a `)` that closes nothing.
pub open spec fn tokenize(s: Seq<char>) -> Result<Seq<TokenView>, ParseErrorView> {
    match tokens_at(s, 0) {
        Err(e) => Err(e),
        Ok((tokens, _)) => Ok(tokens),
    }
}

/// A token ends behind where it begins, inside the text, unless it is the empty token at
/// the end of the text or before `)`.
pub proof fn lemma_token_at(s: Seq<char>, pos: int)
    requires
        0 <= pos <= s.len(),
    ensures
        token_at(s, pos) matches Ok((token, end)) ==> pos <= end <= s.len() && (pos < s.len() && !white_space(s[pos])
            && s[pos] != ')' ==> pos < end),
    decreases s.len() - pos, 0nat,
{
    if starts_pair(s, pos, '(', ';') {
        lemma_comment_close(s, pos + 2);
    } else if pos < s.len() && s[pos] == '(' {
        lemma_tokens_at(s, pos + 1);
    } else if starts_pair(s, pos, ';', ';') {
        lemma_index_of(s, '\n', pos + 2);
    } else if pos < s.len() && s[pos] == '"' {
        lemma_string_end(s, pos + 1);
    } else {
        lemma_literal_end(s, pos, 0);
        if pos < s.len() && !white_space(s[pos]) && s[pos] != ')' {
            if s[pos] == '(' {
                lemma_literal_end(s, pos + 1, 1);
            } else {
                lemma_literal_end(s, pos + 1, 0);
            }
        }
    }
}

/// Tokens stop behind where they begin, inside the text.
pub proof fn lemma_tokens_at(s: Seq<char>, pos: int)
    requires
        0 <= pos <= s.len(),
    ensures
        tokens_at(s, pos) matches Ok((tokens, stop)) ==> pos <= stop <= s.len(),
    decreases s.len() - pos, 1nat,
{
    if !(pos >= s.len() || s[pos] == ')') {
        let start = skip_space(s, pos);
        lemma_skip_space(s, pos);
        match token_at(s, start) {
            Err(e) => {},
            Ok((token, end)) => {
                let next = skip_space(s, end);
                if !(next <= pos || next > s.len()) {
                    lemma_tokens_at(s, next);
                }
            },
        }
    }
}

/// A cursor over the characters of the text to print.
pub struct Tokenizer {
    input: Vec<char>,
    pos: usize,
}

impl Tokenizer {
    #[verifier::type_invariant]
    spec fn inv(self) -> bool {
        self.pos <= self.input.len()
    }

    /// The text that the tokenizer reads.
    pub closed spec fn text(&self) -> Seq<char> {
        self.input@
    }

    /// A tokenizer at the start of `s`.
    pub fn new(s: &str) -> (tokenizer: Tokenizer)
        ensures
            tokenizer.text() == s@,
    {
        Tokenizer { input: to_chars(s), pos: 0 }
    }

    /// The tokens of the text.
    pub fn parse(&mut self) -> (r: Result<Vec<Token>, SWLError>)
        ensures
            final(self).text() == old(self).text(),
            match tokenize(old(self).text()) {
                Ok(tokens) => r matches Ok(found) && tokens_view(found@) == tokens,
                Err(e) => r matches Err(SWLError::ParserError(found)) && found@ == e,
            },
    {
        self.pos = 0;
        match self.parse_items(0) {
            Ok((tokens, stop)) => {
                self.pos = stop;
                Ok(tokens)
            },
            Err(e) => Err(SWLError::ParserError(e)),
        }
    }

    /// Whether `pos` is the end of the text.
    fn is_eof(&self, pos: usize) -> (r: bool)
        ensures
            r == (pos >= self.input.len()),
    {
        pos >= self.input.len()
    }

    /// Whether the text holds `a` at `pos`.
    fn is_next(&self, pos: usize, a: char) -> (r: bool)
        ensures
            r == (pos < self.input.len() && self.input@[pos as int] == a),
    {
        pos < self.input.len() && self.input[pos] == a
    }

    /// Whether the text holds `a` at `pos` and `b` behind it.
    fn is_next_pair(&self, pos: usize, a: char, b: char) -> (r: bool)
        ensures
            r == starts_pair(self.input@, pos as int, a, b),
    {
        pos < self.input.len() && self.input.len() - pos >= 2 && self.input[pos] == a && self.input[pos + 1] == b
    }

    /// Skips white space.
    fn eat_whitespace(&self, pos: usize) -> (end: usize)
        requires
            pos <= self.input.len(),
        ensures
            end == skip_space(self.input@, pos as int),
            pos <= end <= self.input.len(),
    {
        let mut cur: usize = pos;
        while cur < self.input.len() && self.input[cur].is_whitespace()
            invariant
                pos <= cur <= self.input.len(),
                skip_space(self.input@, pos as int) == skip_space(self.input@, cur as int),
            decreases self.input.len() - cur,
        {
            cur += 1;
        }
        cur
    }

    /// Reads a bare token.
    fn parse_literal(&self, pos: usize) -> (r: (String, usize))
        requires
            pos <= self.input.len(),
        ensures
            r.1 == literal_end(self.input@, pos as int, 0),
            pos <= r.1 <= self.input.len(),
            r.0@ == self.input@.subrange(pos as int, r.1 as int),
    {
        let mut cur: usize = pos;
        let mut level: usize = 0;
        while cur < self.input.len()
            invariant
                pos <= cur <= self.input.len(),
                level <= cur - pos,
                literal_end(self.input@, pos as int, 0) == literal_end(self.input@, cur as int, level as nat),
            decreases self.input.len() - cur,
        {
            let c = self.input[cur];
            if level == 0 && (c.is_whitespace() || self.is_next_pair(cur, '(', ';') || self.is_next_pair(cur, ';', ';')
                || c == ')') {
                return (string_of_range(&self.input, pos, cur), cur);
            }
            if c == '(' {
                level += 1;
            } else if c == ')' {
                level -= 1;
            }
            cur += 1;
        }
        (string_of_range(&self.input, pos, cur), cur)
    }

    /// Reads a string literal, which begins at `pos`.
    fn parse_string(&self, pos: usize) -> (r: Result<(String, usize), ParserError>)
        requires
            pos < self.input.len(),
        ensures
            match string_end(self.input@, pos + 1) {
                Some(end) => r matches Ok((body, e)) && e == end && pos + 1 < e <= self.input.len() && body@
                    == self.input@.subrange(pos + 1, end - 1),
                None => r matches Err(ParserError::UnexpectedEOF),
            },
    {
        let mut cur: usize = pos + 1;
        while cur < self.input.len()
            invariant
                pos < cur,
                string_end(self.input@, pos + 1) == string_end(self.input@, cur as int),
            decreases self.input.len() - cur,
        {
            let c = self.input[cur];
            if c == '"' {
                return Ok((string_of_range(&self.input, pos + 1, cur), cur + 1));
            }
            if c == '\\' {
                if self.input.len() - cur < 2 {
                    return Err(ParserError::UnexpectedEOF);
                }
                cur += 2;
            } else {
                cur += 1;
            }
        }
        Err(ParserError::UnexpectedEOF)
    }

    /// Reads a line comment, which begins at `pos`.
    fn parse_linecomment(&self, pos: usize) -> (r: (String, usize))
        requires
            starts_pair(self.input@, pos as int, ';', ';'),
        ensures
            r.0@ == self.input@.subrange(pos + 2, index_of(self.input@, '\n', pos + 2)),
            r.1 == if index_of(self.input@, '\n', pos + 2) < self.input.len() {
                index_of(self.input@, '\n', pos + 2) + 1
            } else {
                index_of(self.input@, '\n', pos + 2)
            },
            pos + 2 <= r.1 <= self.input.len(),
    {
        assert(pos + 2 <= self.input.len());
        let mut cur: usize = pos + 2;
        while cur < self.input.len() && self.input[cur] != '\n'
            invariant
                pos + 2 <= cur <= self.input.len(),
                index_of(self.input@, '\n', pos + 2) == index_of(self.input@, '\n', cur as int),
            decreases self.input.len() - cur,
        {
            cur += 1;
        }
        let body = string_of_range(&self.input, pos + 2, cur);
        if cur < self.input.len() {
            (body, cur + 1)
        } else {
            (body, cur)
        }
    }

    /// Reads a block comment, which begins at `pos`.
    fn parse_blockcomment(&self, pos: usize) -> (r: Result<(String, usize), ParserError>)
        requires
            starts_pair(self.input@, pos as int, '(', ';'),
        ensures
            match comment_close(self.input@, pos + 2) {
                Some(close) => r matches Ok((body, e)) && e == close + 2 && pos + 2 < e <= self.input.len() && body@
                    == self.input@.subrange(pos + 2, close),
                None => r matches Err(ParserError::UnexpectedEOF),
            },
    {
        assert(pos + 2 <= self.input.len());
        let mut cur: usize = pos + 2;
        while cur < self.input.len()
            invariant
                pos + 2 <= cur <= self.input.len(),
                comment_close(self.input@, pos + 2) == comment_close(self.input@, cur as int),
            decreases self.input.len() - cur,
        {
            if self.is_next_pair(cur, ';', ')') {
                return Ok((string_of_range(&self.input, pos + 2, cur), cur + 2));
            }
            cur += 1;
        }
        Err(ParserError::UnexpectedEOF)
    }

    /// Reads a form, which begins at `pos`.
    fn parse_parens(&self, pos: usize) -> (r: Result<(Vec<Token>, usize), ParserError>)
        requires
            pos < self.input.len(),
            self.input@[pos as int] == '(',
            !starts_pair(self.input@, pos as int, '(', ';'),
        ensures
            match token_at(self.input@, pos as int) {
                Ok((token, end)) => r matches Ok((children, e)) && e == end && pos < e <= self.input.len()
                    && TokenView::Parens(tokens_view(children@)) == token,
                Err(error) => r matches Err(found) && found@ == error,
            },
        decreases self.input.len() - pos, 0nat,
    {
        let (children, stop) = self.parse_items(pos + 1)?;
        if !self.is_next(stop, ')') {
            let mut expected = String::new();
            expected.push(')');
            assert(expected@ == seq![')']);
            return Err(ParserError::UnexpectedToken { expected, got: String::new() });
        }
        Ok((children, stop + 1))
    }

    /// Reads the token at `pos`.
    fn parse_item(&self, pos: usize) -> (r: Result<(Token, usize), ParserError>)
        requires
            pos <= self.input.len(),
        ensures
            match token_at(self.input@, pos as int) {
                Ok((token, end)) => r matches Ok((found, e)) && e == end && pos <= e <= self.input.len() && found@
                    == token,
                Err(error) => r matches Err(found) && found@ == error,
            },
        decreases self.input.len() - pos, 1nat,
    {
        proof {
            lemma_token_at(self.input@, pos as int);
        }
        if self.is_next_pair(pos, '(', ';') {
            let (body, end) = self.parse_blockcomment(pos)?;
            Ok((Token::BlockComment(body), end))
        } else if self.is_next(pos, '(') {
            let (children, end) = self.parse_parens(pos)?;
            Ok((Token::Parens(children), end))
        } else if self.is_next_pair(pos, ';', ';') {
            let (body, end) = self.parse_linecomment(pos);
            Ok((Token::LineComment(body), end))
        } else if self.is_next(pos, '"') {
            let (body, end) = self.parse_string(pos)?;
            Ok((Token::StringLiteral(body), end))
        } else {
            let (body, end) = self.parse_literal(pos);
            Ok((Token::Ident(body), end))
        }
    }

    /// Reads the tokens from `pos` up to `)` or to the end of the text.
    #[verifier::loop_isolation(false)]
    fn parse_items(&self, pos: usize) -> (r: Result<(Vec<Token>, usize), ParserError>)
        requires
            pos <= self.input.len(),
        ensures
            match tokens_at(self.input@, pos as int) {
                Ok((tokens, stop)) => r matches Ok((found, e)) && e == stop && pos <= e <= self.input.len()
                    && tokens_view(found@) == tokens,
                Err(error) => r matches Err(found) && found@ == error,
            },
        decreases self.input.len() - pos, 2nat,
    {
        let ghost s = self.input@;
        let mut items: Vec<Token> = Vec::new();
        let mut cur: usize = pos;
        while !self.is_eof(cur) && !self.is_next(cur, ')')
            invariant
                pos <= cur <= self.input.len(),
                tokens_at(s, pos as int) == match tokens_at(s, cur as int) {
                    Ok((rest, stop)) => Ok((tokens_view(items@) + rest, stop)),
                    Err(e) => Err(e),
                },
            decreases self.input.len() - cur,
        {
            let start = self.eat_whitespace(cur);
            let (token, end) = match self.parse_item(start) {
                Err(e) => {
                    return Err(e);
                },
                Ok(found) => found,
            };
            let next = self.eat_whitespace(end);
            proof {
                lemma_skip_space(s, cur as int);
                lemma_token_at(s, start as int);
                assert(next > cur);
                lemma_tokens_view_push(items@, token);
                let done = tokens_view(items@);
                assert forall|rest: Seq<TokenView>| #[trigger] (done.push(token@) + rest) == done + (seq![token@] + rest) by {
                    assert((done.push(token@) + rest) =~= done + (seq![token@] + rest));
                }
            }
            items.push(token);
            cur = next;
        }
        proof {
            assert(tokens_view(items@) + Seq::<TokenView>::empty() == tokens_view(items@));
        }
        Ok((items, cur))
    }
}

} // verus!
verus! {

/// What the printer has written: the text, and how many line feeds it has put behind the
/// last token.
pub struct Page {
    pub text: Seq<char>,
    pub newlines: nat,
}

/// The page with `v` written behind it.
pub open spec fn emit(p: Page, v: Seq<char>) -> Page {
    Page { text: p.text + v, newlines: 0 }
}

/// `n` line feeds.
pub open spec fn line_feeds(n: nat) -> Seq<char> {
    Seq::new(n, |i: int| '\n')
}

/// The page with as many line feeds behind the last token as make `n` of them.
pub open spec fn emit_newlines(p: Page, n: nat) -> Page {
    if p.newlines < n {
        Page { text: p.text + line_feeds((n - p.newlines) as nat), newlines: n }
    } else {
        p
    }
}

/// The text without the line feeds at its end.
pub open spec fn without_newlines(s: Seq<char>) -> Seq<char>
    decreases s.len(),
{
    if s.len() > 0 && s.last() == '\n' {
        without_newlines(s.drop_last())
    } else {
        s
    }
}

/// The page without the line feeds at its end.
pub open spec fn undo_newlines(p: Page) -> Page {
    Page { text: without_newlines(p.text), newlines: p.newlines }
}

/// The first position before `end` behind which only white space stands up to `end`.
pub open spec fn back_space(s: Seq<char>, end: int) -> int
    decreases end,
{
    if 0 < end <= s.len() && white_space(s[end - 1]) {
        back_space(s, end - 1)
    } else {
        end
    }
}

/// Whether the text holds white space only.
pub open spec fn is_blank(s: Seq<char>) -> bool {
    skip_space(s, 0) >= s.len()
}

/// The text without the white space at its ends.
pub open spec fn trimmed(s: Seq<char>) -> Seq<char> {
    if is_blank(s) {
        Seq::empty()
    } else {
        s.subrange(skip_space(s, 0), back_space(s, s.len() as int))
    }
}

/// The lines of the text from `pos` on: what stands between its line feeds.
pub open spec fn lines_from(s: Seq<char>, pos: int) -> Seq<Seq<char>>
    decreases s.len() - pos,
{
    let end = index_of(s, '\n', pos);
    if pos < 0 || end >= s.len() || end < pos {
        seq![s.subrange(pos, s.len() as int)]
    } else {
        seq![s.subrange(pos, end)] + lines_from(s, end + 1)
    }
}

/// The lines without the blank ones in front.
pub open spec fn without_blank_front(lines: Seq<Seq<char>>) -> Seq<Seq<char>>
    decreases lines.len(),
{
    if lines.len() > 0 && is_blank(lines[0]) {
        without_blank_front(lines.drop_first())
    } else {
        lines
    }
}

/// The lines without the blank ones at the end.
pub open spec fn without_blank_back(lines: Seq<Seq<char>>) -> Seq<Seq<char>>
    decreases lines.len(),
{
    if lines.len() > 0 && is_blank(lines.last()) {
        without_blank_back(lines.drop_last())
    } else {
        lines
    }
}

/// The lines of a block comment that are printed: all but the blank ones at its ends.
pub open spec fn comment_lines(comment: Seq<char>) -> Seq<Seq<char>> {
    without_blank_back(without_blank_front(lines_from(comment, 0)))
}

/// The lines of a block comment that spans lines, each trimmed, behind `indent`, with a
/// line feed.
pub open spec fn indented_lines(lines: Seq<Seq<char>>, from: int, indent: Seq<char>) -> Seq<char>
    decreases lines.len() - from,
{
    if from < 0 || from >= lines.len() {
        Seq::empty()
    } else {
        indent + trimmed(lines[from]) + seq!['\n'] + indented_lines(lines, from + 1, indent)
    }
}

/// A block comment as it is printed at the indentation `indent`: on one line as
/// `(; text ;)`, over several lines as `(;`, its lines one tab deeper, and `;)`.
pub open spec fn block_comment_text(comment: Seq<char>, indent: Seq<char>) -> Seq<char> {
    let lines = comment_lines(comment);
    if lines.len() > 1 {
        "(;\n"@ + indented_lines(lines, 0, indent.push('\t')) + indent + ";)"@
    } else if lines.len() == 1 {
        "(; "@ + trimmed(lines[0]) + " "@ + ";)"@
    } else {
        "(; "@ + " "@ + ";)"@
    }
}

/// A line comment as it is printed: `;;`, and behind a space the comment without the
/// white space character that it begins with, unless nothing else is left of it.
pub open spec fn line_comment_text(comment: Seq<char>) -> Seq<char> {
    let body = if comment.len() > 0 && white_space(comment[0]) {
        comment.drop_first()
    } else {
        comment
    };
    if is_blank(body) {
        ";;"@
    } else {
        ";;"@ + " "@ + body
    }
}

/// The text with a comma in place of each line feed.
pub open spec fn with_commas(s: Seq<char>) -> Seq<char> {
    Seq::new(
        s.len(),
        |i: int|
            if s[i] == '\n' {
                ','
            } else {
                s[i]
            },
    )
}

/// A token as it is printed on one line.
pub open spec fn flat(t: TokenView) -> Seq<char>
    decreases t, 0nat,
{
    match t {
        TokenView::Parens(items) => seq!['('] + flat_from(items, 0) + seq![')'],
        TokenView::Ident(lit) => lit,
        TokenView::BlockComment(comment) => "(; "@ + trimmed(with_commas(comment)) + " ;)"@,
        TokenView::LineComment(comment) => ");; "@ + comment + seq!['\n'],
        TokenView::StringLiteral(s) => seq!['"'] + s + seq!['"'],
    }
}

/// The tokens from place `from` on as they are printed on one line, with a space
/// between two of them.
pub open spec fn flat_from(items: Seq<TokenView>, from: int) -> Seq<char>
    decreases items, items.len() - from,
{
    if from < 0 || from >= items.len() {
        Seq::empty()
    } else {
        flat(items[from]) + (if from < items.len() - 1 {
            seq![' ']
        } else {
            Seq::empty()
        }) + flat_from(items, from + 1)
    }
}

/// Whether the first of the tokens is the bare token `name`.
pub open spec fn is_headed(items: Seq<TokenView>, name: Seq<char>) -> bool {
    items.len() > 0 && items[0] == TokenView::Ident(name)
}

/// Whether a form with these tokens is always printed on one line: its head is one of
/// `param`, `local`, `export`, `table`, `memory`, `import` and `global`.
pub open spec fn is_single_line_kind(items: Seq<TokenView>) -> bool {
    is_headed(items, "param"@) || is_headed(items, "local"@) || is_headed(items, "export"@) || is_headed(
        items,
        "table"@,
    ) || is_headed(items, "memory"@) || is_headed(items, "import"@) || is_headed(items, "global"@)
}

/// Whether the tokens are at most two, bare ones both.
pub open spec fn is_simple(items: Seq<TokenView>) -> bool {
    items.len() <= 2 && (items.len() > 0 ==> items[0] is Ident) && (items.len() > 1 ==> items[1] is Ident)
}

/// Whether the token stays on the line on which a function begins: a name that begins
/// with `$`, an export, an import, or a comment.
pub open spec fn is_first_line(t: TokenView) -> bool {
    match t {
        TokenView::Ident(lit) => lit.len() > 0 && lit[0] == '$',
        TokenView::Parens(items) => is_headed(items, "export"@) || is_headed(items, "import"@),
        TokenView::BlockComment(_) => true,
        TokenView::LineComment(_) => true,
        TokenView::StringLiteral(_) => false,
    }
}

/// Whether the token is a comment.
pub open spec fn is_comment(t: TokenView) -> bool {
    t is BlockComment || t is LineComment
}

/// Whether the token is a function: a form headed by `func`.
pub open spec fn is_func(t: TokenView) -> bool {
    t matches TokenView::Parens(items) && is_headed(items, "func"@)
}

/// The place behind the tokens from `from` on that stay on the first line of a function.
pub open spec fn first_line_end(items: Seq<TokenView>, from: int) -> int
    decreases items.len() - from,
{
    if 0 <= from < items.len() && is_first_line(items[from]) {
        first_line_end(items, from + 1)
    } else {
        from
    }
}

/// The tokens from `from` up to `to`, each on one line behind a space.
pub open spec fn spaced(items: Seq<TokenView>, from: int, to: int) -> Seq<char>
    decreases to - from,
{
    if from < 0 || from >= to || to > items.len() {
        Seq::empty()
    } else {
        seq![' '] + flat(items[from]) + spaced(items, from + 1, to)
    }
}

/// Whether the header of a form goes on behind the token at place `i`: that token is
/// `core` or `canon`, or the next one is a name that begins with `$` or a string literal.
pub open spec fn continues(items: Seq<TokenView>, i: int) -> bool {
    ||| items[i] == TokenView::Ident("core"@)
    ||| items[i] == TokenView::Ident("canon"@)
    ||| (i + 1 < items.len() && (items[i + 1] matches TokenView::Ident(lit) && lit.len() > 0 && lit[0] == '$'))
    ||| (i + 1 < items.len() && items[i + 1] is StringLiteral)
}

/// The place behind the header of a form whose tokens from `from` on are still to print.
pub open spec fn header_end(items: Seq<TokenView>, from: int) -> int
    decreases items.len() - from,
{
    if from < 0 || from >= items.len() {
        items.len() as int
    } else if continues(items, from) {
        header_end(items, from + 1)
    } else {
        from + 1
    }
}

/// A token as it is printed at the indentation `indent`.
pub open spec fn rendered(t: TokenView, indent: Seq<char>) -> Seq<char>
    decreases t, 0nat,
{
    match t {
        TokenView::BlockComment(comment) => block_comment_text(comment, indent),
        TokenView::LineComment(comment) => line_comment_text(comment),
        TokenView::Ident(lit) => lit,
        TokenView::Parens(items) => rendered_parens(items, indent),
        TokenView::StringLiteral(_) => flat(t),
    }
}

/// A form as it is printed at the indentation `indent`: on one line where its kind or
/// its size asks for that, as a function or a component where it is headed so, and else
/// with its header on the first line and one token on each line that follows.
pub open spec fn rendered_parens(items: Seq<TokenView>, indent: Seq<char>) -> Seq<char>
    decreases items, items.len() + 2,
{
    if is_single_line_kind(items) || is_simple(items) {
        flat(TokenView::Parens(items))
    } else if is_headed(items, "func"@) {
        rendered_func(items, indent)
    } else if is_headed(items, "component"@) {
        rendered_component(items, indent)
    } else {
        rendered_generic(items, indent)
    }
}

/// The tokens from `from` on, each on a line of its own at the indentation `indent`:
/// one line feed before the token at `first`, `gap` line feeds before each other one.
pub open spec fn lines(items: Seq<TokenView>, first: int, from: int, indent: Seq<char>, gap: nat) -> Seq<char>
    decreases items, items.len() - from,
{
    if from < 0 || from >= items.len() {
        Seq::empty()
    } else {
        line_feeds(
            if from == first {
                1
            } else {
                gap
            },
        ) + indent + rendered(items[from], indent) + lines(items, first, from + 1, indent, gap)
    }
}

/// A function as it is printed: its head, what stays on the first line, then each other
/// token on a line of its own, one tab deeper. No line feed stands before the closing
/// parenthesis.
pub open spec fn rendered_func(items: Seq<TokenView>, indent: Seq<char>) -> Seq<char>
    decreases items, items.len() + 1,
{
    let k = first_line_end(items, 1);
    if 1 <= k <= items.len() {
        without_newlines("("@ + "func"@ + spaced(items, 1, k) + lines(items, k, k, indent.push('\t'), 1)) + ")"@
    } else {
        "("@ + "func"@ + ")"@
    }
}

/// A component as it is printed: its head, then each other token on a line of its own,
/// one tab deeper, with an empty line between two of them.
pub open spec fn rendered_component(items: Seq<TokenView>, indent: Seq<char>) -> Seq<char>
    decreases items, items.len() + 1,
{
    if 1 <= items.len() {
        without_newlines("("@ + "component"@ + lines(items, 1, 1, indent.push('\t'), 2)) + ")"@
    } else {
        "("@ + "component"@ + ")"@
    }
}

/// The header of a form: the tokens from `from` on, with a space behind each one behind
/// which the header goes on.
pub open spec fn header_text(items: Seq<TokenView>, from: int, indent: Seq<char>) -> Seq<char>
    decreases items, items.len() - from,
{
    if from < 0 || from >= items.len() {
        Seq::empty()
    } else if continues(items, from) {
        rendered(items[from], indent) + " "@ + header_text(items, from + 1, indent)
    } else {
        rendered(items[from], indent)
    }
}

/// The line feeds before the token at place `at` behind a header of `header` tokens:
/// two, which leaves an empty line, behind a function, and before a function that is
/// not the first token behind the header, unless the token `header` places before it is
/// a comment. One otherwise.
pub open spec fn body_gap(items: Seq<TokenView>, at: int, header: int) -> nat {
    if (at > header && is_func(items[at - 1])) || (is_func(items[at]) && at - header > 0 && !is_comment(
        items[at - header],
    )) {
        2
    } else {
        1
    }
}

/// The tokens behind the header, from `from` on, each on a line of its own.
pub open spec fn body_text(items: Seq<TokenView>, from: int, header: int, indent: Seq<char>) -> Seq<char>
    decreases items, items.len() - from,
{
    if from < 0 || from >= items.len() || header < 0 || header > from {
        Seq::empty()
    } else {
        line_feeds(body_gap(items, from, header)) + indent + rendered(items[from], indent) + body_text(
            items,
            from + 1,
            header,
            indent,
        )
    }
}

/// A form as it is printed in the general way: its header on the first line, then each
/// other token on a line of its own, one tab deeper. No line feed stands before the
/// closing parenthesis.
pub open spec fn rendered_generic(items: Seq<TokenView>, indent: Seq<char>) -> Seq<char>
    decreases items, items.len() + 1,
{
    let inner = indent.push('\t');
    let header = header_end(items, 0);
    if 0 <= header <= items.len() {
        without_newlines("("@ + header_text(items, 0, inner) + body_text(items, header, header, inner)) + ")"@
    } else {
        "("@ + ")"@
    }
}

/// The tokens of a text from place `from` on, each as it is printed, with one line feed
/// between two of them.
pub open spec fn layout_from(tokens: Seq<TokenView>, from: int) -> Seq<char>
    decreases tokens.len() - from,
{
    if from < 0 || from >= tokens.len() {
        Seq::empty()
    } else {
        rendered(tokens[from], Seq::empty()) + (if from < tokens.len() - 1 {
            seq!['\n']
        } else {
            Seq::empty()
        }) + layout_from(tokens, from + 1)
    }
}

/// The tokens of a text, laid out.
pub open spec fn layout(tokens: Seq<TokenView>) -> Seq<char> {
    layout_from(tokens, 0)
}

/// The text of a module, laid out.
pub open spec fn pretty(code: Seq<char>) -> Result<Seq<char>, ErrorView> {
    match tokenize(code) {
        Ok(tokens) => Ok(layout(tokens)),
        Err(e) => Err(ErrorView::Parser(e)),
    }
}

/// Line feeds behind a text leave no trace when the line feeds at its end are taken away.
pub proof fn lemma_without_fed_newlines(s: Seq<char>, n: nat)
    ensures
        without_newlines(s + line_feeds(n)) == without_newlines(s),
    decreases n,
{
    if n == 0 {
        assert(s + line_feeds(0) =~= s);
    } else {
        let fed = s + line_feeds(n);
        assert(fed.last() == '\n');
        assert(fed.drop_last() =~= s + line_feeds((n - 1) as nat));
        lemma_without_fed_newlines(s, (n - 1) as nat);
    }
}

/// Taking the line feeds at the end away does not reach before a text that begins with
/// something else.
pub proof fn lemma_without_newlines_behind(a: Seq<char>, x: Seq<char>)
    requires
        x.len() > 0,
        x[0] != '\n',
    ensures
        without_newlines(a + x) == a + without_newlines(x),
        without_newlines(x).len() > 0,
        without_newlines(x)[0] == x[0],
    decreases x.len(),
{
    if x.last() == '\n' {
        assert(x.len() > 1);
        assert((a + x).last() == '\n');
        assert((a + x).drop_last() =~= a + x.drop_last());
        lemma_without_newlines_behind(a, x.drop_last());
    } else {
        assert((a + x).last() == x.last());
    }
}

/// Line feeds and more line feeds are line feeds.
pub proof fn lemma_line_feeds_add(a: nat, b: nat)
    ensures
        line_feeds(a) + line_feeds(b) == line_feeds(a + b),
{
    assert(line_feeds(a) + line_feeds(b) =~= line_feeds(a + b));
}

} // verus!
verus! {

/// The values of a run of lines.
pub open spec fn rows(lines: Seq<Vec<char>>) -> Seq<Seq<char>> {
    Seq::new(lines.len(), |i: int| lines[i]@)
}

/// Appends `chars` to `out`.
fn push_chars(out: &mut Vec<char>, chars: &Vec<char>)
    ensures
        final(out)@ == old(out)@ + chars@,
{
    let mut i: usize = 0;
    while i < chars.len()
        invariant
            i <= chars.len(),
            out@ == old(out)@ + chars@.take(i as int),
        decreases chars.len() - i,
    {
        out.push(chars[i]);
        assert(chars@.take(i + 1) == chars@.take(i as int).push(chars@[i as int]));
        i += 1;
    }
    assert(chars@.take(chars@.len() as int) == chars@);
}

/// Appends the characters of `s` to `out`.
fn push_str(out: &mut Vec<char>, s: &str)
    ensures
        final(out)@ == old(out)@ + s@,
{
    let chars = to_chars(s);
    push_chars(out, &chars);
}

/// Whether the text holds white space only.
fn is_blank_text(chars: &Vec<char>) -> (r: bool)
    ensures
        r == is_blank(chars@),
{
    let mut i: usize = 0;
    while i < chars.len() && chars[i].is_whitespace()
        invariant
            i <= chars.len(),
            skip_space(chars@, 0) == skip_space(chars@, i as int),
        decreases chars.len() - i,
    {
        i += 1;
    }
    i >= chars.len()
}

/// The text without the white space at its ends.
fn trim(chars: &Vec<char>) -> (r: Vec<char>)
    ensures
        r@ == trimmed(chars@),
{
    let mut start: usize = 0;
    while start < chars.len() && chars[start].is_whitespace()
        invariant
            start <= chars.len(),
            skip_space(chars@, 0) == skip_space(chars@, start as int),
        decreases chars.len() - start,
    {
        start += 1;
    }
    let mut r: Vec<char> = Vec::new();
    if start >= chars.len() {
        return r;
    }
    let mut end: usize = chars.len();
    while end > start + 1 && chars[end - 1].is_whitespace()
        invariant
            start < end <= chars.len(),
            !white_space(chars@[start as int]),
            back_space(chars@, chars@.len() as int) == back_space(chars@, end as int),
        decreases end,
    {
        end -= 1;
    }
    let mut i: usize = start;
    while i < end
        invariant
            start <= i <= end <= chars.len(),
            r@ == chars@.subrange(start as int, i as int),
        decreases end - i,
    {
        r.push(chars[i]);
        assert(chars@.subrange(start as int, i + 1) == chars@.subrange(start as int, i as int).push(chars@[i as int]));
        i += 1;
    }
    r
}

/// The lines of the text.
fn split_lines(chars: &Vec<char>) -> (lines: Vec<Vec<char>>)
    ensures
        rows(lines@) == lines_from(chars@, 0),
{
    let mut lines: Vec<Vec<char>> = Vec::new();
    let mut line: Vec<char> = Vec::new();
    let mut start: usize = 0;
    let mut i: usize = 0;
    assert(rows(lines@) =~= Seq::<Seq<char>>::empty());
    while i < chars.len()
        invariant
            start <= i <= chars.len(),
            line@ == chars@.subrange(start as int, i as int),
            index_of(chars@, '\n', start as int) == index_of(chars@, '\n', i as int),
            lines_from(chars@, 0) == rows(lines@) + lines_from(chars@, start as int),
        decreases chars.len() - i,
    {
        if chars[i] == '\n' {
            let ghost before = rows(lines@);
            proof {
                lemma_index_of(chars@, '\n', (i + 1) as int);
            }
            lines.push(line);
            assert(rows(lines@) =~= before.push(chars@.subrange(start as int, i as int)));
            assert(before + (seq![chars@.subrange(start as int, i as int)] + lines_from(chars@, i + 1)) =~= rows(lines@)
                + lines_from(chars@, i + 1));
            line = Vec::new();
            start = i + 1;
        } else {
            line.push(chars[i]);
            assert(chars@.subrange(start as int, i + 1) == chars@.subrange(start as int, i as int).push(chars@[i as int]));
        }
        i += 1;
    }
    let ghost before = rows(lines@);
    lines.push(line);
    assert(rows(lines@) =~= before.push(chars@.subrange(start as int, chars@.len() as int)));
    assert(before + seq![chars@.subrange(start as int, chars@.len() as int)] =~= rows(lines@));
    lines
}

/// Drops the blank lines at both ends.
fn trim_empty_lines(lines: &mut Vec<Vec<char>>)
    ensures
        rows(final(lines)@) == without_blank_back(without_blank_front(rows(old(lines)@))),
{
    while lines.len() > 0 && is_blank_text(&lines[0])
        invariant
            without_blank_front(rows(old(lines)@)) == without_blank_front(rows(lines@)),
        decreases lines.len(),
    {
        let ghost before = rows(lines@);
        lines.remove(0);
        assert(rows(lines@) =~= before.drop_first());
    }
    let ghost front = rows(lines@);
    while lines.len() > 0 && is_blank_text(&lines[lines.len() - 1])
        invariant
            front == without_blank_front(rows(old(lines)@)),
            without_blank_back(front) == without_blank_back(rows(lines@)),
        decreases lines.len(),
    {
        let ghost before = rows(lines@);
        lines.pop();
        assert(rows(lines@) =~= before.drop_last());
    }
}

/// Writes a block comment as it is printed at the indentation `indent`.
fn write_block_comment(out: &mut Vec<char>, comment: &str, indent: &Vec<char>)
    ensures
        final(out)@ == old(out)@ + block_comment_text(comment@, indent@),
{
    let chars = to_chars(comment);
    let mut lines = split_lines(&chars);
    trim_empty_lines(&mut lines);
    let ghost views = rows(lines@);
    assert(views == comment_lines(comment@));
    let ghost start = out@;
    if lines.len() > 1 {
        push_str(out, "(;\n");
        let mut inner: Vec<char> = Vec::new();
        push_chars(&mut inner, indent);
        inner.push('\t');
        assert(inner@ =~= indent@.push('\t'));
        let ghost head = out@;
        let mut i: usize = 0;
        while i < lines.len()
            invariant
                i <= lines.len(),
                views == rows(lines@),
                inner@ == indent@.push('\t'),
                out@ + indented_lines(views, i as int, inner@) == head + indented_lines(views, 0, inner@),
            decreases lines.len() - i,
        {
            let ghost before = out@;
            push_chars(out, &inner);
            let line = trim(&lines[i]);
            push_chars(out, &line);
            out.push('\n');
            assert(views[i as int] == lines@[i as int]@);
            assert(out@ + indented_lines(views, i + 1, inner@) =~= before + indented_lines(views, i as int, inner@));
            i += 1;
        }
        assert(out@ =~= head + indented_lines(views, 0, inner@));
        push_chars(out, indent);
        push_str(out, ";)");
        assert(out@ =~= start + block_comment_text(comment@, indent@));
    } else {
        push_str(out, "(; ");
        if lines.len() == 1 {
            let line = trim(&lines[0]);
            push_chars(out, &line);
            assert(views[0] == lines@[0]@);
        }
        push_str(out, " ");
        push_str(out, ";)");
        assert(out@ =~= start + block_comment_text(comment@, indent@));
    }
}

/// Writes a line comment as it is printed.
fn write_line_comment(out: &mut Vec<char>, comment: &str)
    ensures
        final(out)@ == old(out)@ + line_comment_text(comment@),
{
    let chars = to_chars(comment);
    let ghost start = out@;
    push_str(out, ";;");
    let from: usize = if chars.len() > 0 && chars[0].is_whitespace() {
        1
    } else {
        0
    };
    let mut body: Vec<char> = Vec::new();
    let mut i: usize = from;
    while i < chars.len()
        invariant
            from <= i <= chars.len(),
            body@ == chars@.subrange(from as int, i as int),
        decreases chars.len() - i,
    {
        body.push(chars[i]);
        assert(chars@.subrange(from as int, i + 1) == chars@.subrange(from as int, i as int).push(chars@[i as int]));
        i += 1;
    }
    assert(from == 1 ==> body@ =~= chars@.drop_first());
    assert(from == 0 ==> body@ =~= chars@);
    if !is_blank_text(&body) {
        push_str(out, " ");
        push_chars(out, &body);
    }
    assert(out@ =~= start + line_comment_text(comment@));
}

/// Writes a token as it is printed on one line.
#[verifier::loop_isolation(false)]
fn write_flat(out: &mut Vec<char>, item: &Token)
    ensures
        final(out)@ == old(out)@ + flat(item@),
    decreases item,
{
    let ghost start = out@;
    match item {
        Token::Parens(items) => {
            let ghost views = tokens_view(items@);
            proof {
                lemma_tokens_view(items@);
            }
            out.push('(');
            let ghost head = out@;
            let mut i: usize = 0;
            while i < items.len()
                invariant
                    i <= items.len(),
                    views == tokens_view(items@),
                    views.len() == items.len(),
                    forall|j: int| 0 <= j < items.len() ==> #[trigger] views[j] == token_view(items@[j]),
                    out@ + flat_from(views, i as int) == head + flat_from(views, 0),
                decreases items.len() - i,
            {
                let ghost before = out@;
                write_flat(out, &items[i]);
                if i < items.len() - 1 {
                    out.push(' ');
                }
                assert(out@ + flat_from(views, i + 1) =~= before + flat_from(views, i as int));
                i += 1;
            }
            assert(out@ =~= head + flat_from(views, 0));
            out.push(')');
            assert(out@ =~= start + flat(item@));
        },
        Token::Ident(lit) => {
            push_str(out, lit.as_str());
        },
        Token::BlockComment(comment) => {
            let chars = to_chars(comment.as_str());
            let mut joined: Vec<char> = Vec::new();
            let mut i: usize = 0;
            while i < chars.len()
                invariant
                    i <= chars.len(),
                    joined@ == with_commas(chars@).take(i as int),
                decreases chars.len() - i,
            {
                if chars[i] == '\n' {
                    joined.push(',');
                } else {
                    joined.push(chars[i]);
                }
                assert(with_commas(chars@).take(i + 1) =~= with_commas(chars@).take(i as int).push(
                    with_commas(chars@)[i as int],
                ));
                i += 1;
            }
            assert(with_commas(chars@).take(chars@.len() as int) =~= with_commas(chars@));
            let text = trim(&joined);
            push_str(out, "(; ");
            push_chars(out, &text);
            push_str(out, " ;)");
            assert(out@ =~= start + flat(item@));
        },
        Token::LineComment(comment) => {
            push_str(out, ");; ");
            push_str(out, comment.as_str());
            out.push('\n');
            assert(out@ =~= start + flat(item@));
        },
        Token::StringLiteral(s) => {
            out.push('"');
            push_str(out, s.as_str());
            out.push('"');
            assert(out@ =~= start + flat(item@));
        },
    }
}

/// Whether the first of the tokens is the bare token `ident`.
fn is_parens_with_ident(items: &Vec<Token>, ident: &str) -> (r: bool)
    ensures
        r == is_headed(tokens_view(items@), ident@),
{
    proof {
        lemma_tokens_view(items@);
    }
    if items.len() == 0 {
        return false;
    }
    match items[0].as_literal() {
        Some(lit) => crate::text::text_eq(lit, ident),
        None => false,
    }
}

/// Whether a form with these tokens is always printed on one line.
fn is_single_line_node_type(items: &Vec<Token>) -> (r: bool)
    ensures
        r == is_single_line_kind(tokens_view(items@)),
{
    is_parens_with_ident(items, "param") || is_parens_with_ident(items, "local") || is_parens_with_ident(
        items,
        "export",
    ) || is_parens_with_ident(items, "table") || is_parens_with_ident(items, "memory") || is_parens_with_ident(
        items,
        "import",
    ) || is_parens_with_ident(items, "global")
}

/// Whether the tokens are at most two, bare ones both.
fn has_at_most_one_simple_attribute(items: &Vec<Token>) -> (r: bool)
    ensures
        r == is_simple(tokens_view(items@)),
{
    proof {
        lemma_tokens_view(items@);
    }
    if items.len() > 2 {
        return false;
    }
    let first = if items.len() > 0 {
        match &items[0] {
            Token::Ident(_) => true,
            _ => false,
        }
    } else {
        true
    };
    let second = if items.len() > 1 {
        match &items[1] {
            Token::Ident(_) => true,
            _ => false,
        }
    } else {
        true
    };
    first && second
}

/// Whether the token is a name that begins with `$`.
fn is_id(item: &Token) -> (r: bool)
    ensures
        r == (item@ matches TokenView::Ident(lit) && lit.len() > 0 && lit[0] == '$'),
{
    match item {
        Token::Ident(lit) => crate::utils::first_char_is(lit.as_str(), '$'),
        _ => false,
    }
}

/// Whether the token stays on the line on which a function begins.
fn is_function_first_line_item(item: &Token) -> (r: bool)
    ensures
        r == is_first_line(item@),
{
    match item {
        Token::Ident(_) => is_id(item),
        Token::Parens(items) => is_parens_with_ident(items, "export") || is_parens_with_ident(items, "import"),
        Token::BlockComment(_) => true,
        Token::LineComment(_) => true,
        Token::StringLiteral(_) => false,
    }
}

/// Whether the token is a function.
fn is_func_item(item: &Token) -> (r: bool)
    ensures
        r == is_func(item@),
{
    match item.as_parens() {
        Some(items) => is_parens_with_ident(items, "func"),
        None => false,
    }
}

/// Whether the token is a comment.
fn is_comment_item(item: &Token) -> (r: bool)
    ensures
        r == is_comment(item@),
{
    item.as_block_comment().is_some() || item.as_line_comment().is_some()
}

/// Whether the header of a form goes on behind the token at place `i`.
fn header_continues(items: &Vec<Token>, i: usize) -> (r: bool)
    requires
        i < items.len(),
    ensures
        r == continues(tokens_view(items@), i as int),
{
    proof {
        lemma_tokens_view(items@);
    }
    let here = match &items[i] {
        Token::Ident(lit) => crate::text::text_eq(lit.as_str(), "core") || crate::text::text_eq(lit.as_str(), "canon"),
        _ => false,
    };
    if here {
        return true;
    }
    if i + 1 < items.len() {
        is_id(&items[i + 1]) || items[i + 1].as_string_lit().is_some()
    } else {
        false
    }
}

/// A printer: the text written so far, and how many line feeds stand behind the last
/// token.
pub struct PrettyPrinter {
    buffer: Vec<char>,
    newline_emitted: usize,
}

impl View for PrettyPrinter {
    type V = Page;

    closed spec fn view(&self) -> Page {
        Page { text: self.buffer@, newlines: self.newline_emitted as nat }
    }
}

impl PrettyPrinter {
    /// A printer that has written nothing.
    pub fn new() -> (printer: Self)
        ensures
            printer@ == (Page { text: Seq::empty(), newlines: 0 }),
    {
        PrettyPrinter { buffer: Vec::new(), newline_emitted: 0 }
    }

    /// Takes the text that was written out of the printer.
    pub fn finalize(&mut self) -> (text: String)
        ensures
            text@ == old(self)@.text,
            final(self)@ == (Page { text: Seq::empty(), newlines: old(self)@.newlines }),
    {
        let text = crate::text::string_of(&self.buffer);
        self.buffer = Vec::new();
        text
    }

    /// Lays out the text of a module.
    ///
    /// A form headed by `param`, `local`, `export`, `table`, `memory`, `import` or
    /// `global`, and one of at most two bare tokens, stays on one line. A function keeps
    /// its name, exports and imports on its first line. Every other token of a form
    /// stands on a line of its own, one tab deeper than the form.
    pub fn pretty_print(code: &str) -> (r: Result<String, SWLError>)
        ensures
            match pretty(code@) {
                Ok(text) => r matches Ok(found) && found@ == text,
                Err(e) => r matches Err(found) && found@ == e,
            },
    {
        let mut tokenizer = Tokenizer::new(code);
        let items = tokenizer.parse()?;
        let ghost views = tokens_view(items@);
        proof {
            lemma_tokens_view(items@);
        }
        let mut printer = PrettyPrinter::new();
        let indent: Vec<char> = Vec::new();
        let mut idx: usize = 0;
        assert(printer@.text + layout_from(views, 0) =~= layout_from(views, 0));
        while idx < items.len()
            invariant
                idx <= items.len(),
                indent@ == Seq::<char>::empty(),
                views == tokens_view(items@),
                views.len() == items.len(),
                forall|j: int| 0 <= j < items.len() ==> #[trigger] views[j] == token_view(items@[j]),
                printer@.text + layout_from(views, idx as int) == layout_from(views, 0),
            decreases items.len() - idx,
        {
            let ghost before = printer@.text;
            printer.pretty_print_item(&items[idx], &indent);
            if idx < items.len() - 1 {
                printer.buffer.push('\n');
            }
            assert(printer@.text + layout_from(views, idx + 1) =~= before + layout_from(views, idx as int));
            idx += 1;
        }
        assert(printer@.text =~= layout_from(views, 0));
        Ok(printer.finalize())
    }

    /// Writes `v` behind the text.
    fn emit(&mut self, v: &str)
        ensures
            final(self)@ == emit(old(self)@, v@),
    {
        push_str(&mut self.buffer, v);
        self.newline_emitted = 0;
    }

    /// Writes `v` behind the text.
    fn emit_chars(&mut self, v: &Vec<char>)
        ensures
            final(self)@ == emit(old(self)@, v@),
    {
        push_chars(&mut self.buffer, v);
        self.newline_emitted = 0;
    }

    /// Takes the line feeds at the end of the text away.
    fn undo_newlines(&mut self)
        ensures
            final(self)@ == undo_newlines(old(self)@),
    {
        while self.buffer.len() > 0 && self.buffer[self.buffer.len() - 1] == '\n'
            invariant
                self.newline_emitted == old(self).newline_emitted,
                without_newlines(old(self).buffer@) == without_newlines(self.buffer@),
            decreases self.buffer.len(),
        {
            let ghost before = self.buffer@;
            self.buffer.pop();
            assert(self.buffer@ == before.drop_last());
        }
    }

    /// Writes line feeds until `n` of them stand behind the last token.
    fn emit_newlines(&mut self, n: usize)
        ensures
            final(self)@ == emit_newlines(old(self)@, n as nat),
    {
        let ghost start = self@;
        if self.newline_emitted >= n {
            return ;
        }
        let first = self.newline_emitted;
        while self.newline_emitted < n
            invariant
                first <= self.newline_emitted <= n,
                first == start.newlines,
                self.buffer@ == start.text + line_feeds((self.newline_emitted - first) as nat),
            decreases n - self.newline_emitted,
        {
            self.buffer.push('\n');
            self.newline_emitted += 1;
            assert(self.buffer@ =~= start.text + line_feeds((self.newline_emitted - first) as nat));
        }
    }

    /// Writes a token on one line.
    fn pretty_print_item_as_single_line(&mut self, item: &Token)
        ensures
            final(self)@ == emit(old(self)@, flat(item@)),
    {
        write_flat(&mut self.buffer, item);
        self.newline_emitted = 0;
    }

    /// Writes a form on one line.
    fn pretty_print_parens_as_single_line(&mut self, items: &Vec<Token>)
        ensures
            final(self)@ == emit(old(self)@, flat(TokenView::Parens(tokens_view(items@)))),
    {
        let ghost views = tokens_view(items@);
        let ghost start = self.buffer@;
        proof {
            lemma_tokens_view(items@);
        }
        self.buffer.push('(');
        let ghost head = self.buffer@;
        let mut i: usize = 0;
        while i < items.len()
            invariant
                i <= items.len(),
                views == tokens_view(items@),
                views.len() == items.len(),
                forall|j: int| 0 <= j < items.len() ==> #[trigger] views[j] == token_view(items@[j]),
                self.buffer@ + flat_from(views, i as int) == head + flat_from(views, 0),
            decreases items.len() - i,
        {
            let ghost before = self.buffer@;
            write_flat(&mut self.buffer, &items[i]);
            if i < items.len() - 1 {
                self.buffer.push(' ');
            }
            assert(self.buffer@ + flat_from(views, i + 1) =~= before + flat_from(views, i as int));
            i += 1;
        }
        assert(self.buffer@ =~= head + flat_from(views, 0));
        self.buffer.push(')');
        self.newline_emitted = 0;
        assert(self.buffer@ =~= start + flat(TokenView::Parens(views)));
    }

    /// Writes a line comment.
    fn pretty_print_line_comment(&mut self, comment: &str)
        ensures
            final(self)@ == emit(old(self)@, line_comment_text(comment@)),
    {
        write_line_comment(&mut self.buffer, comment);
        self.newline_emitted = 0;
    }

    /// Writes a block comment at the indentation `indent`.
    fn pretty_print_block_comment(&mut self, comment: &str, indent: &Vec<char>)
        ensures
            final(self)@ == emit(old(self)@, block_comment_text(comment@, indent@)),
    {
        write_block_comment(&mut self.buffer, comment, indent);
        self.newline_emitted = 0;
    }

    /// Writes a bare token.
    fn pretty_print_literal(&mut self, lit: &str)
        ensures
            final(self)@ == emit(old(self)@, lit@),
    {
        self.emit(lit);
    }

    /// Writes a token at the indentation `indent`.
    fn pretty_print_item(&mut self, item: &Token, indent: &Vec<char>)
        ensures
            final(self)@ == emit(old(self)@, rendered(item@, indent@)),
        decreases item, 0nat,
    {
        match item {
            Token::BlockComment(comment) => self.pretty_print_block_comment(comment.as_str(), indent),
            Token::LineComment(comment) => self.pretty_print_line_comment(comment.as_str()),
            Token::Ident(lit) => self.pretty_print_literal(lit.as_str()),
            Token::Parens(items) => self.pretty_print_parens(items, indent),
            Token::StringLiteral(_) => self.pretty_print_item_as_single_line(item),
        }
    }

    /// Writes a form at the indentation `indent`.
    fn pretty_print_parens(&mut self, items: &Vec<Token>, indent: &Vec<char>)
        ensures
            final(self)@ == emit(old(self)@, rendered_parens(tokens_view(items@), indent@)),
        decreases items, items.len() + 2,
    {
        if is_single_line_node_type(items) || has_at_most_one_simple_attribute(items) {
            self.pretty_print_parens_as_single_line(items);
        } else if is_parens_with_ident(items, "func") {
            self.pretty_print_func(items, indent);
        } else if is_parens_with_ident(items, "component") {
            self.pretty_print_component(items, indent);
        } else {
            self.pretty_print_generic_parens(items, indent);
        }
    }

    /// Writes the tokens from `from` on, each on a line of its own at the indentation
    /// `indent`. Behind each token `gap` line feeds are put, which the next token leaves
    /// as they are.
    fn pretty_print_lines(&mut self, items: &Vec<Token>, from: usize, indent: &Vec<char>, gap: usize)
        requires
            from <= items.len(),
            1 <= gap,
            old(self)@.newlines == 0,
        ensures
            final(self)@.text == old(self)@.text + lines(tokens_view(items@), from as int, from as int, indent@, gap as nat)
                + line_feeds(final(self)@.newlines),
        decreases items, items.len(),
    {
        let ghost views = tokens_view(items@);
        let ghost mut done = self@.text;
        proof {
            lemma_tokens_view(items@);
            assert(self@.text =~= done + line_feeds(0));
        }
        let mut i: usize = from;
        while i < items.len()
            invariant
                from <= i <= items.len(),
                1 <= gap,
                views == tokens_view(items@),
                views.len() == items.len(),
                forall|j: int| 0 <= j < items.len() ==> #[trigger] views[j] == token_view(items@[j]),
                self@.text == done + line_feeds(self@.newlines),
                self@.newlines == (if i == from {
                    0nat
                } else {
                    gap as nat
                }),
                done + lines(views, from as int, i as int, indent@, gap as nat) == old(self)@.text + lines(
                    views,
                    from as int,
                    from as int,
                    indent@,
                    gap as nat,
                ),
            decreases items.len() - i,
        {
            let ghost fed: nat = if i == from {
                1
            } else {
                gap as nat
            };
            self.emit_newlines(1);
            assert(self@.text =~= done + line_feeds(fed)) by {
                if i == from {
                    lemma_line_feeds_add(0, 1);
                    assert(done + line_feeds(0) + line_feeds(1) =~= done + line_feeds(1));
                }
            }
            self.emit_chars(indent);
            self.pretty_print_item(&items[i], indent);
            proof {
                let next = done + line_feeds(fed) + indent@ + rendered(views[i as int], indent@);
                assert(self@.text =~= next);
                assert(next + lines(views, from as int, i + 1, indent@, gap as nat) =~= done + lines(
                    views,
                    from as int,
                    i as int,
                    indent@,
                    gap as nat,
                ));
                done = next;
            }
            self.emit_newlines(gap);
            i += 1;
        }
        proof {
            assert(lines(views, from as int, i as int, indent@, gap as nat) =~= Seq::<char>::empty());
            assert(done + Seq::<char>::empty() =~= done);
        }
    }

    /// Writes a function at the indentation `indent`.
    fn pretty_print_func(&mut self, items: &Vec<Token>, indent: &Vec<char>)
        requires
            is_headed(tokens_view(items@), "func"@),
        ensures
            final(self)@ == emit(old(self)@, rendered_func(tokens_view(items@), indent@)),
        decreases items, items.len() + 1,
    {
        let ghost views = tokens_view(items@);
        let ghost start = self@;
        proof {
            lemma_tokens_view(items@);
            reveal_strlit("(");
        }
        push_str(&mut self.buffer, "(");
        push_str(&mut self.buffer, "func");
        let ghost head = self.buffer@;
        let mut k: usize = 1;
        while k < items.len() && is_function_first_line_item(&items[k])
            invariant
                1 <= k <= items.len(),
                views == tokens_view(items@),
                views.len() == items.len(),
                forall|j: int| 0 <= j < items.len() ==> #[trigger] views[j] == token_view(items@[j]),
                first_line_end(views, 1) == first_line_end(views, k as int),
                forall|to: int|
                    k <= to <= items.len() ==> self.buffer@ + #[trigger] spaced(views, k as int, to) == head + spaced(
                        views,
                        1,
                        to,
                    ),
            decreases items.len() - k,
        {
            let ghost before = self.buffer@;
            self.buffer.push(' ');
            write_flat(&mut self.buffer, &items[k]);
            proof {
                assert forall|to: int| k + 1 <= to <= items.len() implies self.buffer@ + #[trigger] spaced(
                    views,
                    k + 1,
                    to,
                ) == head + spaced(views, 1, to) by {
                    assert(self.buffer@ + spaced(views, k + 1, to) =~= before + spaced(views, k as int, to));
                }
            }
            k += 1;
        }
        self.newline_emitted = 0;
        let ghost opening = "("@ + "func"@ + spaced(views, 1, k as int);
        proof {
            assert(self.buffer@ + spaced(views, k as int, k as int) == head + spaced(views, 1, k as int));
            assert(self.buffer@ =~= start.text + opening);
        }
        let mut inner: Vec<char> = Vec::new();
        push_chars(&mut inner, indent);
        inner.push('\t');
        assert(inner@ =~= indent@.push('\t'));
        self.pretty_print_lines(items, k, &inner, 1);
        let ghost body = opening + lines(views, k as int, k as int, inner@, 1);
        let ghost fed = self@.newlines;
        proof {
            assert(self@.text =~= start.text + body + line_feeds(fed));
            lemma_without_fed_newlines(start.text + body, fed);
            assert(body[0] == '(');
            lemma_without_newlines_behind(start.text, body);
        }
        self.undo_newlines();
        self.emit(")");
        assert(self@.text =~= start.text + (without_newlines(body) + ")"@));
    }

    /// Writes a component at the indentation `indent`.
    fn pretty_print_component(&mut self, items: &Vec<Token>, indent: &Vec<char>)
        requires
            is_headed(tokens_view(items@), "component"@),
        ensures
            final(self)@ == emit(old(self)@, rendered_component(tokens_view(items@), indent@)),
        decreases items, items.len() + 1,
    {
        let ghost views = tokens_view(items@);
        let ghost start = self@;
        proof {
            lemma_tokens_view(items@);
            reveal_strlit("(");
        }
        push_str(&mut self.buffer, "(");
        push_str(&mut self.buffer, "component");
        self.newline_emitted = 0;
        let ghost opening = "("@ + "component"@;
        assert(self.buffer@ =~= start.text + opening);
        let mut inner: Vec<char> = Vec::new();
        push_chars(&mut inner, indent);
        inner.push('\t');
        assert(inner@ =~= indent@.push('\t'));
        self.pretty_print_lines(items, 1, &inner, 2);
        let ghost body = opening + lines(views, 1, 1, inner@, 2);
        let ghost fed = self@.newlines;
        proof {
            assert(self@.text =~= start.text + body + line_feeds(fed));
            lemma_without_fed_newlines(start.text + body, fed);
            assert(body[0] == '(');
            lemma_without_newlines_behind(start.text, body);
        }
        self.undo_newlines();
        self.emit(")");
        assert(self@.text =~= start.text + (without_newlines(body) + ")"@));
    }

    /// Writes a form in the general way at the indentation `indent`.
    fn pretty_print_generic_parens(&mut self, items: &Vec<Token>, indent: &Vec<char>)
        ensures
            final(self)@ == emit(old(self)@, rendered_generic(tokens_view(items@), indent@)),
        decreases items, items.len() + 1,
    {
        let ghost views = tokens_view(items@);
        let ghost start = self@;
        proof {
            lemma_tokens_view(items@);
            reveal_strlit("(");
        }
        let mut inner: Vec<char> = Vec::new();
        push_chars(&mut inner, indent);
        inner.push('\t');
        assert(inner@ =~= indent@.push('\t'));
        self.emit("(");
        let ghost opened = self@.text;
        let mut header: usize = 0;
        let mut going = true;
        while going && header < items.len()
            invariant
                header <= items.len(),
                views == tokens_view(items@),
                views.len() == items.len(),
                forall|j: int| 0 <= j < items.len() ==> #[trigger] views[j] == token_view(items@[j]),
                self@.newlines == 0,
                going ==> header_end(views, 0) == header_end(views, header as int) && self@.text + header_text(
                    views,
                    header as int,
                    inner@,
                ) == opened + header_text(views, 0, inner@),
                !going ==> header_end(views, 0) == header && self@.text == opened + header_text(views, 0, inner@),
            decreases items.len() - header,
        {
            let ghost before = self@.text;
            self.pretty_print_item(&items[header], &inner);
            if header_continues(items, header) {
                self.emit(" ");
                assert(self@.text + header_text(views, header + 1, inner@) =~= before + header_text(
                    views,
                    header as int,
                    inner@,
                ));
            } else {
                going = false;
                assert(self@.text =~= before + header_text(views, header as int, inner@));
            }
            header += 1;
        }
        proof {
            if going {
                assert(header_text(views, header as int, inner@) =~= Seq::<char>::empty());
                assert(self@.text + Seq::<char>::empty() =~= self@.text);
            }
        }
        assert(header_end(views, 0) == header);
        assert(self@.text == opened + header_text(views, 0, inner@));
        let ghost headed = self@.text;
        let ghost mut done = self@.text;
        proof {
            assert(self@.text =~= done + line_feeds(0));
        }
        let mut i: usize = header;
        while i < items.len()
            invariant
                header <= i <= items.len(),
                views == tokens_view(items@),
                views.len() == items.len(),
                forall|j: int| 0 <= j < items.len() ==> #[trigger] views[j] == token_view(items@[j]),
                self@.text == done + line_feeds(self@.newlines),
                self@.newlines == (if i > header && is_func(views[i - 1]) {
                    2nat
                } else {
                    0nat
                }),
                done + body_text(views, i as int, header as int, inner@) == headed + body_text(
                    views,
                    header as int,
                    header as int,
                    inner@,
                ),
            decreases items.len() - i,
        {
            let idx = i - header;
            let ghost pending = self@.newlines;
            let ghost gap = body_gap(views, i as int, header as int);
            self.emit_newlines(1);
            let func = is_func_item(&items[i]);
            if func && idx > 0 && !is_comment_item(&items[idx]) {
                self.emit_newlines(2);
            }
            proof {
                assert(self@.newlines == gap);
                lemma_line_feeds_add(pending, (gap - pending) as nat);
                assert(self@.text =~= done + line_feeds(gap)) by {
                    if pending == 0 {
                        lemma_line_feeds_add(0, 1);
                        lemma_line_feeds_add(1, 1);
                        assert(done + line_feeds(0) =~= done);
                    }
                }
            }
            self.emit_chars(&inner);
            self.pretty_print_item(&items[i], &inner);
            proof {
                let next = done + line_feeds(gap) + inner@ + rendered(views[i as int], inner@);
                assert(self@.text =~= next);
                assert(next + body_text(views, i + 1, header as int, inner@) =~= done + body_text(
                    views,
                    i as int,
                    header as int,
                    inner@,
                ));
                done = next;
                assert(self@.text =~= done + line_feeds(0));
            }
            if func {
                self.emit_newlines(2);
            }
            i += 1;
        }
        let ghost body = "("@ + header_text(views, 0, inner@) + body_text(views, header as int, header as int, inner@);
        let ghost fed = self@.newlines;
        proof {
            assert(body_text(views, i as int, header as int, inner@) =~= Seq::<char>::empty());
            assert(done + Seq::<char>::empty() =~= done);
            assert(self@.text =~= start.text + body + line_feeds(fed));
            lemma_without_fed_newlines(start.text + body, fed);
            assert(body[0] == '(');
            lemma_without_newlines_behind(start.text, body);
        }
        self.undo_newlines();
        self.emit(")");
        assert(self@.text =~= start.text + (without_newlines(body) + ")"@));
    }
}

/// Lays out the text of a module.
pub fn pretty_print(code: &str) -> (r: Result<String, SWLError>)
    ensures
        match pretty(code@) {
            Ok(text) => r matches Ok(found) && found@ == text,
            Err(e) => r matches Err(found) && found@ == e,
        },
{
    PrettyPrinter::pretty_print(code)
}

} // verus!
