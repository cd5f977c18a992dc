//! The tokenizer: it cuts the bytes of a source into tokens, one per call.

use vstd::prelude::*;
use crate::errors::{ConvertionError, TokenizeError};
use crate::number::{numbers_equal, numbers_equal_spec};
use vstd::std_specs::cmp::PartialEqSpecImpl;
use crate::text::{lossy_string, lossy_decoding, utf8_str, all_ascii, lemma_ascii_valid_utf8};
use vstd::utf8::decode_utf8;

verus! {

/// The kinds of token, with the value of a string or number literal.
///
/// A number is held as the bit pattern of its single precision value.
#[derive(Debug, Clone)]
pub enum TokenType {
    // Single-character tokens.
    LeftParen,
    RightParen,
    LeftBrace,
    RightBrace,
    Comma,
    Dot,
    Minus,
    Plus,
    Semicolon,
    Slash,
    Star,
    Percent,
    // One or two character tokens.
    Bang,
    Colon,
    Question,
    BangEqual,
    Equal,
    EqualEqual,
    Greater,
    GreaterEqual,
    Less,
    LessEqual,
    // Keywords.
    And,
    Class,
    Else,
    False,
    Fun,
    For,
    If,
    Nil,
    Or,
    Print,
    Return,
    Super,
    This,
    True,
    Var,
    While,
    Identifier,
    String(String),
    Number(u32),
}

/// Equality of token kinds: the same kind, numbers equal by value (no NaN
/// is equal to anything, and the two zeros are equal), strings by text.
pub open spec fn token_types_equal(a: TokenType, b: TokenType) -> bool {
    match (a, b) {
        (TokenType::Number(x), TokenType::Number(y)) => numbers_equal_spec(x, y),
        (TokenType::String(x), TokenType::String(y)) => x@ == y@,
        (TokenType::Number(_), _) => false,
        (_, TokenType::Number(_)) => false,
        (TokenType::String(_), _) => false,
        (_, TokenType::String(_)) => false,
        _ => a == b,
    }
}

impl PartialEq for TokenType {
    fn eq(&self, other: &TokenType) -> (equal: bool) {
        match (self, other) {
            (TokenType::Number(x), TokenType::Number(y)) => numbers_equal(*x, *y),
            (TokenType::String(x), TokenType::String(y)) => x.eq(y),
            (TokenType::LeftParen, TokenType::LeftParen) => true,
            (TokenType::RightParen, TokenType::RightParen) => true,
            (TokenType::LeftBrace, TokenType::LeftBrace) => true,
            (TokenType::RightBrace, TokenType::RightBrace) => true,
            (TokenType::Comma, TokenType::Comma) => true,
            (TokenType::Dot, TokenType::Dot) => true,
            (TokenType::Minus, TokenType::Minus) => true,
            (TokenType::Plus, TokenType::Plus) => true,
            (TokenType::Semicolon, TokenType::Semicolon) => true,
            (TokenType::Slash, TokenType::Slash) => true,
            (TokenType::Star, TokenType::Star) => true,
            (TokenType::Percent, TokenType::Percent) => true,
            (TokenType::Bang, TokenType::Bang) => true,
            (TokenType::Colon, TokenType::Colon) => true,
            (TokenType::Question, TokenType::Question) => true,
            (TokenType::BangEqual, TokenType::BangEqual) => true,
            (TokenType::Equal, TokenType::Equal) => true,
            (TokenType::EqualEqual, TokenType::EqualEqual) => true,
            (TokenType::Greater, TokenType::Greater) => true,
            (TokenType::GreaterEqual, TokenType::GreaterEqual) => true,
            (TokenType::Less, TokenType::Less) => true,
            (TokenType::LessEqual, TokenType::LessEqual) => true,
            (TokenType::And, TokenType::And) => true,
            (TokenType::Class, TokenType::Class) => true,
            (TokenType::Else, TokenType::Else) => true,
            (TokenType::False, TokenType::False) => true,
            (TokenType::Fun, TokenType::Fun) => true,
            (TokenType::For, TokenType::For) => true,
            (TokenType::If, TokenType::If) => true,
            (TokenType::Nil, TokenType::Nil) => true,
            (TokenType::Or, TokenType::Or) => true,
            (TokenType::Print, TokenType::Print) => true,
            (TokenType::Return, TokenType::Return) => true,
            (TokenType::Super, TokenType::Super) => true,
            (TokenType::This, TokenType::This) => true,
            (TokenType::True, TokenType::True) => true,
            (TokenType::Var, TokenType::Var) => true,
            (TokenType::While, TokenType::While) => true,
            (TokenType::Identifier, TokenType::Identifier) => true,
            _ => false,
        }
    }
}

impl PartialEqSpecImpl for TokenType {
    open spec fn obeys_eq_spec() -> bool {
        true
    }

    open spec fn eq_spec(&self, other: &TokenType) -> bool {
        token_types_equal(*self, *other)
    }
}

/// A token: its kind and the text of the source it was cut from.
#[derive(Debug, PartialEq)]
pub struct Token {
    pub token_type: TokenType,
    pub lexeme: String,
}

impl Token {
    /// A token of the given kind whose text is the given bytes, decoded as
    /// `String::from_utf8_lossy` decodes them: valid UTF-8 as its text.
    pub fn new(token_type: TokenType, lexeme: &[u8]) -> (token: Self)
        ensures
            token.token_type == token_type,
            lossy_decoding(token.lexeme@, lexeme@),
    {
        let text = lossy_string(lexeme, 0, lexeme.len());
        assert(lexeme@.subrange(0, lexeme@.len() as int) =~= lexeme@);
        Token { token_type, lexeme: text }
    }
}

/// The state of a tokenizer over a source: where the current lexeme
/// starts, where the scan stands, and the line number.
pub struct ScanState {
    pub pos: nat,
    pub start: nat,
    pub line: nat,
}

/// Where skipping blanks and comments ends: either the call gives no token,
/// or the scan stands on the first byte of a lexeme.
pub enum Skipped {
    End(ScanState),
    At(ScanState),
}

/// What a lexeme stands for: a token kind with no payload, the bytes between
/// the quotes of a string literal, or the bytes of a number literal.
pub enum Scanned {
    Simple(TokenType),
    Text(Seq<u8>),
    Numeral(Seq<u8>),
}

/// What one call of the tokenizer gives.
pub enum Outcome {
    Finished,
    Unexpected,
    Unterminated,
    Token(Scanned),
}

pub open spec fn is_digit(b: u8) -> bool {
    '0' as u8 <= b <= '9' as u8
}

pub open spec fn is_alpha(b: u8) -> bool {
    ('a' as u8 <= b <= 'z' as u8) || ('A' as u8 <= b <= 'Z' as u8)
}

pub open spec fn is_word_byte(b: u8) -> bool {
    is_alpha(b) || is_digit(b) || b == '_' as u8
}

pub open spec fn is_blank(b: u8) -> bool {
    b == '\t' as u8 || b == ' ' as u8 || b == '\r' as u8
}

/// The kind of a token of one character that needs no look-ahead.
pub open spec fn single_kind(b: u8) -> Option<TokenType> {
    if b == '(' as u8 {
        Some(TokenType::LeftParen)
    } else if b == ')' as u8 {
        Some(TokenType::RightParen)
    } else if b == '{' as u8 {
        Some(TokenType::LeftBrace)
    } else if b == '}' as u8 {
        Some(TokenType::RightBrace)
    } else if b == ',' as u8 {
        Some(TokenType::Comma)
    } else if b == '.' as u8 {
        Some(TokenType::Dot)
    } else if b == '-' as u8 {
        Some(TokenType::Minus)
    } else if b == '+' as u8 {
        Some(TokenType::Plus)
    } else if b == ';' as u8 {
        Some(TokenType::Semicolon)
    } else if b == '*' as u8 {
        Some(TokenType::Star)
    } else if b == '/' as u8 {
        Some(TokenType::Slash)
    } else if b == '?' as u8 {
        Some(TokenType::Question)
    } else if b == '%' as u8 {
        Some(TokenType::Percent)
    } else if b == ':' as u8 {
        Some(TokenType::Colon)
    } else {
        None
    }
}

/// For a character that may be followed by `=`: the kind of the pair and
/// the kind of the character alone.
pub open spec fn pair_kinds(b: u8) -> Option<(TokenType, TokenType)> {
    if b == '=' as u8 {
        Some((TokenType::EqualEqual, TokenType::Equal))
    } else if b == '<' as u8 {
        Some((TokenType::LessEqual, TokenType::Less))
    } else if b == '>' as u8 {
        Some((TokenType::GreaterEqual, TokenType::Greater))
    } else if b == '!' as u8 {
        Some((TokenType::BangEqual, TokenType::Bang))
    } else {
        None
    }
}

/// The reserved word that a word spells, if any.
pub open spec fn keyword_kind(w: Seq<u8>) -> Option<TokenType> {
    if w == seq!['a' as u8, 'n' as u8, 'd' as u8] {
        Some(TokenType::And)
    } else if w == seq!['c' as u8, 'l' as u8, 'a' as u8, 's' as u8, 's' as u8] {
        Some(TokenType::Class)
    } else if w == seq!['e' as u8, 'l' as u8, 's' as u8, 'e' as u8] {
        Some(TokenType::Else)
    } else if w == seq!['f' as u8, 'a' as u8, 'l' as u8, 's' as u8, 'e' as u8] {
        Some(TokenType::False)
    } else if w == seq!['f' as u8, 'u' as u8, 'n' as u8] {
        Some(TokenType::Fun)
    } else if w == seq!['f' as u8, 'o' as u8, 'r' as u8] {
        Some(TokenType::For)
    } else if w == seq!['i' as u8, 'f' as u8] {
        Some(TokenType::If)
    } else if w == seq!['n' as u8, 'i' as u8, 'l' as u8] {
        Some(TokenType::Nil)
    } else if w == seq!['o' as u8, 'r' as u8] {
        Some(TokenType::Or)
    } else if w == seq!['p' as u8, 'r' as u8, 'i' as u8, 'n' as u8, 't' as u8] {
        Some(TokenType::Print)
    } else if w == seq!['r' as u8, 'e' as u8, 't' as u8, 'u' as u8, 'r' as u8, 'n' as u8] {
        Some(TokenType::Return)
    } else if w == seq!['s' as u8, 'u' as u8, 'p' as u8, 'e' as u8, 'r' as u8] {
        Some(TokenType::Super)
    } else if w == seq!['t' as u8, 'h' as u8, 'i' as u8, 's' as u8] {
        Some(TokenType::This)
    } else if w == seq!['t' as u8, 'r' as u8, 'u' as u8, 'e' as u8] {
        Some(TokenType::True)
    } else if w == seq!['v' as u8, 'a' as u8, 'r' as u8] {
        Some(TokenType::Var)
    } else if w == seq!['w' as u8, 'h' as u8, 'i' as u8, 'l' as u8, 'e' as u8] {
        Some(TokenType::While)
    } else {
        None
    }
}

/// The kind of a word: its reserved word, or an identifier.
pub open spec fn word_kind(w: Seq<u8>) -> TokenType {
    match keyword_kind(w) {
        Some(k) => k,
        None => TokenType::Identifier,
    }
}

/// Where the scan stands after a comment that starts at `p`: on the next
/// newline, or past the end.
pub open spec fn comment_stop(c: Seq<u8>, p: int) -> int
    decreases c.len() - p,
{
    if 0 <= p && p + 1 < c.len() && c[p + 1] != '\n' as u8 {
        comment_stop(c, p + 1)
    } else {
        p + 1
    }
}

pub proof fn lemma_digits_end(c: Seq<u8>, i: int)
    requires
        0 <= i < c.len(),
    ensures
        i <= digits_end(c, i) < c.len(),
    decreases c.len() - i,
{
    if i + 1 < c.len() && is_digit(c[i + 1]) {
        lemma_digits_end(c, i + 1);
    }
}

pub proof fn lemma_word_end(c: Seq<u8>, i: int)
    requires
        0 <= i < c.len(),
    ensures
        i <= word_end(c, i) < c.len(),
    decreases c.len() - i,
{
    if i + 1 < c.len() && is_word_byte(c[i + 1]) {
        lemma_word_end(c, i + 1);
    }
}

pub proof fn lemma_closing_quote(c: Seq<u8>, i: int)
    ensures
        closing_quote(c, i) matches Some(q) ==> i <= q < c.len() && c[q as int] == '"' as u8,
    decreases c.len() - i,
{
    if 0 <= i < c.len() && c[i] != '"' as u8 {
        lemma_closing_quote(c, i + 1);
    }
}

/// A lexeme that `dispatch` cuts lies within the source.
pub proof fn lemma_dispatch_bounds(c: Seq<u8>, s: ScanState)
    requires
        s.start <= s.pos < c.len(),
    ensures
        dispatch(c, s).1 is Token ==> dispatch(c, s).0.start <= dispatch(c, s).0.pos < c.len(),
        dispatch(c, s).0.start <= dispatch(c, s).0.pos < c.len(),
        dispatch(c, s).0.line == s.line,
{
    lemma_closing_quote(c, s.pos + 1 as int);
    lemma_digits_end(c, s.pos as int);
    let e1 = digits_end(c, s.pos as int);
    if e1 + 1 < c.len() {
        lemma_digits_end(c, e1 + 1);
    }
    lemma_digits_end(c, e1);
    lemma_word_end(c, s.pos as int);
}

pub proof fn lemma_comment_stop(c: Seq<u8>, p: int)
    requires
        0 <= p < c.len(),
    ensures
        p < comment_stop(c, p) <= c.len(),
    decreases c.len() - p,
{
    if p + 1 < c.len() && c[p + 1] != '\n' as u8 {
        lemma_comment_stop(c, p + 1);
    }
}

/// Skipping blanks, newlines and comments. A `/` on the last byte ends the
/// call with no token.
pub open spec fn skip_blank(c: Seq<u8>, st: ScanState) -> Skipped
    decreases c.len() - st.pos,
{
    if st.pos >= c.len() {
        Skipped::End(st)
    } else if c[st.pos as int] == '\n' as u8 {
        skip_blank(c, ScanState { pos: st.pos + 1, start: st.pos + 1, line: st.line + 1 })
    } else if is_blank(c[st.pos as int]) {
        skip_blank(c, ScanState { pos: st.pos + 1, start: st.pos + 1, line: st.line })
    } else if c[st.pos as int] == '/' as u8 && st.pos + 1 >= c.len() {
        Skipped::End(st)
    } else if c[st.pos as int] == '/' as u8 && c[st.pos + 1 as int] == '/' as u8 {
        proof {
            lemma_comment_stop(c, st.pos as int);
        }
        skip_blank(
            c,
            ScanState { pos: comment_stop(c, st.pos as int) as nat, start: st.start, line: st.line },
        )
    } else {
        Skipped::At(st)
    }
}

/// The first `"` at or after `i`.
pub open spec fn closing_quote(c: Seq<u8>, i: int) -> Option<nat>
    decreases c.len() - i,
{
    if i < 0 || i >= c.len() {
        None
    } else if c[i] == '"' as u8 {
        Some(i as nat)
    } else {
        closing_quote(c, i + 1)
    }
}

/// The last index of the run of digits that follows `i`, or `i` itself.
pub open spec fn digits_end(c: Seq<u8>, i: int) -> int
    decreases c.len() - i,
{
    if 0 <= i && i + 1 < c.len() && is_digit(c[i + 1]) {
        digits_end(c, i + 1)
    } else {
        i
    }
}

/// The last index of a number that starts at `p`: digits, then at most one
/// dot, then digits.
pub open spec fn number_end(c: Seq<u8>, p: int) -> int {
    let e1 = digits_end(c, p);
    let e2 = if e1 + 1 < c.len() && c[e1 + 1] == '.' as u8 {
        e1 + 1
    } else {
        e1
    };
    digits_end(c, e2)
}

/// The last index of the word that starts at `i`.
pub open spec fn word_end(c: Seq<u8>, i: int) -> int
    decreases c.len() - i,
{
    if 0 <= i && i + 1 < c.len() && is_word_byte(c[i + 1]) {
        word_end(c, i + 1)
    } else {
        i
    }
}

/// The lexeme that starts at `s.pos`: the state before the scan moves past
/// it, and what it stands for. The lexeme's text is the bytes from the
/// state's start to its position.
pub open spec fn dispatch(c: Seq<u8>, s: ScanState) -> (ScanState, Outcome)
    recommends
        s.pos < c.len(),
{
    let p = s.pos;
    let b = c[p as int];
    if single_kind(b) is Some {
        (s, Outcome::Token(Scanned::Simple(single_kind(b).unwrap())))
    } else if pair_kinds(b) is Some {
        let (two, one) = pair_kinds(b).unwrap();
        if p + 1 >= c.len() {
            (s, Outcome::Finished)
        } else if c[p + 1 as int] == '=' as u8 {
            (ScanState { pos: p + 1, ..s }, Outcome::Token(Scanned::Simple(two)))
        } else {
            (ScanState { start: p, ..s }, Outcome::Token(Scanned::Simple(one)))
        }
    } else if b == '"' as u8 {
        match closing_quote(c, p + 1 as int) {
            None => (
                ScanState { pos: (c.len() - 1) as nat, start: p, line: s.line },
                Outcome::Unterminated,
            ),
            Some(q) => (
                ScanState { pos: q, start: p, line: s.line },
                Outcome::Token(Scanned::Text(c.subrange(p + 1 as int, q as int))),
            ),
        }
    } else if is_digit(b) {
        let e = number_end(c, p as int);
        (
            ScanState { pos: e as nat, start: p, line: s.line },
            Outcome::Token(Scanned::Numeral(c.subrange(p as int, e + 1))),
        )
    } else if is_alpha(b) {
        let e = word_end(c, p as int);
        (
            ScanState { pos: e as nat, start: p, line: s.line },
            Outcome::Token(Scanned::Simple(word_kind(c.subrange(p as int, e + 1)))),
        )
    } else {
        (s, Outcome::Unexpected)
    }
}

/// One call of the tokenizer: skip what is blank, then scan one lexeme.
pub open spec fn next_spec(c: Seq<u8>, st: ScanState) -> (ScanState, Outcome) {
    match skip_blank(c, st) {
        Skipped::End(s) => (s, Outcome::Finished),
        Skipped::At(s) => dispatch(c, s),
    }
}

/// The state once the scan has moved past a lexeme that ends at `s.pos`.
pub open spec fn advanced(s: ScanState) -> ScanState {
    ScanState { pos: s.pos + 1, start: s.pos + 1, line: s.line }
}

/// The bytes of the lexeme that a state delimits.
pub open spec fn lexeme_of(c: Seq<u8>, s: ScanState) -> Seq<u8> {
    c.subrange(s.start as int, s.pos + 1 as int)
}

/// The outcome of a host conversion of a number lexeme: the closure was
/// handed a string whose text decodes the lexeme, and gave `result`.
pub open spec fn host_converts<P: Fn(&str) -> Result<u32, std::num::ParseFloatError>>(
    parse: P,
    numeral: Seq<u8>,
    result: Result<u32, std::num::ParseFloatError>,
) -> bool {
    exists|s: &str| s@ == decode_utf8(numeral) && #[trigger] call_ensures(parse, (s,), result)
}

/// Cuts a source into tokens. Each call of `next_token` gives the next one.
pub struct Tokenizer<'a> {
    content: &'a [u8],
    start: usize,
    line: usize,
    pos: usize,
}

impl<'a> Tokenizer<'a> {
    /// The bytes being cut.
    pub closed spec fn source(&self) -> Seq<u8> {
        self.content@
    }

    /// Where the scan stands.
    pub closed spec fn state(&self) -> ScanState {
        ScanState { pos: self.pos as nat, start: self.start as nat, line: self.line as nat }
    }

    /// The start of the current lexeme is not past the scan position, which
    /// is not past the end; the line count is at most one more than the
    /// position.
    pub open spec fn wf(&self) -> bool {
        &&& self.state().start <= self.state().pos <= self.source().len()
        &&& 1 <= self.state().line <= self.state().pos + 1
        &&& self.source().len() <= isize::MAX
    }

    /// A tokenizer at the start of `content`, on line 1.
    pub fn new(content: &'a [u8]) -> (tokenizer: Self)
        requires
            content@.len() <= isize::MAX,
        ensures
            tokenizer.wf(),
            tokenizer.source() == content@,
            tokenizer.state() == (ScanState { pos: 0, start: 0, line: 1 }),
    {
        Tokenizer { content, start: 0, line: 1, pos: 0 }
    }

    /// The byte `offset` places after the scan position, if there is one.
    pub fn peek(&self, offset: usize) -> (byte: Option<&u8>)
        requires
            self.wf(),
            self.state().pos + offset <= usize::MAX,
        ensures
            self.state().pos + offset < self.source().len() ==> byte == Some(
                &self.source()[self.state().pos + offset as int],
            ),
            self.state().pos + offset >= self.source().len() ==> byte is None,
    {
        self.content.get(self.pos + offset)
    }
}

/// The token that a host conversion of a number lexeme leads to: a number
/// token, or the conversion error.
pub open spec fn converted_token(
    result: Result<u32, std::num::ParseFloatError>,
) -> Result<TokenType, TokenizeError> {
    match result {
        Ok(bits) => Ok(TokenType::Number(bits)),
        Err(e) => Err(TokenizeError::ConvertionError(ConvertionError::NumberParseError(e))),
    }
}

/// What a call of `next_token` gives and leaves when the lexeme delimited by
/// `s` is a number and the host conversion gave `h`.
pub open spec fn numeral_outcome(
    c: Seq<u8>,
    s: ScanState,
    h: Result<u32, std::num::ParseFloatError>,
    token: Option<Result<Token, TokenizeError>>,
    after: ScanState,
) -> bool {
    match converted_token(h) {
        Ok(k) => {
            &&& token matches Some(Ok(t))
            &&& t.token_type == k
            &&& lossy_decoding(t.lexeme@, lexeme_of(c, s))
            &&& after == advanced(s)
        },
        Err(e) => token == Some(Err::<Token, TokenizeError>(e)) && after == s,
    }
}

/// What a call of `next_token` gives and leaves when the lexeme delimited by
/// `s` is the number `b`: the host converted its text to some `h`, and the
/// outcome follows from `h`.
pub open spec fn numeral_converted<P: Fn(&str) -> Result<u32, std::num::ParseFloatError>>(
    parse: P,
    c: Seq<u8>,
    s: ScanState,
    b: Seq<u8>,
    token: Option<Result<Token, TokenizeError>>,
    after: ScanState,
) -> bool {
    exists|h: Result<u32, std::num::ParseFloatError>|
        #[trigger] host_converts(parse, b, h) && numeral_outcome(c, s, h, token, after)
}

/// What one call of `next_token` gives and leaves, for a source `c` and a
/// state `st` before the call.
pub open spec fn next_outcome<P: Fn(&str) -> Result<u32, std::num::ParseFloatError>>(
    c: Seq<u8>,
    st: ScanState,
    parse: P,
    token: Option<Result<Token, TokenizeError>>,
    after: ScanState,
) -> bool {
    let (s, out) = next_spec(c, st);
    match out {
        Outcome::Finished => token is None && after == s,
        Outcome::Unexpected => token == Some(
            Err::<Token, TokenizeError>(TokenizeError::UnexpectedCharacter),
        ) && after == s,
        Outcome::Unterminated => token == Some(
            Err::<Token, TokenizeError>(TokenizeError::UnterminatedString),
        ) && after == s,
        Outcome::Token(Scanned::Simple(k)) => {
            &&& token matches Some(Ok(t))
            &&& t.token_type == k
            &&& lossy_decoding(t.lexeme@, lexeme_of(c, s))
            &&& after == advanced(s)
        },
        Outcome::Token(Scanned::Text(b)) => {
            &&& token matches Some(Ok(t))
            &&& t.token_type matches TokenType::String(text)
            &&& lossy_decoding(text@, b)
            &&& lossy_decoding(t.lexeme@, lexeme_of(c, s))
            &&& after == advanced(s)
        },
        Outcome::Token(Scanned::Numeral(b)) => numeral_converted(parse, c, s, b, token, after),
    }
}

fn is_ascii_digit(b: u8) -> (digit: bool)
    ensures
        digit == is_digit(b),
{
    b >= '0' as u8 && b <= '9' as u8
}

fn is_ascii_alpha(b: u8) -> (alpha: bool)
    ensures
        alpha == is_alpha(b),
{
    (b >= 'a' as u8 && b <= 'z' as u8) || (b >= 'A' as u8 && b <= 'Z' as u8)
}

fn is_ascii_word_byte(b: u8) -> (word: bool)
    ensures
        word == is_word_byte(b),
{
    is_ascii_alpha(b) || is_ascii_digit(b) || b == '_' as u8
}

/// The kind of a token of one character that needs no look-ahead.
fn single_kind_of(b: u8) -> (kind: Option<TokenType>)
    ensures
        kind == single_kind(b),
{
    if b == '(' as u8 {
        Some(TokenType::LeftParen)
    } else if b == ')' as u8 {
        Some(TokenType::RightParen)
    } else if b == '{' as u8 {
        Some(TokenType::LeftBrace)
    } else if b == '}' as u8 {
        Some(TokenType::RightBrace)
    } else if b == ',' as u8 {
        Some(TokenType::Comma)
    } else if b == '.' as u8 {
        Some(TokenType::Dot)
    } else if b == '-' as u8 {
        Some(TokenType::Minus)
    } else if b == '+' as u8 {
        Some(TokenType::Plus)
    } else if b == ';' as u8 {
        Some(TokenType::Semicolon)
    } else if b == '*' as u8 {
        Some(TokenType::Star)
    } else if b == '/' as u8 {
        Some(TokenType::Slash)
    } else if b == '?' as u8 {
        Some(TokenType::Question)
    } else if b == '%' as u8 {
        Some(TokenType::Percent)
    } else if b == ':' as u8 {
        Some(TokenType::Colon)
    } else {
        None
    }
}

/// For a character that may be followed by `=`: the kind of the pair and
/// the kind of the character alone.
fn pair_kinds_of(b: u8) -> (kinds: Option<(TokenType, TokenType)>)
    ensures
        kinds == pair_kinds(b),
{
    if b == '=' as u8 {
        Some((TokenType::EqualEqual, TokenType::Equal))
    } else if b == '<' as u8 {
        Some((TokenType::LessEqual, TokenType::Less))
    } else if b == '>' as u8 {
        Some((TokenType::GreaterEqual, TokenType::Greater))
    } else if b == '!' as u8 {
        Some((TokenType::BangEqual, TokenType::Bang))
    } else {
        None
    }
}

/// Whether `bytes[start..end]` spells `word`.
fn spells(bytes: &[u8], start: usize, end: usize, word: &[u8]) -> (same: bool)
    requires
        start <= end <= bytes@.len(),
    ensures
        same == (bytes@.subrange(start as int, end as int) == word@),
{
    if end - start != word.len() {
        assert(bytes@.subrange(start as int, end as int).len() != word@.len());
        return false;
    }
    let mut i: usize = 0;
    while i < word.len()
        invariant
            0 <= i <= word@.len(),
            end - start == word@.len(),
            start <= end <= bytes@.len(),
            forall|j: int| 0 <= j < i ==> bytes@[start + j] == word@[j],
        decreases word@.len() - i,
    {
        if bytes[start + i] != word[i] {
            assert(bytes@.subrange(start as int, end as int)[i as int] != word@[i as int]);
            return false;
        }
        i += 1;
    }
    assert(bytes@.subrange(start as int, end as int) =~= word@);
    true
}

/// The kind of the word `bytes[start..end]`: its reserved word, or an
/// identifier.
fn word_kind_of(bytes: &[u8], start: usize, end: usize) -> (kind: TokenType)
    requires
        start <= end <= bytes@.len(),
    ensures
        kind == word_kind(bytes@.subrange(start as int, end as int)),
{
    if spells(bytes, start, end, vec!['a' as u8, 'n' as u8, 'd' as u8].as_slice()) {
        TokenType::And
    } else if spells(
        bytes,
        start,
        end,
        vec!['c' as u8, 'l' as u8, 'a' as u8, 's' as u8, 's' as u8].as_slice(),
    ) {
        TokenType::Class
    } else if spells(bytes, start, end, vec!['e' as u8, 'l' as u8, 's' as u8, 'e' as u8].as_slice()) {
        TokenType::Else
    } else if spells(
        bytes,
        start,
        end,
        vec!['f' as u8, 'a' as u8, 'l' as u8, 's' as u8, 'e' as u8].as_slice(),
    ) {
        TokenType::False
    } else if spells(bytes, start, end, vec!['f' as u8, 'u' as u8, 'n' as u8].as_slice()) {
        TokenType::Fun
    } else if spells(bytes, start, end, vec!['f' as u8, 'o' as u8, 'r' as u8].as_slice()) {
        TokenType::For
    } else if spells(bytes, start, end, vec!['i' as u8, 'f' as u8].as_slice()) {
        TokenType::If
    } else if spells(bytes, start, end, vec!['n' as u8, 'i' as u8, 'l' as u8].as_slice()) {
        TokenType::Nil
    } else if spells(bytes, start, end, vec!['o' as u8, 'r' as u8].as_slice()) {
        TokenType::Or
    } else if spells(
        bytes,
        start,
        end,
        vec!['p' as u8, 'r' as u8, 'i' as u8, 'n' as u8, 't' as u8].as_slice(),
    ) {
        TokenType::Print
    } else if spells(
        bytes,
        start,
        end,
        vec!['r' as u8, 'e' as u8, 't' as u8, 'u' as u8, 'r' as u8, 'n' as u8].as_slice(),
    ) {
        TokenType::Return
    } else if spells(
        bytes,
        start,
        end,
        vec!['s' as u8, 'u' as u8, 'p' as u8, 'e' as u8, 'r' as u8].as_slice(),
    ) {
        TokenType::Super
    } else if spells(bytes, start, end, vec!['t' as u8, 'h' as u8, 'i' as u8, 's' as u8].as_slice()) {
        TokenType::This
    } else if spells(bytes, start, end, vec!['t' as u8, 'r' as u8, 'u' as u8, 'e' as u8].as_slice()) {
        TokenType::True
    } else if spells(bytes, start, end, vec!['v' as u8, 'a' as u8, 'r' as u8].as_slice()) {
        TokenType::Var
    } else if spells(
        bytes,
        start,
        end,
        vec!['w' as u8, 'h' as u8, 'i' as u8, 'l' as u8, 'e' as u8].as_slice(),
    ) {
        TokenType::While
    } else {
        TokenType::Identifier
    }
}

impl<'a> Tokenizer<'a> {
    /// On a character that may be followed by `target`: the kind `a` and a
    /// step onto `target` where it follows, else the kind `b` with the
    /// lexeme restarted on the character; none at the last byte.
    fn match_or(&mut self, target: u8, a: TokenType, b: TokenType) -> (kind: Option<TokenType>)
        requires
            old(self).wf(),
            old(self).state().pos < old(self).source().len(),
        ensures
            final(self).wf(),
            final(self).source() == old(self).source(),
            ({
                let c = old(self).source();
                let st = old(self).state();
                if st.pos + 1 >= c.len() {
                    kind is None && final(self).state() == st
                } else if c[st.pos + 1 as int] == target {
                    kind == Some(a) && final(self).state() == (ScanState { pos: st.pos + 1, ..st })
                } else {
                    kind == Some(b) && final(self).state() == (ScanState { start: st.pos, ..st })
                }
            }),
    {
        let next = match self.peek(1) {
            Some(next) => *next,
            None => return None,
        };
        if next == target {
            self.pos += 1;
            Some(a)
        } else {
            self.start = self.pos;
            Some(b)
        }
    }

    /// A string literal whose opening quote is at the scan position: the
    /// text up to the next quote, with the scan left on that quote; or, with
    /// no quote left, an error with the scan left on the last byte.
    fn parse_string(&mut self) -> (kind: Result<TokenType, TokenizeError>)
        requires
            old(self).wf(),
            old(self).state().pos < old(self).source().len(),
        ensures
            final(self).wf(),
            final(self).source() == old(self).source(),
            ({
                let c = old(self).source();
                let p = old(self).state().pos;
                match closing_quote(c, p + 1 as int) {
                    None => kind == Err::<TokenType, TokenizeError>(
                        TokenizeError::UnterminatedString,
                    ) && final(self).state() == (ScanState {
                        pos: (c.len() - 1) as nat,
                        start: p,
                        line: old(self).state().line,
                    }),
                    Some(q) => kind matches Ok(TokenType::String(text)) && lossy_decoding(
                        text@,
                        c.subrange(p + 1 as int, q as int),
                    ) && final(self).state() == (ScanState {
                        pos: q,
                        start: p,
                        line: old(self).state().line,
                    }),
                }
            }),
    {
        let ghost c = self.content@;
        let ghost p = self.pos;
        self.start = self.pos;
        loop
            invariant
                self.wf(),
                self.content@ == c,
                c == old(self).content@,
                p == old(self).pos,
                self.start == p,
                p <= self.pos < c.len(),
                self.line == old(self).line,
                closing_quote(c, self.pos + 1) == closing_quote(c, p + 1),
            ensures
                self.wf(),
                self.content@ == c,
                self.start == p,
                p <= self.pos,
                self.pos + 1 < c.len(),
                c[self.pos + 1] == '"' as u8,
                self.line == old(self).line,
                closing_quote(c, self.pos + 1) == closing_quote(c, p + 1),
            decreases c.len() - self.pos,
        {
            match self.peek(1) {
                Some(next) => {
                    if *next == '"' as u8 {
                        break;
                    } else {
                        self.pos += 1;
                    }
                },
                None => {
                    return Err(TokenizeError::UnterminatedString);
                },
            }
        }
        self.pos += 1;
        Ok(TokenType::String(lossy_string(self.content, self.start + 1, self.pos)))
    }

    /// Moves the scan over the run of digits that follows it.
    fn skip_digits(&mut self)
        requires
            old(self).wf(),
            old(self).state().pos < old(self).source().len(),
        ensures
            final(self).wf(),
            final(self).source() == old(self).source(),
            final(self).state() == (ScanState {
                pos: digits_end(old(self).source(), old(self).state().pos as int) as nat,
                ..old(self).state()
            }),
            forall|j: int|
                old(self).state().pos < j <= final(self).state().pos ==> is_digit(
                    #[trigger] old(self).source()[j],
                ),
    {
        let ghost c = self.content@;
        let ghost p = self.pos;
        loop
            invariant
                self.wf(),
                self.content@ == c,
                self.start == old(self).start,
                self.line == old(self).line,
                p <= self.pos < c.len(),
                digits_end(c, self.pos as int) == digits_end(c, p as int),
                forall|j: int| p < j <= self.pos ==> is_digit(#[trigger] c[j]),
            ensures
                self.wf(),
                self.content@ == c,
                self.start == old(self).start,
                self.line == old(self).line,
                self.pos == digits_end(c, p as int),
                forall|j: int| p < j <= self.pos ==> is_digit(#[trigger] c[j]),
            decreases c.len() - self.pos,
        {
            match self.peek(1) {
                Some(next) => {
                    if is_ascii_digit(*next) {
                        self.pos += 1;
                    } else {
                        break;
                    }
                },
                None => {
                    break;
                },
            }
        }
    }

    /// A number literal whose first digit is at the scan position: digits,
    /// at most one dot, digits. The scan is left on its last byte, and the
    /// host closure converts its text.
    fn parse_number<P: Fn(&str) -> Result<u32, std::num::ParseFloatError>>(
        &mut self,
        parse: &P,
    ) -> (kind: Result<TokenType, TokenizeError>)
        requires
            old(self).wf(),
            old(self).state().pos < old(self).source().len(),
            is_digit(old(self).source()[old(self).state().pos as int]),
            forall|s: &str| call_requires(*parse, (s,)),
        ensures
            final(self).wf(),
            final(self).source() == old(self).source(),
            ({
                let c = old(self).source();
                let p = old(self).state().pos;
                let e = number_end(c, p as int);
                &&& final(self).state() == (ScanState {
                    pos: e as nat,
                    start: p,
                    line: old(self).state().line,
                })
                &&& exists|h: Result<u32, std::num::ParseFloatError>|
                    #[trigger] host_converts(*parse, c.subrange(p as int, e + 1), h) && kind
                        == converted_token(h)
            }),
    {
        let ghost c = self.content@;
        let ghost p = self.pos;
        self.start = self.pos;
        self.skip_digits();
        let ghost e1 = self.pos;
        proof {
            lemma_digits_end(c, p as int);
        }
        match self.peek(1) {
            Some(next) => {
                if *next == '.' as u8 {
                    self.pos += 1;
                }
            },
            None => {},
        }
        let ghost e2 = self.pos;
        self.skip_digits();
        proof {
            lemma_digits_end(c, e2 as int);
        }
        assert(self.pos == number_end(c, p as int));
        let ghost numeral = c.subrange(p as int, self.pos + 1);
        assert forall|i: int| 0 <= i < numeral.len() implies #[trigger] numeral[i] < 0x80 by {
            assert(numeral[i] == c[p + i]);
            if p + i <= e1 {
                if p + i > p {
                    assert(is_digit(c[p + i]));
                }
            } else if p + i <= e2 {
            } else {
                assert(is_digit(c[p + i]));
            }
        }
        assert(all_ascii(numeral));
        proof {
            lemma_ascii_valid_utf8(numeral);
        }
        let text = match utf8_str(self.content, self.start, self.pos + 1) {
            Ok(text) => text,
            Err(error) => {
                return Err(TokenizeError::from(error));
            },
        };
        let result = parse(text);
        assert(host_converts(*parse, numeral, result));
        match result {
            Ok(bits) => Ok(TokenType::Number(bits)),
            Err(error) => Err(TokenizeError::from(error)),
        }
    }

    /// A word whose first letter is at the scan position: letters, digits
    /// and underscores. The scan is left on its last byte.
    fn parse_identifier(&mut self) -> (kind: Result<TokenType, TokenizeError>)
        requires
            old(self).wf(),
            old(self).state().pos < old(self).source().len(),
        ensures
            final(self).wf(),
            final(self).source() == old(self).source(),
            ({
                let c = old(self).source();
                let p = old(self).state().pos;
                let e = word_end(c, p as int);
                &&& final(self).state() == (ScanState {
                    pos: e as nat,
                    start: p,
                    line: old(self).state().line,
                })
                &&& kind == Ok::<TokenType, TokenizeError>(word_kind(c.subrange(p as int, e + 1)))
            }),
    {
        let ghost c = self.content@;
        let ghost p = self.pos;
        self.start = self.pos;
        loop
            invariant
                self.wf(),
                self.content@ == c,
                self.start == p,
                self.line == old(self).line,
                p <= self.pos < c.len(),
                word_end(c, self.pos as int) == word_end(c, p as int),
            ensures
                self.wf(),
                self.content@ == c,
                self.start == p,
                self.line == old(self).line,
                self.pos == word_end(c, p as int),
            decreases c.len() - self.pos,
        {
            match self.peek(1) {
                Some(next) => {
                    if is_ascii_word_byte(*next) {
                        self.pos += 1;
                    } else {
                        break;
                    }
                },
                None => {
                    break;
                },
            }
        }
        Ok(word_kind_of(self.content, self.start, self.pos + 1))
    }
}

impl<'a> Tokenizer<'a> {
    /// The next token of the source, `None` once the source is used up.
    ///
    /// Blanks, newlines and `//` comments are skipped; a `/` on the last
    /// byte, or a `=`, `<`, `>` or `!` on the last byte, gives `None`. An
    /// unexpected character gives an error and leaves the scan where it was.
    /// The text of a number literal is converted by `parse`.
    pub fn next_token<P: Fn(&str) -> Result<u32, std::num::ParseFloatError>>(
        &mut self,
        parse: &P,
    ) -> (token: Option<Result<Token, TokenizeError>>)
        requires
            old(self).wf(),
            forall|s: &str| call_requires(*parse, (s,)),
        ensures
            final(self).wf(),
            final(self).source() == old(self).source(),
            next_outcome(
                old(self).source(),
                old(self).state(),
                *parse,
                token,
                final(self).state(),
            ),
    {
        let ghost c = self.content@;
        let ghost st0 = self.state();
        loop
            invariant
                self.wf(),
                self.content@ == c,
                c == old(self).content@,
                st0 == old(self).state(),
                skip_blank(c, self.state()) == skip_blank(c, st0),
            ensures
                self.wf(),
                self.content@ == c,
                self.state().pos < c.len(),
                skip_blank(c, st0) == Skipped::At(self.state()),
            decreases c.len() - self.pos,
        {
            let b = match self.peek(0) {
                Some(b) => *b,
                None => {
                    return None;
                },
            };
            if b == '\n' as u8 {
                self.pos += 1;
                self.start = self.pos;
                self.line += 1;
            } else if b == '\t' as u8 || b == ' ' as u8 || b == '\r' as u8 {
                self.pos += 1;
                self.start = self.pos;
            } else if b == '/' as u8 {
                let next = match self.peek(1) {
                    Some(next) => *next,
                    None => {
                        return None;
                    },
                };
                if next == '/' as u8 {
                    let ghost p = self.pos;
                    let ghost st_in = self.state();
                    proof {
                        lemma_comment_stop(c, p as int);
                    }
                    loop
                        invariant
                            self.wf(),
                            self.content@ == c,
                            self.start == st_in.start,
                            self.line == st_in.line,
                            p <= self.pos < c.len(),
                            comment_stop(c, self.pos as int) == comment_stop(c, p as int),
                        ensures
                            self.wf(),
                            self.content@ == c,
                            self.start == st_in.start,
                            self.line == st_in.line,
                            self.pos + 1 == comment_stop(c, p as int),
                        decreases c.len() - self.pos,
                    {
                        match self.peek(1) {
                            Some(next) => {
                                if *next != '\n' as u8 {
                                    self.pos += 1;
                                } else {
                                    break;
                                }
                            },
                            None => {
                                break;
                            },
                        }
                    }
                    self.pos += 1;
                } else {
                    break;
                }
            } else {
                break;
            }
        }
        let ghost s = self.state();
        proof {
            lemma_dispatch_bounds(c, s);
        }
        let b = self.content[self.pos];
        let token_type = match single_kind_of(b) {
            Some(kind) => kind,
            None => match pair_kinds_of(b) {
                Some((two, one)) => match self.match_or('=' as u8, two, one) {
                    Some(kind) => kind,
                    None => {
                        return None;
                    },
                },
                None => {
                    if b == '"' as u8 {
                        match self.parse_string() {
                            Ok(kind) => kind,
                            Err(error) => {
                                return Some(Err(error));
                            },
                        }
                    } else if is_ascii_digit(b) {
                        let result = self.parse_number(parse);
                        let ghost numeral = c.subrange(s.pos as int, number_end(c, s.pos as int) + 1);
                        let ghost h = choose|h: Result<u32, std::num::ParseFloatError>|
                            host_converts(*parse, numeral, h) && result == converted_token(h);
                        assert(host_converts(*parse, numeral, h));
                        match result {
                            Ok(kind) => kind,
                            Err(error) => {
                                assert(numeral_outcome(c, self.state(), h, Some(Err(error)), self.state()));
                                return Some(Err(error));
                            },
                        }
                    } else if is_ascii_alpha(b) {
                        match self.parse_identifier() {
                            Ok(kind) => kind,
                            Err(error) => {
                                return Some(Err(error));
                            },
                        }
                    } else {
                        return Some(Err(TokenizeError::UnexpectedCharacter));
                    }
                },
            },
        };
        let token = Token::new(token_type, &self.content[self.start..self.pos + 1]);
        self.pos += 1;
        self.start = self.pos;
        Some(Ok(token))
    }
}

/// A state whose lexeme start is not past its position, which is not past
/// the end of `c`.
pub open spec fn state_within(c: Seq<u8>, st: ScanState) -> bool {
    st.start <= st.pos <= c.len()
}

/// Skipping blanks never moves back, keeps the state within the source, and
/// skipping again from where it stopped stops at once.
pub proof fn lemma_skip_blank_settles(c: Seq<u8>, st: ScanState)
    requires
        state_within(c, st),
    ensures
        ({
            let (s, settled) = match skip_blank(c, st) {
                Skipped::End(s) => (s, skip_blank(c, s) == Skipped::End(s)),
                Skipped::At(s) => (s, skip_blank(c, s) == Skipped::At(s) && s.pos < c.len()),
            };
            settled && state_within(c, s) && s.pos >= st.pos && s.line >= st.line
        }),
    decreases c.len() - st.pos,
{
    if st.pos < c.len() {
        let b = c[st.pos as int];
        if b == '\n' as u8 {
            lemma_skip_blank_settles(
                c,
                ScanState { pos: st.pos + 1, start: st.pos + 1, line: st.line + 1 },
            );
        } else if is_blank(b) {
            lemma_skip_blank_settles(
                c,
                ScanState { pos: st.pos + 1, start: st.pos + 1, line: st.line },
            );
        } else if b == '/' as u8 && st.pos + 1 < c.len() && c[st.pos + 1 as int] == '/' as u8 {
            lemma_comment_stop(c, st.pos as int);
            lemma_skip_blank_settles(
                c,
                ScanState {
                    pos: comment_stop(c, st.pos as int) as nat,
                    start: st.start,
                    line: st.line,
                },
            );
        }
    }
}

/// Once a call gives no token, every later call gives none again and
/// leaves the state as it is.
pub proof fn law_finished_stays_finished(c: Seq<u8>, st: ScanState)
    requires
        state_within(c, st),
        next_spec(c, st).1 is Finished,
    ensures
        next_spec(c, next_spec(c, st).0) == next_spec(c, st),
{
    lemma_skip_blank_settles(c, st);
}

/// An unexpected character leaves the state as it was before the
/// character, so every later call reports it again.
pub proof fn law_unexpected_repeats(c: Seq<u8>, st: ScanState)
    requires
        state_within(c, st),
        next_spec(c, st).1 is Unexpected,
    ensures
        next_spec(c, next_spec(c, st).0) == next_spec(c, st),
{
    lemma_skip_blank_settles(c, st);
}

/// A token moves the scan past at least one byte, and the state stays
/// within the source.
pub proof fn law_token_moves_forward(c: Seq<u8>, st: ScanState)
    requires
        state_within(c, st),
        next_spec(c, st).1 is Token,
    ensures
        advanced(next_spec(c, st).0).pos > st.pos,
        state_within(c, advanced(next_spec(c, st).0)),
        lexeme_of(c, next_spec(c, st).0).len() >= 1,
{
    lemma_skip_blank_settles(c, st);
    match skip_blank(c, st) {
        Skipped::At(s) => lemma_dispatch_bounds(c, s),
        Skipped::End(_) => {},
    }
}

/// A string literal's token holds the bytes between its quotes, and its
/// lexeme is those bytes with the quotes around them.
pub proof fn law_string_lexeme(c: Seq<u8>, st: ScanState)
    requires
        state_within(c, st),
        next_spec(c, st).1 matches Outcome::Token(Scanned::Text(_)),
    ensures
        ({
            let s = next_spec(c, st).0;
            let text = next_spec(c, st).1->Token_0->Text_0;
            &&& lexeme_of(c, s) == seq!['"' as u8] + text + seq!['"' as u8]
        }),
{
    lemma_skip_blank_settles(c, st);
    match skip_blank(c, st) {
        Skipped::At(s) => {
            lemma_dispatch_bounds(c, s);
            lemma_closing_quote(c, s.pos + 1 as int);
            let q = closing_quote(c, s.pos + 1 as int).unwrap();
            assert(lexeme_of(c, next_spec(c, st).0) =~= seq!['"' as u8] + c.subrange(
                s.pos + 1 as int,
                q as int,
            ) + seq!['"' as u8]);
        },
        Skipped::End(_) => {},
    }
}

/// The states that successive calls of `next_token` pass through, from the
/// start of `c`, while they give the tokens `tokens` one by one.
pub open spec fn scanned_in_turn<P: Fn(&str) -> Result<u32, std::num::ParseFloatError>>(
    c: Seq<u8>,
    parse: P,
    states: Seq<ScanState>,
    tokens: Seq<Token>,
) -> bool {
    &&& states.len() == tokens.len() + 1
    &&& states[0] == (ScanState { pos: 0, start: 0, line: 1 })
    &&& forall|i: int|
        0 <= i < tokens.len() ==> next_outcome(
            c,
            #[trigger] states[i],
            parse,
            Some(Ok::<Token, TokenizeError>(tokens[i])),
            states[i + 1],
        )
}

/// A call that gives a token moves the scan forward.
proof fn lemma_token_call_moves<P: Fn(&str) -> Result<u32, std::num::ParseFloatError>>(
    c: Seq<u8>,
    st: ScanState,
    parse: P,
    token: Token,
    after: ScanState,
)
    requires
        state_within(c, st),
        next_outcome(c, st, parse, Some(Ok::<Token, TokenizeError>(token)), after),
    ensures
        after.pos > st.pos,
{
    let (s, out) = next_spec(c, st);
    if let Outcome::Token(Scanned::Numeral(b)) = out {
        let h = choose|h: Result<u32, std::num::ParseFloatError>|
            #[trigger] host_converts(parse, b, h) && numeral_outcome(c, s, h, Some(Ok(token)), after);
        assert(after == advanced(s));
    }
    law_token_moves_forward(c, st);
}

/// Every token of a source, as successive calls of `next_token` give them,
/// up to the first call that gives none; or the first failure.
pub fn tokenize<P: Fn(&str) -> Result<u32, std::num::ParseFloatError>>(
    content: &[u8],
    parse: &P,
) -> (tokens: Result<Vec<Token>, TokenizeError>)
    requires
        content@.len() <= isize::MAX,
        forall|s: &str| call_requires(*parse, (s,)),
    ensures
        match tokens {
            Ok(tokens) => exists|states: Seq<ScanState>, end: ScanState|
                {
                    &&& scanned_in_turn(content@, *parse, states, tokens@)
                    &&& next_outcome(content@, states.last(), *parse, None, end)
                },
            Err(error) => exists|states: Seq<ScanState>, before: Seq<Token>, end: ScanState|
                {
                    &&& scanned_in_turn(content@, *parse, states, before)
                    &&& next_outcome(
                        content@,
                        states.last(),
                        *parse,
                        Some(Err::<Token, TokenizeError>(error)),
                        end,
                    )
                },
        },
{
    let mut tokenizer = Tokenizer::new(content);
    let mut tokens: Vec<Token> = Vec::new();
    let ghost mut states: Seq<ScanState> = seq![tokenizer.state()];
    loop
        invariant
            tokenizer.wf(),
            tokenizer.source() == content@,
            forall|s: &str| call_requires(*parse, (s,)),
            scanned_in_turn(content@, *parse, states, tokens@),
            states.last() == tokenizer.state(),
        decreases content@.len() - tokenizer.state().pos,
    {
        let ghost before = tokenizer.state();
        match tokenizer.next_token(parse) {
            Some(Ok(token)) => {
                proof {
                    lemma_token_call_moves(content@, before, *parse, token, tokenizer.state());
                    let old_states = states;
                    states = states.push(tokenizer.state());
                    assert forall|i: int| 0 <= i < tokens@.len() + 1 implies next_outcome(
                        content@,
                        #[trigger] states[i],
                        *parse,
                        Some(Ok::<Token, TokenizeError>(tokens@.push(token)[i])),
                        states[i + 1],
                    ) by {
                        if i < tokens@.len() {
                            assert(states[i] == old_states[i]);
                            assert(states[i + 1] == old_states[i + 1]);
                        }
                    }
                }
                tokens.push(token);
            },
            Some(Err(error)) => {
                return Err(error);
            },
            None => {
                return Ok(tokens);
            },
        }
    }
}

/// A state moved `n` bytes further into the source.
pub open spec fn shifted(st: ScanState, n: nat) -> ScanState {
    ScanState { pos: st.pos + n, start: st.start + n, line: st.line }
}

/// Where skipping stops, moved `n` bytes further into the source.
pub open spec fn skipped_shifted(k: Skipped, n: nat) -> Skipped {
    match k {
        Skipped::End(s) => Skipped::End(shifted(s, n)),
        Skipped::At(s) => Skipped::At(shifted(s, n)),
    }
}

proof fn lemma_closing_quote_shift(x: Seq<u8>, c: Seq<u8>, i: int)
    requires
        0 <= i,
    ensures
        closing_quote(x + c, i + x.len()) == match closing_quote(c, i) {
            Some(q) => Some((q + x.len()) as nat),
            None => None::<nat>,
        },
    decreases c.len() - i,
{
    if i < c.len() {
        assert((x + c)[i + x.len()] == c[i]);
        lemma_closing_quote_shift(x, c, i + 1);
    }
}

proof fn lemma_digits_end_shift(x: Seq<u8>, c: Seq<u8>, i: int)
    requires
        0 <= i,
    ensures
        digits_end(x + c, i + x.len()) == digits_end(c, i) + x.len(),
    decreases c.len() - i,
{
    if i + 1 < c.len() {
        assert((x + c)[i + 1 + x.len()] == c[i + 1]);
        lemma_digits_end_shift(x, c, i + 1);
    }
}

proof fn lemma_word_end_shift(x: Seq<u8>, c: Seq<u8>, i: int)
    requires
        0 <= i,
    ensures
        word_end(x + c, i + x.len()) == word_end(c, i) + x.len(),
    decreases c.len() - i,
{
    if i + 1 < c.len() {
        assert((x + c)[i + 1 + x.len()] == c[i + 1]);
        lemma_word_end_shift(x, c, i + 1);
    }
}

proof fn lemma_comment_stop_shift(x: Seq<u8>, c: Seq<u8>, p: int)
    requires
        0 <= p,
    ensures
        comment_stop(x + c, p + x.len()) == comment_stop(c, p) + x.len(),
    decreases c.len() - p,
{
    if p + 1 < c.len() {
        assert((x + c)[p + 1 + x.len()] == c[p + 1]);
        lemma_comment_stop_shift(x, c, p + 1);
    }
}

proof fn lemma_skip_blank_shift(x: Seq<u8>, c: Seq<u8>, st: ScanState)
    ensures
        skip_blank(x + c, shifted(st, x.len())) == skipped_shifted(skip_blank(c, st), x.len()),
    decreases c.len() - st.pos,
{
    let n = x.len() as int;
    let p = st.pos as int;
    if p < c.len() {
        assert((x + c)[p + n] == c[p]);
        if p + 1 < c.len() {
            assert((x + c)[p + 1 + n] == c[p + 1]);
        }
        let b = c[st.pos as int];
        if b == '\n' as u8 {
            lemma_skip_blank_shift(
                x,
                c,
                ScanState { pos: st.pos + 1, start: st.pos + 1, line: st.line + 1 },
            );
        } else if is_blank(b) {
            lemma_skip_blank_shift(
                x,
                c,
                ScanState { pos: st.pos + 1, start: st.pos + 1, line: st.line },
            );
        } else if b == '/' as u8 && st.pos + 1 < c.len() && c[st.pos + 1 as int] == '/' as u8 {
            lemma_comment_stop(c, st.pos as int);
            lemma_comment_stop_shift(x, c, st.pos as int);
            lemma_skip_blank_shift(
                x,
                c,
                ScanState {
                    pos: comment_stop(c, st.pos as int) as nat,
                    start: st.start,
                    line: st.line,
                },
            );
        }
    }
}

proof fn lemma_dispatch_shift(x: Seq<u8>, c: Seq<u8>, s: ScanState)
    requires
        s.pos < c.len(),
    ensures
        dispatch(x + c, shifted(s, x.len())) == (
            shifted(dispatch(c, s).0, x.len()),
            dispatch(c, s).1,
        ),
{
    let n = x.len() as int;
    let p = s.pos as int;
    let d = x + c;
    assert(d[p + n] == c[p as int]);
    if p + 1 < c.len() {
        assert(d[p + 1 + n] == c[p + 1]);
    }
    lemma_closing_quote_shift(x, c, p + 1);
    if let Some(q) = closing_quote(c, p + 1) {
        lemma_closing_quote(c, p + 1);
        assert(d.subrange(p + 1 + n, q + n) =~= c.subrange(p + 1, q as int));
    }
    lemma_digits_end_shift(x, c, p);
    let e1 = digits_end(c, p);
    lemma_digits_end(c, p);
    if e1 + 1 < c.len() {
        assert(d[e1 + 1 + n] == c[e1 + 1]);
        lemma_digits_end_shift(x, c, e1 + 1);
        lemma_digits_end(c, e1 + 1);
    }
    lemma_digits_end_shift(x, c, e1);
    lemma_digits_end(c, e1);
    let e = number_end(c, p);
    assert(number_end(d, p + n) == e + n);
    assert(d.subrange(p + n, e + n + 1) =~= c.subrange(p, e + 1));
    lemma_word_end_shift(x, c, p);
    lemma_word_end(c, p);
    let w = word_end(c, p);
    assert(d.subrange(p + n, w + n + 1) =~= c.subrange(p, w + 1));
}

/// What comes before the scan position does not matter: scanning `x + c`
/// from a state moved past `x` gives the outcome that scanning `c` gives,
/// and a state moved past `x` in the same way.
pub proof fn law_scan_ignores_prefix(x: Seq<u8>, c: Seq<u8>, st: ScanState)
    ensures
        next_spec(x + c, shifted(st, x.len())) == (
            shifted(next_spec(c, st).0, x.len()),
            next_spec(c, st).1,
        ),
{
    lemma_skip_blank_shift(x, c, st);
    if let Skipped::At(s) = skip_blank(c, st) {
        lemma_skip_blank_at(c, st);
        lemma_dispatch_shift(x, c, s);
    }
}

/// Where skipping stops on a byte, that byte is within the source.
proof fn lemma_skip_blank_at(c: Seq<u8>, st: ScanState)
    ensures
        skip_blank(c, st) matches Skipped::At(s) ==> s.pos < c.len(),
    decreases c.len() - st.pos,
{
    if st.pos < c.len() {
        let b = c[st.pos as int];
        if b == '\n' as u8 {
            lemma_skip_blank_at(c, ScanState { pos: st.pos + 1, start: st.pos + 1, line: st.line + 1 });
        } else if is_blank(b) {
            lemma_skip_blank_at(c, ScanState { pos: st.pos + 1, start: st.pos + 1, line: st.line });
        } else if b == '/' as u8 && st.pos + 1 < c.len() && c[st.pos + 1 as int] == '/' as u8 {
            lemma_comment_stop(c, st.pos as int);
            lemma_skip_blank_at(
                c,
                ScanState {
                    pos: comment_stop(c, st.pos as int) as nat,
                    start: st.start,
                    line: st.line,
                },
            );
        }
    }
}

/// The number of newlines in a run of bytes.
pub open spec fn newlines(w: Seq<u8>) -> nat
    decreases w.len(),
{
    if w.len() == 0 {
        0
    } else {
        newlines(w.drop_last()) + if w.last() == '\n' as u8 {
            1nat
        } else {
            0nat
        }
    }
}

/// A run of spaces, tabs, carriage returns and newlines.
pub open spec fn all_blank(w: Seq<u8>) -> bool {
    forall|i: int| 0 <= i < w.len() ==> #[trigger] is_blank(w[i]) || w[i] == '\n' as u8
}

/// Skipping from inside a run of blanks that opens the source reaches the
/// end of the run, on the line that counts its newlines.
proof fn lemma_skip_leading(w: Seq<u8>, c: Seq<u8>, i: nat, line: nat)
    requires
        all_blank(w),
        i <= w.len(),
    ensures
        skip_blank(w + c, ScanState { pos: i, start: i, line: line }) == skip_blank(
            w + c,
            ScanState {
                pos: w.len(),
                start: w.len(),
                line: (line + newlines(w) - newlines(w.take(i as int))) as nat,
            },
        ),
    decreases w.len() - i,
{
    if i < w.len() {
        assert((w + c)[i as int] == w[i as int]);
        assert(w.take(i + 1 as int).drop_last() =~= w.take(i as int));
        let step: nat = if w[i as int] == '\n' as u8 {
            1
        } else {
            0
        };
        assert(newlines(w.take(i + 1 as int)) == newlines(w.take(i as int)) + step);
        lemma_newlines_bound(w, i + 1);
        lemma_skip_leading(w, c, i + 1, line + step);
    } else {
        assert(w.take(i as int) =~= w);
    }
}

proof fn lemma_newlines_bound(w: Seq<u8>, i: nat)
    requires
        i <= w.len(),
    ensures
        newlines(w.take(i as int)) <= newlines(w),
    decreases w.len(),
{
    if i < w.len() {
        assert(w.drop_last().take(i as int) =~= w.take(i as int));
        lemma_newlines_bound(w.drop_last(), i);
    } else {
        assert(w.take(i as int) =~= w);
    }
}

/// Blanks before the first lexeme do not change what the tokenizer gives:
/// scanning `w + c` from its start, where `w` is spaces, tabs, carriage
/// returns and newlines, gives the outcome of scanning `c` from its start
/// on the line that follows those newlines, with the state moved past `w`.
/// Every later call then mirrors a call on `c` (`law_scan_ignores_prefix`).
pub proof fn law_leading_blanks(w: Seq<u8>, c: Seq<u8>, line: nat)
    requires
        all_blank(w),
    ensures
        next_spec(w + c, ScanState { pos: 0, start: 0, line: line }) == (
            shifted(next_spec(c, ScanState { pos: 0, start: 0, line: line + newlines(w) }).0, w.len()),
            next_spec(c, ScanState { pos: 0, start: 0, line: line + newlines(w) }).1,
        ),
{
    assert(w.take(0) =~= Seq::<u8>::empty());
    lemma_skip_leading(w, c, 0, line);
    let st = ScanState { pos: 0, start: 0, line: line + newlines(w) };
    assert(shifted(st, w.len()) == ScanState {
        pos: w.len(),
        start: w.len(),
        line: (line + newlines(w) - newlines(w.take(0))) as nat,
    });
    law_scan_ignores_prefix(w, c, st);
}

/// The bytes after `i` up to the end of its run of digits are digits.
proof fn lemma_digits_run(c: Seq<u8>, i: int)
    requires
        0 <= i < c.len(),
    ensures
        forall|k: int| i < k <= digits_end(c, i) ==> #[trigger] is_digit(c[k]),
    decreases c.len() - i,
{
    if i + 1 < c.len() && is_digit(c[i + 1]) {
        lemma_digits_run(c, i + 1);
    }
}

/// The shape of a number lexeme: a digit first, then digits with at most
/// one dot among them.
pub open spec fn numeral_shape(w: Seq<u8>) -> bool {
    &&& w.len() > 0
    &&& is_digit(w[0])
    &&& forall|i: int| 0 <= i < w.len() ==> #[trigger] is_digit(w[i]) || w[i] == '.' as u8
    &&& forall|i: int, j: int|
        0 <= i < j < w.len() && #[trigger] w[i] == '.' as u8 ==> #[trigger] w[j] != '.' as u8
}

/// Every number lexeme, the text that the host is handed to convert, is a
/// digit, then digits with at most one dot among them.
pub proof fn law_numeral_shape(c: Seq<u8>, s: ScanState)
    requires
        s.pos < c.len(),
    ensures
        dispatch(c, s).1 matches Outcome::Token(Scanned::Numeral(w)) ==> numeral_shape(w),
{
    let p = s.pos as int;
    if is_digit(c[p]) && single_kind(c[p]) is None && pair_kinds(c[p]) is None && c[p] != '"' as u8 {
        lemma_digits_end(c, p);
        lemma_digits_run(c, p);
        let e1 = digits_end(c, p);
        let e2 = if e1 + 1 < c.len() && c[e1 + 1] == '.' as u8 {
            e1 + 1
        } else {
            e1
        };
        lemma_digits_end(c, e2);
        lemma_digits_run(c, e2);
        let e = digits_end(c, e2);
        let w = c.subrange(p, e + 1);
        assert(forall|k: int| p <= k <= e ==> is_digit(c[k]) || (k == e1 + 1 && c[k] == '.' as u8));
        assert forall|i: int| 0 <= i < w.len() implies #[trigger] is_digit(w[i]) || w[i] == '.' as u8 by {
            assert(w[i] == c[p + i]);
        }
        assert forall|i: int, j: int|
            0 <= i < j < w.len() && #[trigger] w[i] == '.' as u8 implies #[trigger] w[j] != '.' as u8 by {
            assert(w[i] == c[p + i]);
            assert(w[j] == c[p + j]);
        }
    }
}

/// Two sources that share their first `n` bytes, and whose byte at `n` is a
/// blank in both (a space, tab, carriage return or newline).
pub open spec fn agree_up_to_blank(c: Seq<u8>, d: Seq<u8>, n: int) -> bool {
    &&& 0 <= n < c.len()
    &&& n < d.len()
    &&& c.subrange(0, n) == d.subrange(0, n)
    &&& is_blank(c[n]) || c[n] == '\n' as u8
    &&& is_blank(d[n]) || d[n] == '\n' as u8
}

proof fn lemma_agree_at(c: Seq<u8>, d: Seq<u8>, n: int, i: int)
    requires
        agree_up_to_blank(c, d, n),
        0 <= i < n,
    ensures
        c[i] == d[i],
{
    assert(c.subrange(0, n)[i] == d.subrange(0, n)[i]);
}

proof fn lemma_closing_quote_local(c: Seq<u8>, d: Seq<u8>, n: int, i: int)
    requires
        agree_up_to_blank(c, d, n),
        0 <= i,
        closing_quote(c, i) matches Some(q) && q < n,
    ensures
        closing_quote(d, i) == closing_quote(c, i),
    decreases c.len() - i,
{
    lemma_closing_quote(c, i);
    if i < n {
        lemma_agree_at(c, d, n, i);
        if c[i] != '"' as u8 {
            lemma_closing_quote_local(c, d, n, i + 1);
        }
    }
}

proof fn lemma_digits_end_local(c: Seq<u8>, d: Seq<u8>, n: int, i: int)
    requires
        agree_up_to_blank(c, d, n),
        0 <= i < n,
    ensures
        digits_end(d, i) == digits_end(c, i),
        digits_end(c, i) < n,
    decreases n - i,
{
    if i + 1 < n {
        lemma_agree_at(c, d, n, i + 1);
        if is_digit(c[i + 1]) {
            lemma_digits_end_local(c, d, n, i + 1);
        }
    }
}

proof fn lemma_word_end_local(c: Seq<u8>, d: Seq<u8>, n: int, i: int)
    requires
        agree_up_to_blank(c, d, n),
        0 <= i < n,
    ensures
        word_end(d, i) == word_end(c, i),
        word_end(c, i) < n,
    decreases n - i,
{
    if i + 1 < n {
        lemma_agree_at(c, d, n, i + 1);
        if is_word_byte(c[i + 1]) {
            lemma_word_end_local(c, d, n, i + 1);
        }
    }
}

proof fn lemma_comment_stop_local(c: Seq<u8>, d: Seq<u8>, n: int, p: int)
    requires
        agree_up_to_blank(c, d, n),
        0 <= p,
        comment_stop(c, p) < n,
    ensures
        comment_stop(d, p) == comment_stop(c, p),
    decreases c.len() - p,
{
    if p + 1 < c.len() {
        lemma_comment_stop(c, p);
        lemma_agree_at(c, d, n, p + 1);
        if c[p + 1] != '\n' as u8 {
            lemma_comment_stop_local(c, d, n, p + 1);
        }
    }
}

proof fn lemma_skip_blank_local(c: Seq<u8>, d: Seq<u8>, n: int, st: ScanState)
    requires
        agree_up_to_blank(c, d, n),
        skip_blank(c, st) matches Skipped::At(s) && s.pos < n,
    ensures
        skip_blank(d, st) == skip_blank(c, st),
    decreases c.len() - st.pos,
{
    let p = st.pos as int;
    lemma_skip_blank_at(c, st);
    lemma_skip_blank_settles_pos(c, st);
    if p < c.len() {
        let b = c[p];
        if p < n {
            lemma_agree_at(c, d, n, p);
            if p + 1 < n {
                lemma_agree_at(c, d, n, p + 1);
            }
        }
        if b == '\n' as u8 {
            lemma_skip_blank_local(
                c,
                d,
                n,
                ScanState { pos: st.pos + 1, start: st.pos + 1, line: st.line + 1 },
            );
        } else if is_blank(b) {
            lemma_skip_blank_local(
                c,
                d,
                n,
                ScanState { pos: st.pos + 1, start: st.pos + 1, line: st.line },
            );
        } else if b == '/' as u8 && p + 1 < c.len() && c[p + 1] == '/' as u8 {
            lemma_comment_stop(c, p);
            let q = comment_stop(c, p);
            let next = ScanState { pos: q as nat, start: st.start, line: st.line };
            lemma_skip_blank_settles_pos(c, next);
            lemma_comment_stop_local(c, d, n, p);
            lemma_skip_blank_local(c, d, n, next);
        }
    }
}

/// Skipping never moves the scan back.
proof fn lemma_skip_blank_settles_pos(c: Seq<u8>, st: ScanState)
    ensures
        skip_blank(c, st) matches Skipped::At(s) ==> s.pos >= st.pos,
    decreases c.len() - st.pos,
{
    if st.pos < c.len() {
        let b = c[st.pos as int];
        if b == '\n' as u8 {
            lemma_skip_blank_settles_pos(c, ScanState { pos: st.pos + 1, start: st.pos + 1, line: st.line + 1 });
        } else if is_blank(b) {
            lemma_skip_blank_settles_pos(c, ScanState { pos: st.pos + 1, start: st.pos + 1, line: st.line });
        } else if b == '/' as u8 && st.pos + 1 < c.len() && c[st.pos + 1 as int] == '/' as u8 {
            lemma_comment_stop(c, st.pos as int);
            lemma_skip_blank_settles_pos(
                c,
                ScanState {
                    pos: comment_stop(c, st.pos as int) as nat,
                    start: st.start,
                    line: st.line,
                },
            );
        }
    }
}

/// What follows a lexeme does not matter once a blank ends it: where two
/// sources share their first `n` bytes and both have a blank at `n`, a call
/// whose lexeme ends before `n` gives the same outcome and state on both.
pub proof fn law_scan_ignores_what_follows(c: Seq<u8>, d: Seq<u8>, n: int, st: ScanState)
    requires
        agree_up_to_blank(c, d, n),
        next_spec(c, st).0.pos < n,
        !(next_spec(c, st).1 is Finished),
    ensures
        next_spec(d, st) == next_spec(c, st),
{
    lemma_skip_blank_at(c, st);
    if let Skipped::At(s) = skip_blank(c, st) {
        let p = s.pos as int;
        lemma_dispatch_bounds_pos(c, s);
        lemma_skip_blank_local(c, d, n, st);
        lemma_agree_at(c, d, n, p);
        if p + 1 < n {
            lemma_agree_at(c, d, n, p + 1);
        }
        let b = c[p];
        if b == '"' as u8 {
            lemma_closing_quote(c, p + 1);
            lemma_closing_quote_local(c, d, n, p + 1);
            if let Some(q) = closing_quote(c, p + 1) {
                assert(d.subrange(p + 1, q as int) =~= c.subrange(p + 1, q as int)) by {
                    assert forall|k: int| p + 1 <= k < q implies d[k] == c[k] by {
                        lemma_agree_at(c, d, n, k);
                    }
                }
            }
        } else if is_digit(b) {
            lemma_digits_end(c, p);
            lemma_digits_end_local(c, d, n, p);
            let e1 = digits_end(c, p);
            if e1 + 1 < n {
                lemma_agree_at(c, d, n, e1 + 1);
            }
            let e2 = if e1 + 1 < c.len() && c[e1 + 1] == '.' as u8 {
                e1 + 1
            } else {
                e1
            };
            lemma_digits_end_local(c, d, n, e2);
            lemma_digits_end(c, e2);
            let e = digits_end(c, e2);
            assert(d.subrange(p, e + 1) =~= c.subrange(p, e + 1)) by {
                assert forall|k: int| p <= k <= e implies d[k] == c[k] by {
                    lemma_agree_at(c, d, n, k);
                }
            }
        } else if is_alpha(b) {
            lemma_word_end(c, p);
            lemma_word_end_local(c, d, n, p);
            let e = word_end(c, p);
            assert(d.subrange(p, e + 1) =~= c.subrange(p, e + 1)) by {
                assert forall|k: int| p <= k <= e implies d[k] == c[k] by {
                    lemma_agree_at(c, d, n, k);
                }
            }
        }
    }
}

/// A lexeme that `dispatch` cuts ends at or after where it starts.
proof fn lemma_dispatch_bounds_pos(c: Seq<u8>, s: ScanState)
    requires
        s.pos < c.len(),
    ensures
        dispatch(c, s).0.pos >= s.pos,
{
    lemma_closing_quote(c, s.pos + 1 as int);
    lemma_digits_end(c, s.pos as int);
    let e1 = digits_end(c, s.pos as int);
    if e1 + 1 < c.len() {
        lemma_digits_end(c, e1 + 1);
    }
    lemma_digits_end(c, e1);
    lemma_word_end(c, s.pos as int);
}

/// Blanks between lexemes do not change what the tokenizer gives after
/// them: scanning `a + w + c` from the end of `a`, where `w` is spaces,
/// tabs, carriage returns and newlines, gives the outcome of scanning `c`
/// from its start on the line that follows those newlines, with the state
/// moved past `a + w`. Before the blanks, `law_scan_ignores_what_follows`
/// gives the same calls whatever blanks follow.
pub proof fn law_blanks_between(a: Seq<u8>, w: Seq<u8>, c: Seq<u8>, line: nat)
    requires
        all_blank(w),
    ensures
        next_spec(a + w + c, ScanState { pos: a.len(), start: a.len(), line: line }) == (
            shifted(
                next_spec(c, ScanState { pos: 0, start: 0, line: line + newlines(w) }).0,
                a.len() + w.len(),
            ),
            next_spec(c, ScanState { pos: 0, start: 0, line: line + newlines(w) }).1,
        ),
{
    assert(a + w + c =~= a + (w + c));
    let st = ScanState { pos: 0, start: 0, line: line };
    assert(shifted(st, a.len()) == ScanState { pos: a.len(), start: a.len(), line: line });
    law_scan_ignores_prefix(a, w + c, st);
    law_leading_blanks(w, c, line);
}

/// The ten ASCII digit bytes, `0` (0x30) through `9` (0x39).
pub open spec fn ascii_digit_byte(b: u8) -> bool {
    0x30 <= b <= 0x39
}

/// The ASCII letters, `A` (0x41) through `Z` (0x5A) and `a` (0x61) through
/// `z` (0x7A).
pub open spec fn ascii_letter_byte(b: u8) -> bool {
    (0x41 <= b <= 0x5A) || (0x61 <= b <= 0x7A)
}

/// The bytes that may continue a word: letters, digits and `_` (0x5F).
pub open spec fn ascii_word_byte(b: u8) -> bool {
    ascii_letter_byte(b) || ascii_digit_byte(b) || b == 0x5F
}

/// The tokenizer's digits are the ten ASCII digits, its letters the ASCII
/// letters of either case, and its word bytes those with digits and `_`.
pub proof fn law_byte_classes(b: u8)
    ensures
        is_digit(b) <==> ascii_digit_byte(b),
        is_alpha(b) <==> ascii_letter_byte(b),
        is_word_byte(b) <==> ascii_word_byte(b),
{
}

/// A source that is one digit scans to a number whose text is that digit,
/// and a source of two digits to one number of both.
pub proof fn law_digits_scan_to_a_number(b: u8, b2: u8, line: nat)
    requires
        ascii_digit_byte(b),
        ascii_digit_byte(b2),
    ensures
        next_spec(seq![b], ScanState { pos: 0, start: 0, line: line }) == (
            ScanState { pos: 0, start: 0, line: line },
            Outcome::Token(Scanned::Numeral(seq![b])),
        ),
        next_spec(seq![b, b2], ScanState { pos: 0, start: 0, line: line }) == (
            ScanState { pos: 1, start: 0, line: line },
            Outcome::Token(Scanned::Numeral(seq![b, b2])),
        ),
{
    let c = seq![b];
    let d = seq![b, b2];
    assert(digits_end(c, 0) == 0);
    assert(digits_end(d, 1) == 1);
    assert(digits_end(d, 0) == 1);
    assert(c.subrange(0, 1) =~= c);
    assert(d.subrange(0, 2) =~= d);
}

/// The end of a run of word bytes that reaches the end of the source.
proof fn lemma_word_to_end(w: Seq<u8>, i: int)
    requires
        0 <= i < w.len(),
        forall|k: int| 0 <= k < w.len() ==> #[trigger] ascii_word_byte(w[k]),
    ensures
        word_end(w, i) == w.len() - 1,
    decreases w.len() - i,
{
    if i + 1 < w.len() {
        assert(ascii_word_byte(w[i + 1]));
        lemma_word_to_end(w, i + 1);
    }
}

/// A source that is a word, a letter of either case and then letters,
/// digits and `_`, scans to one token over the whole word: its reserved
/// word, or an identifier; an identifier where the word starts with a
/// capital, since every reserved word is lower case.
pub proof fn law_word_scans_to_a_name(w: Seq<u8>, line: nat)
    requires
        w.len() > 0,
        ascii_letter_byte(w[0]),
        forall|k: int| 0 <= k < w.len() ==> #[trigger] ascii_word_byte(w[k]),
    ensures
        next_spec(w, ScanState { pos: 0, start: 0, line: line }) == (
            ScanState { pos: (w.len() - 1) as nat, start: 0, line: line },
            Outcome::Token(Scanned::Simple(word_kind(w))),
        ),
        0x41 <= w[0] <= 0x5A ==> word_kind(w) == TokenType::Identifier,
{
    lemma_word_to_end(w, 0);
    assert(w.subrange(0, w.len() as int) =~= w);
    if 0x41 <= w[0] <= 0x5A {
        assert(keyword_kind(w) is None) by {
            if keyword_kind(w) is Some {
                assert(0x61 <= w[0] <= 0x7A);
            }
        }
    }
}

} // verus!
