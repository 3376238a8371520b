use vstd::prelude::*;

use crate::error::Error;
use crate::source::Source;

verus! {

/// A half-open byte range `[start, end)` of the source text.
#[derive(Clone, Copy, PartialEq, Eq, Debug, Structural)]
pub struct Span {
    pub start: usize,
    pub end: usize,
}

/// What a token is.
#[derive(Clone, Copy, PartialEq, Eq, Debug, Structural)]
pub enum TokenType {
    Number,
    LParen,
    RParen,
    Add,
    Sub,
    Mul,
    Div,
    EOF,
}

/// A classified lexeme and the bytes it covers.
#[derive(Clone, Copy, PartialEq, Eq, Debug, Structural)]
pub struct Token {
    pub ttype: TokenType,
    pub span: Span,
}

/// The tokens of a source text, ending with one `EOF` token.
pub struct Tokens<'t> {
    pub source: &'t Source,
    pub tokens: Vec<Token>,
}

/// A read position in a token stream.
pub struct TokensIter<'t> {
    pub tokens: &'t Tokens<'t>,
    pub index: usize,
}

/// Space, tab, line feed or carriage return: what separates tokens.
pub open spec fn is_ws(c: u8) -> bool {
    c == 32u8 || c == 9u8 || c == 10u8 || c == 13u8
}

/// An ASCII decimal digit.
pub open spec fn is_digit(c: u8) -> bool {
    48u8 <= c <= 57u8
}

/// The kind of a one-byte operator or parenthesis.
pub open spec fn symbol_kind(c: u8) -> Option<TokenType> {
    if c == 43u8 {
        Some(TokenType::Add)
    } else if c == 45u8 {
        Some(TokenType::Sub)
    } else if c == 42u8 {
        Some(TokenType::Mul)
    } else if c == 47u8 {
        Some(TokenType::Div)
    } else if c == 40u8 {
        Some(TokenType::LParen)
    } else if c == 41u8 {
        Some(TokenType::RParen)
    } else {
        None
    }
}

/// The kind of the token whose first byte is `c`.
pub open spec fn lexeme_kind(c: u8) -> TokenType {
    match symbol_kind(c) {
        Some(k) => k,
        None => TokenType::Number,
    }
}

/// The first position at or after `i` that does not hold whitespace.
pub open spec fn skip_ws(b: Seq<u8>, i: int) -> int
    decreases b.len() - i,
{
    if 0 <= i < b.len() && is_ws(b[i]) {
        skip_ws(b, i + 1)
    } else {
        i
    }
}

/// The first position at or after `i` that does not hold a digit.
pub open spec fn digits_end(b: Seq<u8>, i: int) -> int
    decreases b.len() - i,
{
    if 0 <= i < b.len() && is_digit(b[i]) {
        digits_end(b, i + 1)
    } else {
        i
    }
}

/// The end of the longest token starting at `i`; `i` itself where none starts there.
/// A token is one of `+ - * / ( )`, or `digits` optionally followed by `.digits`.
pub open spec fn lexeme_end(b: Seq<u8>, i: int) -> int {
    if !(0 <= i < b.len()) {
        i
    } else if symbol_kind(b[i]).is_some() {
        i + 1
    } else if is_digit(b[i]) {
        let d = digits_end(b, i);
        if d < b.len() && d + 1 < b.len() && b[d] == 46u8 && is_digit(b[d + 1]) {
            digits_end(b, d + 1)
        } else {
            d
        }
    } else {
        i
    }
}

/// The token spelled by bytes `[s, e)`.
pub open spec fn token_at(b: Seq<u8>, s: int, e: int) -> Token {
    Token { ttype: lexeme_kind(b[s]), span: Span { start: s as usize, end: e as usize } }
}

/// The empty end-of-input token at `pos`.
pub open spec fn eof_at(pos: int) -> Token {
    Token { ttype: TokenType::EOF, span: Span { start: pos as usize, end: pos as usize } }
}

pub proof fn lemma_skip_ws(b: Seq<u8>, i: int)
    ensures
        skip_ws(b, i) >= i,
        0 <= i <= b.len() ==> skip_ws(b, i) <= b.len(),
        0 <= skip_ws(b, i) < b.len() ==> !is_ws(b[skip_ws(b, i)]),
        forall|k: int| i <= k < skip_ws(b, i) ==> is_ws(#[trigger] b[k]),
    decreases b.len() - i,
{
    if 0 <= i < b.len() && is_ws(b[i]) {
        lemma_skip_ws(b, i + 1);
    }
}

pub proof fn lemma_digits_end(b: Seq<u8>, i: int)
    ensures
        digits_end(b, i) >= i,
        0 <= i <= b.len() ==> digits_end(b, i) <= b.len(),
        forall|k: int| i <= k < digits_end(b, i) ==> is_digit(#[trigger] b[k]),
    decreases b.len() - i,
{
    if 0 <= i < b.len() && is_digit(b[i]) {
        lemma_digits_end(b, i + 1);
    }
}

pub proof fn lemma_lexeme_end(b: Seq<u8>, i: int)
    ensures
        lexeme_end(b, i) >= i,
        0 <= i <= b.len() ==> lexeme_end(b, i) <= b.len(),
{
    lemma_digits_end(b, i);
    if 0 <= i < b.len() && is_digit(b[i]) {
        let d = digits_end(b, i);
        lemma_digits_end(b, d + 1);
    }
}

/// Scans from `pos`: each round skips whitespace, takes the longest token there,
/// and skips the whitespace after it. Returns the tokens found and the position
/// at which no further token starts.
pub open spec fn scan(b: Seq<u8>, pos: int) -> (Seq<Token>, int)
    decreases b.len() - pos,
    via scan_decreases
{
    let s = skip_ws(b, pos);
    let e = lexeme_end(b, s);
    if 0 <= pos && s < e {
        let rest = scan(b, skip_ws(b, e));
        (seq![token_at(b, s, e)] + rest.0, rest.1)
    } else {
        (Seq::empty(), pos)
    }
}

#[via_fn]
proof fn scan_decreases(b: Seq<u8>, pos: int) {
    let s = skip_ws(b, pos);
    lemma_skip_ws(b, pos);
    lemma_lexeme_end(b, s);
    let e = lexeme_end(b, s);
    lemma_skip_ws(b, e);
}

/// The token stream of `b`: every token that the scan finds, then `EOF` at the
/// position where it stopped.
pub open spec fn token_stream(b: Seq<u8>) -> Seq<Token> {
    scan(b, 0).0.push(eof_at(scan(b, 0).1))
}

/// Nothing but whitespace follows the last token of `b`.
pub open spec fn lexes(b: Seq<u8>) -> bool {
    skip_ws(b, scan(b, 0).1) == b.len()
}

pub proof fn lemma_scan(b: Seq<u8>, pos: int)
    requires
        0 <= pos <= b.len(),
        b.len() <= usize::MAX,
    ensures
        pos <= scan(b, pos).1 <= b.len(),
        forall|k: int|
            0 <= k < scan(b, pos).0.len() ==> {
                &&& (#[trigger] scan(b, pos).0[k]).ttype != TokenType::EOF
                &&& pos <= scan(b, pos).0[k].span.start < scan(b, pos).0[k].span.end
                &&& scan(b, pos).0[k].span.end <= scan(b, pos).1
            },
        forall|j: int, k: int|
            0 <= j < k < scan(b, pos).0.len() ==> (#[trigger] scan(b, pos).0[j]).span.end
                <= (#[trigger] scan(b, pos).0[k]).span.start,
    decreases b.len() - pos,
{
    let s = skip_ws(b, pos);
    lemma_skip_ws(b, pos);
    lemma_lexeme_end(b, s);
    let e = lexeme_end(b, s);
    if s < e {
        let next = skip_ws(b, e);
        lemma_skip_ws(b, e);
        lemma_scan(b, next);
        let rest = scan(b, next);
        let all = scan(b, pos).0;
        assert(all == seq![token_at(b, s, e)] + rest.0);
        assert forall|k: int| 0 <= k < all.len() implies {
            &&& (#[trigger] all[k]).ttype != TokenType::EOF
            &&& pos <= all[k].span.start < all[k].span.end
            &&& all[k].span.end <= scan(b, pos).1
        } by {
            if k > 0 {
                assert(all[k] == rest.0[k - 1]);
            } else {
                if symbol_kind(b[s]).is_some() {
                } else {
                    assert(is_digit(b[s]));
                }
            }
        }
        assert forall|j: int, k: int| 0 <= j < k < all.len() implies (#[trigger] all[j]).span.end
            <= (#[trigger] all[k]).span.start by {
            assert(all[k] == rest.0[k - 1]);
            if j > 0 {
                assert(all[j] == rest.0[j - 1]);
            }
        }
    }
}

/// The token stream is ordered: every token but the last is a non-empty lexeme,
/// each ends at or before the next one starts, and the `EOF` token, empty,
/// comes after all of them within the text.
pub proof fn lemma_stream_ordered(b: Seq<u8>)
    requires
        b.len() <= usize::MAX,
    ensures
        forall|k: int|
            0 <= k < token_stream(b).len() - 1 ==> {
                &&& (#[trigger] token_stream(b)[k]).ttype != TokenType::EOF
                &&& token_stream(b)[k].span.start < token_stream(b)[k].span.end
            },
        forall|j: int, k: int|
            0 <= j < k < token_stream(b).len() ==> (#[trigger] token_stream(b)[j]).span.end
                <= (#[trigger] token_stream(b)[k]).span.start,
        token_stream(b).last().ttype == TokenType::EOF,
        token_stream(b).last().span.start == token_stream(b).last().span.end,
        token_stream(b).last().span.end <= b.len(),
{
    lemma_scan(b, 0);
    let ts = token_stream(b);
    let found = scan(b, 0).0;
    assert forall|j: int, k: int| 0 <= j < k < ts.len() implies (#[trigger] ts[j]).span.end
        <= (#[trigger] ts[k]).span.start by {
        assert(ts[j] == found[j]);
        if k < found.len() {
            assert(ts[k] == found[k]);
        }
    }
    assert forall|k: int| 0 <= k < ts.len() - 1 implies {
        &&& (#[trigger] ts[k]).ttype != TokenType::EOF
        &&& ts[k].span.start < ts[k].span.end
    } by {
        assert(ts[k] == found[k]);
    }
}

/// Byte `p` lies within the span of one of `ts`.
pub open spec fn in_some_token(ts: Seq<Token>, p: int) -> bool {
    exists|k: int| 0 <= k < ts.len() && (#[trigger] ts[k]).span.start <= p < ts[k].span.end
}

proof fn lemma_scan_covers(b: Seq<u8>, pos: int)
    requires
        0 <= pos <= b.len(),
        b.len() <= usize::MAX,
    ensures
        forall|p: int| pos <= p < scan(b, pos).1 ==> is_ws(#[trigger] b[p]) || in_some_token(scan(b, pos).0, p),
        forall|k: int|
            0 <= k < scan(b, pos).0.len() ==> (#[trigger] scan(b, pos).0[k]).span.end == lexeme_end(
                b,
                scan(b, pos).0[k].span.start as int,
            ),
    decreases b.len() - pos,
{
    let s = skip_ws(b, pos);
    lemma_skip_ws(b, pos);
    lemma_lexeme_end(b, s);
    let e = lexeme_end(b, s);
    if s < e {
        let next = skip_ws(b, e);
        lemma_skip_ws(b, e);
        lemma_scan_covers(b, next);
        lemma_scan(b, next);
        let rest = scan(b, next);
        let all = scan(b, pos).0;
        assert(all == seq![token_at(b, s, e)] + rest.0);
        assert forall|p: int| pos <= p < scan(b, pos).1 implies is_ws(#[trigger] b[p]) || in_some_token(all, p) by {
            if s <= p < e {
                assert(all[0].span.start <= p < all[0].span.end);
            } else if next <= p {
                if !is_ws(b[p]) {
                    let k = choose|k: int| 0 <= k < rest.0.len() && (#[trigger] rest.0[k]).span.start <= p < rest.0[k].span.end;
                    assert(all[k + 1] == rest.0[k]);
                }
            }
        }
        assert forall|k: int| 0 <= k < all.len() implies (#[trigger] all[k]).span.end == lexeme_end(
            b,
            all[k].span.start as int,
        ) by {
            if k > 0 {
                assert(all[k] == rest.0[k - 1]);
            }
        }
    }
}

/// Where tokenizing succeeds, the text is its tokens and whitespace: every byte
/// is whitespace or lies within a token, and each token but `EOF` is the longest
/// lexeme that starts where it does.
pub proof fn lemma_lexes_covers(b: Seq<u8>)
    requires
        lexes(b),
        b.len() <= usize::MAX,
    ensures
        forall|p: int| 0 <= p < b.len() ==> is_ws(#[trigger] b[p]) || in_some_token(token_stream(b), p),
        forall|k: int|
            0 <= k < token_stream(b).len() - 1 ==> (#[trigger] token_stream(b)[k]).span.end == lexeme_end(
                b,
                token_stream(b)[k].span.start as int,
            ),
{
    lemma_scan_covers(b, 0);
    lemma_scan(b, 0);
    let stop = scan(b, 0).1;
    lemma_skip_ws(b, stop);
    let found = scan(b, 0).0;
    let ts = token_stream(b);
    assert forall|p: int| 0 <= p < b.len() implies is_ws(#[trigger] b[p]) || in_some_token(ts, p) by {
        if p < stop && !is_ws(b[p]) {
            let k = choose|k: int| 0 <= k < found.len() && (#[trigger] found[k]).span.start <= p < found[k].span.end;
            assert(ts[k] == found[k]);
        }
    }
    assert forall|k: int| 0 <= k < ts.len() - 1 implies (#[trigger] ts[k]).span.end == lexeme_end(
        b,
        ts[k].span.start as int,
    ) by {
        assert(ts[k] == found[k]);
    }
}

/// A byte that some token may hold: a digit, `.`, an operator or a parenthesis.
pub open spec fn is_token_byte(c: u8) -> bool {
    is_digit(c) || c == 46u8 || symbol_kind(c) is Some
}

/// A byte that no token holds and that is no whitespace.
pub open spec fn is_stray(c: u8) -> bool {
    !is_ws(c) && !is_token_byte(c)
}

/// Every byte that token `t` covers is a token byte.
pub open spec fn lexeme_ok(b: Seq<u8>, t: Token) -> bool {
    forall|p: int| t.span.start <= p < t.span.end ==> is_token_byte(#[trigger] b[p])
}

proof fn lemma_scan_lexemes(b: Seq<u8>, pos: int)
    requires
        0 <= pos <= b.len(),
        b.len() <= usize::MAX,
    ensures
        forall|k: int| 0 <= k < scan(b, pos).0.len() ==> lexeme_ok(b, #[trigger] scan(b, pos).0[k]),
    decreases b.len() - pos,
{
    let s = skip_ws(b, pos);
    lemma_skip_ws(b, pos);
    lemma_lexeme_end(b, s);
    let e = lexeme_end(b, s);
    if s < e {
        let next = skip_ws(b, e);
        lemma_skip_ws(b, e);
        lemma_scan_lexemes(b, next);
        let rest = scan(b, next);
        let all = scan(b, pos).0;
        assert(all == seq![token_at(b, s, e)] + rest.0);
        assert forall|k: int| 0 <= k < all.len() implies lexeme_ok(b, #[trigger] all[k]) by {
            if k > 0 {
                assert(all[k] == rest.0[k - 1]);
            } else {
                assert forall|p: int| all[k].span.start <= p < all[k].span.end implies is_token_byte(
                    #[trigger] b[p]) by {
                    lemma_lexeme_bytes(b, s, p);
                }
            }
        }
    }
}

/// Every token of the stream covers token bytes only, within the text.
pub proof fn lemma_stream_lexemes(b: Seq<u8>)
    requires
        b.len() <= usize::MAX,
    ensures
        forall|k: int| 0 <= k < token_stream(b).len() ==> {
            &&& lexeme_ok(b, #[trigger] token_stream(b)[k])
            &&& token_stream(b)[k].span.start <= token_stream(b)[k].span.end <= b.len()
        },
{
    lemma_scan_lexemes(b, 0);
    lemma_stream_ordered(b);
    let ts = token_stream(b);
    let found = scan(b, 0).0;
    assert forall|k: int| 0 <= k < ts.len() implies {
        &&& lexeme_ok(b, #[trigger] ts[k])
        &&& ts[k].span.start <= ts[k].span.end <= b.len()
    } by {
        if k < found.len() {
            assert(ts[k] == found[k]);
            assert(ts[k].span.end <= ts[ts.len() - 1].span.start);
        }
    }
}

proof fn lemma_lexeme_bytes(b: Seq<u8>, s: int, k: int)
    requires
        0 <= s <= k < lexeme_end(b, s),
    ensures
        is_token_byte(b[k]),
{
    lemma_digits_end(b, s);
    if 0 <= s < b.len() && is_digit(b[s]) && symbol_kind(b[s]) is None {
        let d = digits_end(b, s);
        if d + 1 < b.len() && b[d] == 46u8 && is_digit(b[d + 1]) {
            lemma_digits_end(b, d + 1);
            if k > d {
                assert(is_digit(b[k]));
            }
        }
    }
}

proof fn lemma_scan_stops_before(b: Seq<u8>, pos: int, i: int)
    requires
        0 <= pos <= i < b.len(),
        is_stray(b[i]),
    ensures
        scan(b, pos).1 <= i,
    decreases b.len() - pos,
{
    let s = skip_ws(b, pos);
    lemma_skip_ws(b, pos);
    lemma_lexeme_end(b, s);
    let e = lexeme_end(b, s);
    if s > i {
        assert(is_ws(b[i]));
    }
    if s < e {
        if e > i {
            lemma_lexeme_bytes(b, s, i);
        }
        let next = skip_ws(b, e);
        lemma_skip_ws(b, e);
        if next > i {
            assert(is_ws(b[i]));
        }
        lemma_scan_stops_before(b, next, i);
    }
}

/// A stray byte anywhere in the text makes tokenizing fail, and the error's
/// span, which runs from where scanning stopped to the end, holds that byte.
pub proof fn lemma_stray_byte_rejected(b: Seq<u8>, i: int)
    requires
        0 <= i < b.len(),
        is_stray(b[i]),
    ensures
        !lexes(b),
        scan(b, 0).1 <= i,
{
    lemma_scan_stops_before(b, 0, i);
    let stop = scan(b, 0).1;
    lemma_skip_ws(b, stop);
    if skip_ws(b, stop) > i {
        assert(is_ws(b[i]));
    }
}

fn is_space(c: u8) -> (r: bool)
    ensures
        r == is_ws(c),
{
    c == 32u8 || c == 9u8 || c == 10u8 || c == 13u8
}

fn is_digit_byte(c: u8) -> (r: bool)
    ensures
        r == is_digit(c),
{
    48u8 <= c && c <= 57u8
}

fn skip_whitespace(b: &[u8], i: usize) -> (r: usize)
    requires
        i <= b@.len(),
    ensures
        r == skip_ws(b@, i as int),
{
    let mut j = i;
    while j < b.len() && is_space(b[j])
        invariant
            i <= j <= b@.len(),
            skip_ws(b@, i as int) == skip_ws(b@, j as int),
        decreases b@.len() - j,
    {
        j += 1;
    }
    j
}

fn skip_digits(b: &[u8], i: usize) -> (r: usize)
    requires
        i <= b@.len(),
    ensures
        r == digits_end(b@, i as int),
{
    let mut j = i;
    while j < b.len() && is_digit_byte(b[j])
        invariant
            i <= j <= b@.len(),
            digits_end(b@, i as int) == digits_end(b@, j as int),
        decreases b@.len() - j,
    {
        j += 1;
    }
    j
}

/// The kind of the token starting with byte `c`, or `None` where `c` starts none.
fn determine_type(c: u8) -> (r: Option<TokenType>)
    ensures
        r == (if symbol_kind(c).is_some() || is_digit(c) {
            Some(lexeme_kind(c))
        } else {
            None::<TokenType>
        }),
{
    if c == 43u8 {
        Some(TokenType::Add)
    } else if c == 45u8 {
        Some(TokenType::Sub)
    } else if c == 42u8 {
        Some(TokenType::Mul)
    } else if c == 47u8 {
        Some(TokenType::Div)
    } else if c == 40u8 {
        Some(TokenType::LParen)
    } else if c == 41u8 {
        Some(TokenType::RParen)
    } else if is_digit_byte(c) {
        Some(TokenType::Number)
    } else {
        None
    }
}

/// The end of the longest token that starts at `s`, or `s` where none does.
fn next_token(b: &[u8], s: usize) -> (r: usize)
    requires
        s <= b@.len(),
    ensures
        r == lexeme_end(b@, s as int),
{
    if s >= b.len() {
        return s;
    }
    match determine_type(b[s]) {
        None => s,
        Some(TokenType::Number) => {
            let d = skip_digits(b, s);
            proof {
                lemma_digits_end(b@, s as int);
            }
            if d < b.len() && d + 1 < b.len() && b[d] == 46u8 && is_digit_byte(b[d + 1]) {
                skip_digits(b, d + 1)
            } else {
                d
            }
        },
        Some(_) => s + 1,
    }
}

impl Token {
    /// The token of kind `ttype` covering `[start, end)`.
    pub fn from(ttype: TokenType, start: usize, end: usize) -> (r: Token)
        ensures
            r == (Token { ttype, span: Span { start, end } }),
    {
        Token { ttype, span: Span { start, end } }
    }

    /// The end-of-input token, empty, at `pos`.
    pub fn eof(pos: usize) -> (r: Token)
        ensures
            r == eof_at(pos as int),
    {
        Token { ttype: TokenType::EOF, span: Span { start: pos, end: pos } }
    }
}

impl<'t> Tokens<'t> {
    /// The stream ends with `EOF`, and each token covers token bytes of the
    /// source only.
    pub open spec fn wf(&self) -> bool {
        &&& self.tokens@.len() > 0
        &&& self.tokens@.last().ttype == TokenType::EOF
        &&& forall|k: int| 0 <= k < self.tokens@.len() ==> {
            &&& lexeme_ok(self.source.bytes(), #[trigger] self.tokens@[k])
            &&& self.tokens@[k].span.start <= self.tokens@[k].span.end <= self.source.bytes().len()
        }
    }

    /// A cursor at the first token.
    pub fn iter(&'t self) -> (r: TokensIter<'t>)
        ensures
            r.tokens == self,
            r.index == 0,
    {
        TokensIter::new(self)
    }
}

impl<'t> TokensIter<'t> {
    pub fn new(tokens: &'t Tokens<'t>) -> (r: Self)
        ensures
            r.tokens == tokens,
            r.index == 0,
    {
        TokensIter { tokens, index: 0 }
    }

    /// The token under the cursor, which stays where it is.
    pub fn peek(&self) -> (r: &Token)
        requires
            self.index < self.tokens.tokens@.len(),
        ensures
            *r == self.tokens.tokens@[self.index as int],
    {
        &self.tokens.tokens[self.index]
    }

    /// The token under the cursor, moving past it; `None` past the last token.
    pub fn next(&mut self) -> (r: Option<Token>)
        ensures
            final(self).tokens == old(self).tokens,
            old(self).index < old(self).tokens.tokens@.len() ==> {
                &&& r == Some(old(self).tokens.tokens@[old(self).index as int])
                &&& final(self).index == old(self).index + 1
            },
            old(self).index >= old(self).tokens.tokens@.len() ==> {
                &&& r is None
                &&& final(self).index == old(self).index
            },
    {
        if self.index < self.tokens.tokens.len() {
            let t = self.tokens.tokens[self.index];
            self.index = self.index + 1;
            Some(t)
        } else {
            None
        }
    }
}

/// Splits the text of `input` into tokens.
///
/// Fails where something other than whitespace follows the last token: the
/// error's span runs from the position where scanning stopped to the end of the
/// text, and it carries the tokens found before that point.
pub fn tokenize<'t>(input: &'t Source) -> (r: Result<Tokens<'t>, Error<'t>>)
    ensures
        match r {
            Ok(t) => {
                &&& lexes(input.bytes())
                &&& t.source == input
                &&& t.tokens@ == token_stream(input.bytes())
                &&& t.wf()
            },
            Err(e) => {
                &&& !lexes(input.bytes())
                &&& e.tokens.source == input
                &&& e.tokens.wf()
                &&& e.tokens.tokens@ == token_stream(input.bytes())
                &&& e.span.start == scan(input.bytes(), 0).1
                &&& e.span.end == input.bytes().len()
                &&& e.message@ == unrecognized_message()
            },
        },
{
    let b = input.text.as_str().as_bytes();
    let ghost bs = b@;
    assert(bs == input.bytes());
    let mut position: usize = 0;
    let mut tokens: Vec<Token> = Vec::new();
    loop
        invariant
            b@ == bs,
            position <= bs.len(),
            scan(bs, 0) == (tokens@ + scan(bs, position as int).0, scan(bs, position as int).1),
        ensures
            position <= bs.len(),
            scan(bs, 0).0 == tokens@,
            scan(bs, 0).1 == position,
        decreases bs.len() - position,
    {
        let s = skip_whitespace(b, position);
        proof {
            lemma_skip_ws(bs, position as int);
            lemma_lexeme_end(bs, s as int);
        }
        let e = next_token(b, s);
        if e == s {
            assert(scan(bs, position as int) == (Seq::<Token>::empty(), position as int));
            assert(tokens@ + Seq::<Token>::empty() =~= tokens@);
            break;
        }
        let ttype = match determine_type(b[s]) {
            Some(k) => k,
            None => TokenType::Number,
        };
        let token = Token::from(ttype, s, e);
        proof {
            assert(token == token_at(bs, s as int, e as int));
            let rest = scan(bs, skip_ws(bs, e as int));
            assert(scan(bs, position as int).0 == seq![token] + rest.0);
            assert(tokens@ + scan(bs, position as int).0 =~= tokens@.push(token) + rest.0);
            lemma_skip_ws(bs, e as int);
        }
        tokens.push(token);
        position = skip_whitespace(b, e);
    }
    tokens.push(Token::eof(position));
    let rest = skip_whitespace(b, position);
    let end = b.len();
    let stream = Tokens { source: input, tokens };
    proof {
        lemma_stream_lexemes(bs);
        lemma_stream_ordered(bs);
    }
    assert(stream.tokens@ =~= token_stream(bs));
    if rest == end {
        Ok(stream)
    } else {
        Err(Error::new(unrecognized(), stream, Span { start: position, end }))
    }
}

pub open spec fn unrecognized_message() -> Seq<char> {
    "unrecognized character(s)"@
}

fn unrecognized() -> (r: String)
    ensures
        r@ == unrecognized_message(),
{
    String::from_str("unrecognized character(s)")
}

} // verus!
