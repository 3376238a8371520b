use vstd::prelude::*;

use crate::error::Error;
use crate::lexer::{is_token_byte, lexeme_ok, Span, Token, TokenType, Tokens, TokensIter};

verus! {

/// A binary operator.
#[derive(Clone, Copy, PartialEq, Eq, Debug, Structural)]
pub enum BinOp {
    Add,
    Sub,
    Mul,
    Div,
}

/// An expression as parsed: a number literal (by its span in the source), a
/// parenthesized expression, or an operator applied to two operands.
#[derive(Debug)]
pub enum Expr {
    Number(Span),
    Paren(Box<Expr>),
    Binary(BinOp, Box<Expr>, Box<Expr>),
}

/// What the parser wanted where it failed.
#[derive(Clone, Copy, PartialEq, Eq, Debug, Structural)]
pub enum Expected {
    /// A number or `(`.
    Value,
    /// The `)` closing a parenthesis.
    Close,
    /// End of input or an operator, after a complete expression.
    End,
}

/// The outcome of parsing one tier from a token index: the expression and the
/// index after it, or what was expected and the index of the offending token.
pub type Parsed = Result<(Expr, int), (Expected, int)>;

/// The kind of token `i`; past the end, `EOF`.
pub open spec fn kind_at(ts: Seq<Token>, i: int) -> TokenType {
    if 0 <= i < ts.len() {
        ts[i].ttype
    } else {
        TokenType::EOF
    }
}

/// The operator of a `+` or `-` token.
pub open spec fn additive(k: TokenType) -> Option<BinOp> {
    match k {
        TokenType::Add => Some(BinOp::Add),
        TokenType::Sub => Some(BinOp::Sub),
        _ => None,
    }
}

/// The operator of a `*` or `/` token.
pub open spec fn multiplicative(k: TokenType) -> Option<BinOp> {
    match k {
        TokenType::Mul => Some(BinOp::Mul),
        TokenType::Div => Some(BinOp::Div),
        _ => None,
    }
}

/// How many tokens are left from index `i`.
pub open spec fn remaining(ts: Seq<Token>, i: int) -> nat {
    if i <= ts.len() {
        (ts.len() - i) as nat
    } else {
        0
    }
}

/// `atom := number | '(' sum ')'`
pub open spec fn parse_atom(ts: Seq<Token>, i: int) -> Parsed
    decreases remaining(ts, i), 0int,
{
    match kind_at(ts, i) {
        TokenType::Number => Ok((Expr::Number(ts[i].span), i + 1)),
        TokenType::LParen => match parse_sum_at(ts, i + 1) {
            Ok((e, j)) => if kind_at(ts, j) == TokenType::RParen {
                Ok((Expr::Paren(Box::new(e)), j + 1))
            } else {
                Err((Expected::Close, j))
            },
            Err(f) => Err(f),
        },
        _ => Err((Expected::Value, i)),
    }
}

/// `product := atom (('*' | '/') atom)*`, left-associative.
pub open spec fn parse_product_at(ts: Seq<Token>, i: int) -> Parsed
    decreases remaining(ts, i), 1int,
{
    match parse_atom(ts, i) {
        Ok((a, j)) => if i < j && i < ts.len() {
            product_tail(ts, a, j)
        } else {
            Ok((a, j))
        },
        Err(f) => Err(f),
    }
}

/// Continues a product whose operands so far make `acc`, from index `j`.
pub open spec fn product_tail(ts: Seq<Token>, acc: Expr, j: int) -> Parsed
    decreases remaining(ts, j), 3int,
{
    match multiplicative(kind_at(ts, j)) {
        Some(op) => match parse_atom(ts, j + 1) {
            Ok((r, k)) => if k > j {
                product_tail(ts, Expr::Binary(op, Box::new(acc), Box::new(r)), k)
            } else {
                Ok((acc, j))
            },
            Err(f) => Err(f),
        },
        None => Ok((acc, j)),
    }
}

/// `sum := product (('+' | '-') product)*`, left-associative.
pub open spec fn parse_sum_at(ts: Seq<Token>, i: int) -> Parsed
    decreases remaining(ts, i), 2int,
{
    match parse_product_at(ts, i) {
        Ok((a, j)) => if i < j && i < ts.len() {
            sum_tail(ts, a, j)
        } else {
            Ok((a, j))
        },
        Err(f) => Err(f),
    }
}

/// Continues a sum whose operands so far make `acc`, from index `j`.
pub open spec fn sum_tail(ts: Seq<Token>, acc: Expr, j: int) -> Parsed
    decreases remaining(ts, j), 4int,
{
    match additive(kind_at(ts, j)) {
        Some(op) => match parse_product_at(ts, j + 1) {
            Ok((r, k)) => if k > j {
                sum_tail(ts, Expr::Binary(op, Box::new(acc), Box::new(r)), k)
            } else {
                Ok((acc, j))
            },
            Err(f) => Err(f),
        },
        None => Ok((acc, j)),
    }
}

/// A whole token stream: a sum followed by end of input.
pub open spec fn parse_tokens(ts: Seq<Token>) -> Result<Expr, (Expected, int)> {
    match parse_sum_at(ts, 0) {
        Ok((e, j)) => if kind_at(ts, j) == TokenType::EOF {
            Ok(e)
        } else {
            Err((Expected::End, j))
        },
        Err(f) => Err(f),
    }
}

/// The stream ends with its only possible stopping point: an `EOF` token.
pub open spec fn ends_with_eof(ts: Seq<Token>) -> bool {
    ts.len() > 0 && ts.last().ttype == TokenType::EOF
}

/// An executable result `r`, with the cursor left at `at`, is the spec result `s`.
pub open spec fn agrees(r: Result<Expr, (Expected, usize)>, at: usize, s: Parsed) -> bool {
    match r {
        Ok(e) => s == Ok::<(Expr, int), (Expected, int)>((e, at as int)),
        Err((x, p)) => s == Err::<(Expr, int), (Expected, int)>((x, p as int)),
    }
}

/// The cursor's state that every parsing step keeps.
pub open spec fn cursor_ok(it: &TokensIter) -> bool {
    ends_with_eof(it.tokens.tokens@) && it.index < it.tokens.tokens@.len()
}

fn parse_value(tokens: &mut TokensIter) -> (r: Result<Expr, (Expected, usize)>)
    requires
        cursor_ok(old(tokens)),
        kind_at(old(tokens).tokens.tokens@, old(tokens).index as int) != TokenType::LParen,
    ensures
        cursor_ok(final(tokens)),
        final(tokens).tokens == old(tokens).tokens,
        agrees(r, final(tokens).index, parse_atom(old(tokens).tokens.tokens@, old(tokens).index as int)),
        r is Err ==> r->Err_0.1 < old(tokens).tokens.tokens@.len(),
        r is Err ==> final(tokens).index == r->Err_0.1,
{
    let t = *tokens.peek();
    match t.ttype {
        TokenType::Number => {
            tokens.next();
            Ok(Expr::Number(t.span))
        },
        _ => Err((Expected::Value, tokens.index)),
    }
}

fn parse_parens(tokens: &mut TokensIter) -> (r: Result<Expr, (Expected, usize)>)
    requires
        cursor_ok(old(tokens)),
    ensures
        cursor_ok(final(tokens)),
        final(tokens).tokens == old(tokens).tokens,
        agrees(r, final(tokens).index, parse_atom(old(tokens).tokens.tokens@, old(tokens).index as int)),
        r is Err ==> r->Err_0.1 < old(tokens).tokens.tokens@.len(),
        r is Err ==> final(tokens).index == r->Err_0.1,
    decreases old(tokens).tokens.tokens@.len() - old(tokens).index, 0int,
{
    let t = *tokens.peek();
    match t.ttype {
        TokenType::LParen => {
            tokens.next();
            let inner = match parse_sum(tokens) {
                Ok(e) => e,
                Err(f) => return Err(f),
            };
            let close = *tokens.peek();
            match close.ttype {
                TokenType::RParen => {
                    tokens.next();
                    Ok(Expr::Paren(Box::new(inner)))
                },
                _ => Err((Expected::Close, tokens.index)),
            }
        },
        _ => parse_value(tokens),
    }
}

fn parse_product(tokens: &mut TokensIter) -> (r: Result<Expr, (Expected, usize)>)
    requires
        cursor_ok(old(tokens)),
    ensures
        cursor_ok(final(tokens)),
        final(tokens).tokens == old(tokens).tokens,
        agrees(r, final(tokens).index, parse_product_at(old(tokens).tokens.tokens@, old(tokens).index as int)),
        r is Err ==> r->Err_0.1 < old(tokens).tokens.tokens@.len(),
        r is Err ==> final(tokens).index == r->Err_0.1,
    decreases old(tokens).tokens.tokens@.len() - old(tokens).index, 1int,
{
    let ghost ts = tokens.tokens.tokens@;
    let ghost start = tokens.index as int;
    let mut result = match parse_parens(tokens) {
        Ok(e) => e,
        Err(f) => return Err(f),
    };
    proof {
        lemma_advances(ts, start);
    }
    loop
        invariant
            cursor_ok(tokens),
            tokens.tokens == old(tokens).tokens,
            ts == tokens.tokens.tokens@,
            start == old(tokens).index,
            tokens.index > start,
            parse_product_at(ts, start) == product_tail(ts, result, tokens.index as int),
        ensures
            cursor_ok(tokens),
            tokens.tokens == old(tokens).tokens,
            parse_product_at(ts, start) == Ok::<(Expr, int), (Expected, int)>((result, tokens.index as int)),
        decreases ts.len() - tokens.index,
    {
        let t = *tokens.peek();
        let op = match t.ttype {
            TokenType::Mul => BinOp::Mul,
            TokenType::Div => BinOp::Div,
            _ => {
                assert(product_tail(ts, result, tokens.index as int) == Ok::<(Expr, int), (Expected, int)>((result, tokens.index as int)));
                break;
            },
        };
        let ghost j = tokens.index as int;
        tokens.next();
        let right = match parse_parens(tokens) {
            Ok(e) => e,
            Err(f) => return Err(f),
        };
        proof {
            lemma_advances(ts, j + 1);
        }
        result = Expr::Binary(op, Box::new(result), Box::new(right));
    }
    Ok(result)
}

fn parse_sum(tokens: &mut TokensIter) -> (r: Result<Expr, (Expected, usize)>)
    requires
        cursor_ok(old(tokens)),
    ensures
        cursor_ok(final(tokens)),
        final(tokens).tokens == old(tokens).tokens,
        agrees(r, final(tokens).index, parse_sum_at(old(tokens).tokens.tokens@, old(tokens).index as int)),
        r is Err ==> r->Err_0.1 < old(tokens).tokens.tokens@.len(),
        r is Err ==> final(tokens).index == r->Err_0.1,
    decreases old(tokens).tokens.tokens@.len() - old(tokens).index, 2int,
{
    let ghost ts = tokens.tokens.tokens@;
    let ghost start = tokens.index as int;
    let mut result = match parse_product(tokens) {
        Ok(e) => e,
        Err(f) => return Err(f),
    };
    proof {
        lemma_advances(ts, start);
    }
    loop
        invariant
            cursor_ok(tokens),
            tokens.tokens == old(tokens).tokens,
            ts == tokens.tokens.tokens@,
            start == old(tokens).index,
            tokens.index > start,
            parse_sum_at(ts, start) == sum_tail(ts, result, tokens.index as int),
        ensures
            cursor_ok(tokens),
            tokens.tokens == old(tokens).tokens,
            parse_sum_at(ts, start) == Ok::<(Expr, int), (Expected, int)>((result, tokens.index as int)),
        decreases ts.len() - tokens.index,
    {
        let t = *tokens.peek();
        let op = match t.ttype {
            TokenType::Add => BinOp::Add,
            TokenType::Sub => BinOp::Sub,
            _ => {
                assert(sum_tail(ts, result, tokens.index as int) == Ok::<(Expr, int), (Expected, int)>((result, tokens.index as int)));
                break;
            },
        };
        let ghost j = tokens.index as int;
        tokens.next();
        let right = match parse_product(tokens) {
            Ok(e) => e,
            Err(f) => return Err(f),
        };
        proof {
            lemma_advances(ts, j + 1);
        }
        result = Expr::Binary(op, Box::new(result), Box::new(right));
    }
    Ok(result)
}

/// The characters of bytes that are all ASCII.
pub open spec fn ascii_text(b: Seq<u8>) -> Seq<char> {
    b.map_values(|c: u8| c as char)
}

/// How a token is named in an error message: `end of input`, or its source
/// text in single quotes.
pub open spec fn found_text(b: Seq<u8>, t: Token) -> Seq<char> {
    if t.ttype == TokenType::EOF {
        "end of input"@
    } else {
        "'"@ + ascii_text(b.subrange(t.span.start as int, t.span.end as int)) + "'"@
    }
}

/// The first part of an error message: what was expected.
pub open spec fn expectation(x: Expected) -> Seq<char> {
    match x {
        Expected::Value => "Expected number or '(', found "@,
        Expected::Close => "Expected ')', found "@,
        Expected::End => "Expected end of input, '+', '-', '*', or '/', found "@,
    }
}

/// The message of a parse error: what was expected, then the token found.
pub open spec fn failure_message(x: Expected, b: Seq<u8>, found: Token) -> Seq<char> {
    expectation(x) + found_text(b, found)
}

/// The one-character text of a token byte.
fn token_byte_text(c: u8) -> (r: &'static str)
    requires
        is_token_byte(c),
    ensures
        r@ == seq![c as char],
{
    proof {
        reveal_strlit("0");
        reveal_strlit("1");
        reveal_strlit("2");
        reveal_strlit("3");
        reveal_strlit("4");
        reveal_strlit("5");
        reveal_strlit("6");
        reveal_strlit("7");
        reveal_strlit("8");
        reveal_strlit("9");
        reveal_strlit(".");
        reveal_strlit("+");
        reveal_strlit("-");
        reveal_strlit("*");
        reveal_strlit("/");
        reveal_strlit("(");
        reveal_strlit(")");
    }
    if c == 48u8 {
        "0"
    } else if c == 49u8 {
        "1"
    } else if c == 50u8 {
        "2"
    } else if c == 51u8 {
        "3"
    } else if c == 52u8 {
        "4"
    } else if c == 53u8 {
        "5"
    } else if c == 54u8 {
        "6"
    } else if c == 55u8 {
        "7"
    } else if c == 56u8 {
        "8"
    } else if c == 57u8 {
        "9"
    } else if c == 46u8 {
        "."
    } else if c == 43u8 {
        "+"
    } else if c == 45u8 {
        "-"
    } else if c == 42u8 {
        "*"
    } else if c == 47u8 {
        "/"
    } else if c == 40u8 {
        "("
    } else {
        ")"
    }
}

/// Appends how `t` is named in an error message.
fn append_found(message: &mut String, b: &[u8], t: Token)
    requires
        t.span.start <= t.span.end <= b@.len(),
        lexeme_ok(b@, t),
    ensures
        final(message)@ == old(message)@ + found_text(b@, t),
{
    proof {
        reveal_strlit("end of input");
        reveal_strlit("'");
    }
    match t.ttype {
        TokenType::EOF => {
            message.append("end of input");
        },
        _ => {
            let ghost start = message@;
            message.append("'");
            let mut p = t.span.start;
            while p < t.span.end
                invariant
                    t.span.start <= p <= t.span.end <= b@.len(),
                    lexeme_ok(b@, t),
                    message@ == start + "'"@ + ascii_text(b@.subrange(t.span.start as int, p as int)),
                decreases t.span.end - p,
            {
                message.append(token_byte_text(b[p]));
                p += 1;
                assert(ascii_text(b@.subrange(t.span.start as int, p as int)) =~= ascii_text(
                    b@.subrange(t.span.start as int, p - 1),
                ).push(b@[p - 1] as char));
                assert(message@ =~= start + "'"@ + ascii_text(b@.subrange(t.span.start as int, p as int)));
            }
            message.append("'");
        },
    }
}

fn expectation_text(x: Expected) -> (r: &'static str)
    ensures
        r@ == expectation(x),
{
    match x {
        Expected::Value => "Expected number or '(', found ",
        Expected::Close => "Expected ')', found ",
        Expected::End => "Expected end of input, '+', '-', '*', or '/', found ",
    }
}

fn copy_tokens(v: &Vec<Token>) -> (r: Vec<Token>)
    ensures
        r@ == v@,
{
    let mut r: Vec<Token> = Vec::new();
    let mut i: usize = 0;
    while i < v.len()
        invariant
            i <= v@.len(),
            r@ == v@.subrange(0, i as int),
        decreases v@.len() - i,
    {
        r.push(v[i]);
        i += 1;
        assert(r@ =~= v@.subrange(0, i as int));
    }
    assert(v@.subrange(0, v@.len() as int) =~= v@);
    r
}

/// Parses a whole token stream: one sum, then end of input.
///
/// On failure the error names what was expected and the token found instead,
/// spans that token (the empty `EOF` span where input ran out), and carries a
/// copy of the stream.
pub fn parse<'t>(tokens: &'t Tokens<'t>) -> (r: Result<Expr, Error<'t>>)
    requires
        tokens.wf(),
    ensures
        match parse_tokens(tokens.tokens@) {
            Ok(e) => r is Ok && r->Ok_0 == e,
            Err((x, p)) => {
                &&& r is Err
                &&& 0 <= p < tokens.tokens@.len()
                &&& r->Err_0.span == tokens.tokens@[p].span
                &&& r->Err_0.message@ == failure_message(x, tokens.source.bytes(), tokens.tokens@[p])
                &&& r->Err_0.tokens.source == tokens.source
                &&& r->Err_0.tokens.tokens@ == tokens.tokens@
            },
        },
{
    let mut iter = tokens.iter();
    let failure = match parse_sum(&mut iter) {
        Ok(e) => {
            let t = *iter.peek();
            match t.ttype {
                TokenType::EOF => return Ok(e),
                _ => (Expected::End, iter.index),
            }
        },
        Err(f) => f,
    };
    let (x, p) = failure;
    let found = tokens.tokens[p];
    let mut message = String::from_str(expectation_text(x));
    append_found(&mut message, tokens.source.text.as_str().as_bytes(), found);
    let copy = Tokens { source: tokens.source, tokens: copy_tokens(&tokens.tokens) };
    Err(Error::new(message, copy, found.span))
}

/// Every tier that succeeds consumes at least one token.
pub proof fn lemma_advances(ts: Seq<Token>, i: int)
    ensures
        parse_atom(ts, i) is Ok ==> parse_atom(ts, i)->Ok_0.1 > i,
        parse_product_at(ts, i) is Ok ==> parse_product_at(ts, i)->Ok_0.1 > i,
        parse_sum_at(ts, i) is Ok ==> parse_sum_at(ts, i)->Ok_0.1 > i,
    decreases remaining(ts, i),
{
    if kind_at(ts, i) == TokenType::LParen {
        lemma_advances(ts, i + 1);
    }
    if let Ok((a, j)) = parse_atom(ts, i) {
        if i < j && i < ts.len() {
            lemma_product_tail_stays(ts, a, j);
        }
    }
    if let Ok((a, j)) = parse_product_at(ts, i) {
        if i < j && i < ts.len() {
            lemma_sum_tail_stays(ts, a, j);
        }
    }
}

proof fn lemma_product_tail_stays(ts: Seq<Token>, acc: Expr, j: int)
    ensures
        product_tail(ts, acc, j) is Ok ==> product_tail(ts, acc, j)->Ok_0.1 >= j,
    decreases remaining(ts, j),
{
    if let Some(op) = multiplicative(kind_at(ts, j)) {
        if let Ok((r, k)) = parse_atom(ts, j + 1) {
            if k > j {
                lemma_product_tail_stays(ts, Expr::Binary(op, Box::new(acc), Box::new(r)), k);
            }
        }
    }
}

proof fn lemma_sum_tail_stays(ts: Seq<Token>, acc: Expr, j: int)
    ensures
        sum_tail(ts, acc, j) is Ok ==> sum_tail(ts, acc, j)->Ok_0.1 >= j,
    decreases remaining(ts, j),
{
    if let Some(op) = additive(kind_at(ts, j)) {
        if let Ok((r, k)) = parse_product_at(ts, j + 1) {
            if k > j {
                lemma_sum_tail_stays(ts, Expr::Binary(op, Box::new(acc), Box::new(r)), k);
            }
        }
    }
}

} // verus!
