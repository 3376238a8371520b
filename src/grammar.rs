use vstd::prelude::*;

use crate::lexer::{Span, Token, TokenType};
use crate::parser::{
    additive, kind_at, multiplicative, parse_atom, parse_product_at, parse_sum_at, parse_tokens,
    product_tail, remaining, sum_tail, BinOp, Expected, Expr, Parsed,
};

verus! {

/// The number of tokens that spell `e`.
pub open spec fn size(e: Expr) -> nat
    decreases e,
{
    match e {
        Expr::Number(_) => 1,
        Expr::Paren(x) => size(*x) + 2,
        Expr::Binary(_, l, r) => size(*l) + size(*r) + 1,
    }
}

/// The token kind that spells an operator.
pub open spec fn op_kind(op: BinOp) -> TokenType {
    match op {
        BinOp::Add => TokenType::Add,
        BinOp::Sub => TokenType::Sub,
        BinOp::Mul => TokenType::Mul,
        BinOp::Div => TokenType::Div,
    }
}

/// `+` or `-`, which bind looser than `*` and `/`.
pub open spec fn is_additive(op: BinOp) -> bool {
    op == BinOp::Add || op == BinOp::Sub
}

/// The tokens from index `i` on spell `e`: its numbers, parentheses and
/// operators, in order.
pub open spec fn spells(e: Expr, ts: Seq<Token>, i: int) -> bool
    decreases e,
{
    match e {
        Expr::Number(s) => 0 <= i < ts.len() && ts[i] == (Token { ttype: TokenType::Number, span: s }),
        Expr::Paren(x) => {
            &&& kind_at(ts, i) == TokenType::LParen
            &&& spells(*x, ts, i + 1)
            &&& kind_at(ts, i + 1 + size(*x)) == TokenType::RParen
        },
        Expr::Binary(op, l, r) => {
            &&& spells(*l, ts, i)
            &&& kind_at(ts, i + size(*l)) == op_kind(op)
            &&& spells(*r, ts, i + size(*l) + 1)
        },
    }
}

/// A number, or a parenthesized sum.
pub open spec fn is_atom(e: Expr) -> bool
    decreases e,
{
    match e {
        Expr::Number(_) => true,
        Expr::Paren(x) => is_sum(*x),
        Expr::Binary(..) => false,
    }
}

/// Atoms joined by `*` and `/`, grouped to the left.
pub open spec fn is_product(e: Expr) -> bool
    decreases e,
{
    match e {
        Expr::Number(_) => true,
        Expr::Paren(x) => is_sum(*x),
        Expr::Binary(op, l, r) => !is_additive(op) && is_product(*l) && is_atom(*r),
    }
}

/// Products joined by `+` and `-`, grouped to the left.
pub open spec fn is_sum(e: Expr) -> bool
    decreases e,
{
    match e {
        Expr::Number(_) => true,
        Expr::Paren(x) => is_sum(*x),
        Expr::Binary(op, l, r) => if is_additive(op) {
            is_sum(*l) && is_product(*r)
        } else {
            is_product(*l) && is_atom(*r)
        },
    }
}

/// The leftmost atom of a product.
pub open spec fn first_atom(e: Expr) -> Expr
    decreases e,
{
    match e {
        Expr::Binary(op, l, _) => if is_additive(op) {
            e
        } else {
            first_atom(*l)
        },
        _ => e,
    }
}

/// The leftmost product of a sum.
pub open spec fn first_product(e: Expr) -> Expr
    decreases e,
{
    match e {
        Expr::Binary(op, l, _) => if is_additive(op) {
            first_product(*l)
        } else {
            e
        },
        _ => e,
    }
}

proof fn lemma_size_positive(e: Expr)
    ensures
        size(e) >= 1,
{
}

proof fn lemma_first_atom(e: Expr, ts: Seq<Token>, i: int)
    requires
        is_product(e),
        spells(e, ts, i),
    ensures
        is_atom(first_atom(e)),
        spells(first_atom(e), ts, i),
        size(first_atom(e)) <= size(e),
    decreases e,
{
    if let Expr::Binary(op, l, _) = e {
        lemma_first_atom(*l, ts, i);
    }
}

proof fn lemma_first_product(e: Expr, ts: Seq<Token>, i: int)
    requires
        is_sum(e),
        spells(e, ts, i),
    ensures
        is_product(first_product(e)),
        spells(first_product(e), ts, i),
        size(first_product(e)) <= size(e),
    decreases e,
{
    if let Expr::Binary(op, l, _) = e {
        if is_additive(op) {
            lemma_first_product(*l, ts, i);
        }
    }
}

/// What the parse of an atom returns is an atom spelled by the tokens it consumed.
proof fn lemma_atom_sound(ts: Seq<Token>, i: int)
    ensures
        parse_atom(ts, i) matches Ok((e, j)) ==> is_atom(e) && spells(e, ts, i) && j == i + size(e),
    decreases remaining(ts, i), 0int,
{
    if kind_at(ts, i) == TokenType::LParen {
        lemma_sum_sound(ts, i + 1);
    }
}

proof fn lemma_product_sound(ts: Seq<Token>, i: int)
    ensures
        parse_product_at(ts, i) matches Ok((e, j)) ==> is_product(e) && spells(e, ts, i) && j == i + size(e),
    decreases remaining(ts, i), 1int,
{
    lemma_atom_sound(ts, i);
    if let Ok((a, j)) = parse_atom(ts, i) {
        if i < j && i < ts.len() {
            lemma_product_tail_sound(ts, a, i, j);
        }
    }
}

proof fn lemma_product_tail_sound(ts: Seq<Token>, acc: Expr, i0: int, j: int)
    requires
        is_product(acc),
        spells(acc, ts, i0),
        j == i0 + size(acc),
    ensures
        product_tail(ts, acc, j) matches Ok((e, k)) ==> is_product(e) && spells(e, ts, i0) && k == i0 + size(e),
    decreases remaining(ts, j), 3int,
{
    if let Some(op) = multiplicative(kind_at(ts, j)) {
        lemma_atom_sound(ts, j + 1);
        if let Ok((r, k)) = parse_atom(ts, j + 1) {
            if k > j {
                let next = Expr::Binary(op, Box::new(acc), Box::new(r));
                assert(spells(next, ts, i0));
                lemma_product_tail_sound(ts, next, i0, k);
            }
        }
    }
}

proof fn lemma_sum_sound(ts: Seq<Token>, i: int)
    ensures
        parse_sum_at(ts, i) matches Ok((e, j)) ==> is_sum(e) && spells(e, ts, i) && j == i + size(e),
    decreases remaining(ts, i), 2int,
{
    lemma_product_sound(ts, i);
    if let Ok((a, j)) = parse_product_at(ts, i) {
        lemma_product_is_sum(a);
        if i < j && i < ts.len() {
            lemma_sum_tail_sound(ts, a, i, j);
        }
    }
}

proof fn lemma_sum_tail_sound(ts: Seq<Token>, acc: Expr, i0: int, j: int)
    requires
        is_sum(acc),
        spells(acc, ts, i0),
        j == i0 + size(acc),
    ensures
        sum_tail(ts, acc, j) matches Ok((e, k)) ==> is_sum(e) && spells(e, ts, i0) && k == i0 + size(e),
    decreases remaining(ts, j), 4int,
{
    if let Some(op) = additive(kind_at(ts, j)) {
        lemma_product_sound(ts, j + 1);
        if let Ok((r, k)) = parse_product_at(ts, j + 1) {
            if k > j {
                let next = Expr::Binary(op, Box::new(acc), Box::new(r));
                assert(spells(next, ts, i0));
                lemma_sum_tail_sound(ts, next, i0, k);
            }
        }
    }
}

proof fn lemma_product_is_sum(e: Expr)
    requires
        is_product(e),
    ensures
        is_sum(e),
{
}

/// An atom spelled from `i` parses back to itself.
proof fn lemma_atom_complete(e: Expr, ts: Seq<Token>, i: int)
    requires
        is_atom(e),
        spells(e, ts, i),
    ensures
        parse_atom(ts, i) == Ok::<(Expr, int), (Expected, int)>((e, i + size(e))),
    decreases size(e), 0int,
{
    if let Expr::Paren(x) = e {
        lemma_sum_complete(*x, ts, i + 1);
    }
}

/// A product spelled from `i` and not followed by `*` or `/` parses back to itself.
proof fn lemma_product_complete(e: Expr, ts: Seq<Token>, i: int)
    requires
        is_product(e),
        spells(e, ts, i),
        multiplicative(kind_at(ts, i + size(e))) is None,
    ensures
        parse_product_at(ts, i) == Ok::<(Expr, int), (Expected, int)>((e, i + size(e))),
    decreases size(e), 2int,
{
    let a = first_atom(e);
    lemma_first_atom(e, ts, i);
    lemma_atom_complete(a, ts, i);
    lemma_size_positive(a);
    lemma_product_chain(e, ts, i);
}

/// Continuing a product from its first atom reaches the whole product.
proof fn lemma_product_chain(e: Expr, ts: Seq<Token>, i: int)
    requires
        is_product(e),
        spells(e, ts, i),
    ensures
        product_tail(ts, first_atom(e), i + size(first_atom(e))) == product_tail(ts, e, i + size(e)),
    decreases size(e), 1int,
{
    if let Expr::Binary(op, l, r) = e {
        lemma_product_chain(*l, ts, i);
        let j = i + size(*l);
        lemma_atom_complete(*r, ts, j + 1);
        lemma_size_positive(*r);
        assert(e == Expr::Binary(op, Box::new(*l), Box::new(*r)));
    }
}

/// A sum spelled from `i` and not followed by an operator parses back to itself.
proof fn lemma_sum_complete(e: Expr, ts: Seq<Token>, i: int)
    requires
        is_sum(e),
        spells(e, ts, i),
        multiplicative(kind_at(ts, i + size(e))) is None,
        additive(kind_at(ts, i + size(e))) is None,
    ensures
        parse_sum_at(ts, i) == Ok::<(Expr, int), (Expected, int)>((e, i + size(e))),
    decreases size(e), 3int,
{
    let p = first_product(e);
    lemma_first_product(e, ts, i);
    lemma_size_positive(p);
    lemma_sum_chain(e, ts, i);
    if p != e {
        lemma_first_product_follow(e, ts, i);
    }
    lemma_product_complete(p, ts, i);
    lemma_first_atom(p, ts, i);
    lemma_size_positive(first_atom(p));
}

/// Where a sum's first product is not the whole sum, an additive operator follows it.
proof fn lemma_first_product_follow(e: Expr, ts: Seq<Token>, i: int)
    requires
        is_sum(e),
        spells(e, ts, i),
        first_product(e) != e,
    ensures
        additive(kind_at(ts, i + size(first_product(e)))) is Some,
    decreases e,
{
    if let Expr::Binary(op, l, _) = e {
        if first_product(*l) != *l {
            lemma_first_product_follow(*l, ts, i);
        }
    }
}

/// Continuing a sum from its first product reaches the whole sum.
proof fn lemma_sum_chain(e: Expr, ts: Seq<Token>, i: int)
    requires
        is_sum(e),
        spells(e, ts, i),
        multiplicative(kind_at(ts, i + size(e))) is None,
    ensures
        sum_tail(ts, first_product(e), i + size(first_product(e))) == sum_tail(ts, e, i + size(e)),
    decreases size(e), 1int,
{
    if let Expr::Binary(op, l, r) = e {
        if is_additive(op) {
            lemma_sum_chain(*l, ts, i);
            let j = i + size(*l);
            lemma_product_complete(*r, ts, j + 1);
            lemma_size_positive(*r);
            assert(e == Expr::Binary(op, Box::new(*l), Box::new(*r)));
        }
    }
}

/// Parsing agrees with the grammar: a token stream parses to `e` exactly when `e`
/// is a sum of products of atoms, grouped to the left, that the stream spells
/// from its first token up to an end of input. So every stream in the grammar
/// parses, and to its one such tree.
pub proof fn lemma_parse_is_grammar(ts: Seq<Token>, e: Expr)
    ensures
        parse_tokens(ts) == Ok::<Expr, (Expected, int)>(e) <==> {
            &&& is_sum(e)
            &&& spells(e, ts, 0)
            &&& kind_at(ts, size(e) as int) == TokenType::EOF
        },
{
    lemma_sum_sound(ts, 0);
    if is_sum(e) && spells(e, ts, 0) && kind_at(ts, size(e) as int) == TokenType::EOF {
        lemma_sum_complete(e, ts, 0);
    }
}

/// How a token changes the depth of parentheses.
pub open spec fn paren_delta(t: Token) -> int {
    match t.ttype {
        TokenType::LParen => 1,
        TokenType::RParen => -1,
        _ => 0,
    }
}

/// Opening minus closing parentheses among tokens `[lo, hi)`.
pub open spec fn paren_balance(ts: Seq<Token>, lo: int, hi: int) -> int
    decreases hi - lo,
{
    if hi <= lo {
        0
    } else {
        paren_balance(ts, lo, hi - 1) + paren_delta(ts[hi - 1])
    }
}

proof fn lemma_balance_split(ts: Seq<Token>, lo: int, mid: int, hi: int)
    requires
        lo <= mid <= hi,
    ensures
        paren_balance(ts, lo, hi) == paren_balance(ts, lo, mid) + paren_balance(ts, mid, hi),
    decreases hi - mid,
{
    if hi > mid {
        lemma_balance_split(ts, lo, mid, hi - 1);
    }
}

/// The tokens that spell an expression lie within the stream, hold no `EOF`, and
/// open as many parentheses as they close.
proof fn lemma_spelled_balanced(e: Expr, ts: Seq<Token>, i: int)
    requires
        spells(e, ts, i),
    ensures
        0 <= i,
        i + size(e) <= ts.len(),
        paren_balance(ts, i, i + size(e)) == 0,
        forall|k: int| i <= k < i + size(e) ==> (#[trigger] ts[k]).ttype != TokenType::EOF,
    decreases e,
{
    match e {
        Expr::Number(_) => {
            assert(paren_balance(ts, i, i) == 0);
        },
        Expr::Paren(x) => {
            let n = size(*x);
            lemma_spelled_balanced(*x, ts, i + 1);
            lemma_balance_split(ts, i, i + 1, i + 1 + n);
            lemma_balance_split(ts, i, i + 1 + n, i + 2 + n);
            assert(paren_balance(ts, i, i + 1) == 1) by {
                assert(paren_balance(ts, i, i) == 0);
            }
            assert(paren_balance(ts, i + 1 + n, i + 2 + n) == -1) by {
                assert(paren_balance(ts, i + 1 + n, i + 1 + n) == 0);
            }
        },
        Expr::Binary(op, l, r) => {
            let a = size(*l);
            let b = size(*r);
            lemma_spelled_balanced(*l, ts, i);
            lemma_spelled_balanced(*r, ts, i + a + 1);
            lemma_balance_split(ts, i, i + a, i + a + 1);
            lemma_balance_split(ts, i, i + a + 1, i + a + 1 + b);
            assert(paren_balance(ts, i + a, i + a + 1) == 0) by {
                assert(paren_balance(ts, i + a, i + a) == 0);
            }
        },
    }
}

/// A token stream whose parentheses do not balance, before its closing `EOF`,
/// does not parse.
pub proof fn lemma_unbalanced_rejected(ts: Seq<Token>)
    requires
        ts.len() > 0,
        forall|k: int| 0 <= k < ts.len() ==> ((#[trigger] ts[k]).ttype == TokenType::EOF <==> k == ts.len() - 1),
        paren_balance(ts, 0, ts.len() - 1) != 0,
    ensures
        parse_tokens(ts) is Err,
{
    if let Ok(e) = parse_tokens(ts) {
        lemma_parse_is_grammar(ts, e);
        lemma_spelled_balanced(e, ts, 0);
        if size(e) == ts.len() {
            assert(ts[ts.len() - 1].ttype != TokenType::EOF);
        }
        assert(size(e) == ts.len() - 1);
    }
}

/// `e` with the spans of its numbers blanked: its shape alone.
pub open spec fn shape(e: Expr) -> Expr
    decreases e,
{
    match e {
        Expr::Number(_) => Expr::Number(Span { start: 0, end: 0 }),
        Expr::Paren(x) => Expr::Paren(Box::new(shape(*x))),
        Expr::Binary(op, l, r) => Expr::Binary(op, Box::new(shape(*l)), Box::new(shape(*r))),
    }
}

/// Two streams of equal length whose tokens have the same kinds, index by index.
pub open spec fn same_kinds(ts1: Seq<Token>, ts2: Seq<Token>) -> bool {
    &&& ts1.len() == ts2.len()
    &&& forall|i: int| 0 <= i < ts1.len() ==> (#[trigger] ts1[i]).ttype == ts2[i].ttype
}

/// Two tier results alike: both stop at the same index with trees of one shape,
/// or both fail alike at the same index.
pub open spec fn alike(r1: Parsed, r2: Parsed) -> bool {
    match (r1, r2) {
        (Ok((a, j)), Ok((b, k))) => j == k && shape(a) == shape(b),
        (Err(f), Err(g)) => f == g,
        _ => false,
    }
}

proof fn lemma_kind_at_same(ts1: Seq<Token>, ts2: Seq<Token>, i: int)
    requires
        same_kinds(ts1, ts2),
    ensures
        kind_at(ts1, i) == kind_at(ts2, i),
{
    if 0 <= i < ts1.len() {
        assert(ts1[i].ttype == ts2[i].ttype);
    }
}

proof fn lemma_atom_alike(ts1: Seq<Token>, ts2: Seq<Token>, i: int)
    requires
        same_kinds(ts1, ts2),
    ensures
        alike(parse_atom(ts1, i), parse_atom(ts2, i)),
    decreases remaining(ts1, i), 0int,
{
    lemma_kind_at_same(ts1, ts2, i);
    if kind_at(ts1, i) == TokenType::LParen {
        lemma_sum_alike(ts1, ts2, i + 1);
        if let Ok((_, j)) = parse_sum_at(ts1, i + 1) {
            lemma_kind_at_same(ts1, ts2, j);
        }
    }
}

proof fn lemma_product_alike(ts1: Seq<Token>, ts2: Seq<Token>, i: int)
    requires
        same_kinds(ts1, ts2),
    ensures
        alike(parse_product_at(ts1, i), parse_product_at(ts2, i)),
    decreases remaining(ts1, i), 1int,
{
    lemma_atom_alike(ts1, ts2, i);
    if let (Ok((a, j)), Ok((b, _))) = (parse_atom(ts1, i), parse_atom(ts2, i)) {
        if i < j && i < ts1.len() {
            lemma_product_tail_alike(ts1, ts2, a, b, j);
        }
    }
}

proof fn lemma_product_tail_alike(ts1: Seq<Token>, ts2: Seq<Token>, a: Expr, b: Expr, j: int)
    requires
        same_kinds(ts1, ts2),
        shape(a) == shape(b),
    ensures
        alike(product_tail(ts1, a, j), product_tail(ts2, b, j)),
    decreases remaining(ts1, j), 3int,
{
    lemma_kind_at_same(ts1, ts2, j);
    if let Some(op) = multiplicative(kind_at(ts1, j)) {
        lemma_atom_alike(ts1, ts2, j + 1);
        if let (Ok((r1, k)), Ok((r2, _))) = (parse_atom(ts1, j + 1), parse_atom(ts2, j + 1)) {
            if k > j {
                lemma_product_tail_alike(
                    ts1,
                    ts2,
                    Expr::Binary(op, Box::new(a), Box::new(r1)),
                    Expr::Binary(op, Box::new(b), Box::new(r2)),
                    k,
                );
            }
        }
    }
}

proof fn lemma_sum_alike(ts1: Seq<Token>, ts2: Seq<Token>, i: int)
    requires
        same_kinds(ts1, ts2),
    ensures
        alike(parse_sum_at(ts1, i), parse_sum_at(ts2, i)),
    decreases remaining(ts1, i), 2int,
{
    lemma_product_alike(ts1, ts2, i);
    if let (Ok((a, j)), Ok((b, _))) = (parse_product_at(ts1, i), parse_product_at(ts2, i)) {
        if i < j && i < ts1.len() {
            lemma_sum_tail_alike(ts1, ts2, a, b, j);
        }
    }
}

proof fn lemma_sum_tail_alike(ts1: Seq<Token>, ts2: Seq<Token>, a: Expr, b: Expr, j: int)
    requires
        same_kinds(ts1, ts2),
        shape(a) == shape(b),
    ensures
        alike(sum_tail(ts1, a, j), sum_tail(ts2, b, j)),
    decreases remaining(ts1, j), 4int,
{
    lemma_kind_at_same(ts1, ts2, j);
    if let Some(op) = additive(kind_at(ts1, j)) {
        lemma_product_alike(ts1, ts2, j + 1);
        if let (Ok((r1, k)), Ok((r2, _))) = (parse_product_at(ts1, j + 1), parse_product_at(ts2, j + 1)) {
            if k > j {
                lemma_sum_tail_alike(
                    ts1,
                    ts2,
                    Expr::Binary(op, Box::new(a), Box::new(r1)),
                    Expr::Binary(op, Box::new(b), Box::new(r2)),
                    k,
                );
            }
        }
    }
}

/// Parsing looks only at the kinds of tokens, never at where they stand. So
/// texts that differ only in whitespace, and thus tokenize to the same tokens at
/// other offsets, parse alike: both to trees of one shape, or both to the same
/// failure at the same token index.
pub proof fn lemma_whitespace_irrelevant(ts1: Seq<Token>, ts2: Seq<Token>)
    requires
        same_kinds(ts1, ts2),
    ensures
        match (parse_tokens(ts1), parse_tokens(ts2)) {
            (Ok(a), Ok(b)) => shape(a) == shape(b),
            (Err(f), Err(g)) => f == g,
            _ => false,
        },
{
    lemma_sum_alike(ts1, ts2, 0);
    if let Ok((_, j)) = parse_sum_at(ts1, 0) {
        lemma_kind_at_same(ts1, ts2, j);
    }
}

} // verus!
