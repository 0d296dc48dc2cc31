//! Building an expression tree from tokens.
//!
//! The grammar, with the usual precedence and left-associative operators:
//!
//! ```text
//! expression := term (('+' | '-') term)*
//! term       := factor (('*' | '/') factor)*
//! factor     := Integer
//! ```
//!
//! A sequence of tokens is thus an expression exactly when integers stand at
//! its even positions, operators at its odd positions, and its length is odd.

use crate::lexer::{Token, TokenView, token_views};
use vstd::prelude::*;

verus! {

/// An arithmetic expression tree; each operator node owns its two operands.
#[derive(Debug, PartialEq, Eq)]
pub enum Expr {
    Number(u32),
    Add(Box<Expr>, Box<Expr>),
    Sub(Box<Expr>, Box<Expr>),
    Mul(Box<Expr>, Box<Expr>),
    Div(Box<Expr>, Box<Expr>),
}

/// Why a sequence of tokens is not an expression. Positions index the tokens.
#[derive(Debug, Clone, Copy, PartialEq, Eq, Structural)]
pub enum SyntaxError {
    /// The tokens ran out where an integer was expected.
    UnexpectedEndOfInput,
    /// The token at this position stands where an integer was expected.
    UnexpectedToken(usize),
    /// A complete expression ends before this position, whose token is no operator.
    TrailingInput(usize),
}

pub open spec fn is_additive(t: TokenView) -> bool {
    t is Plus || t is Minus
}

pub open spec fn is_multiplicative(t: TokenView) -> bool {
    t is Star || t is Slash
}

pub open spec fn is_operator(t: TokenView) -> bool {
    is_additive(t) || is_multiplicative(t)
}

/// Whether `t` may stand at position `i`: an integer at an even position, an
/// operator at an odd one.
pub open spec fn fits(t: TokenView, i: int) -> bool {
    if i % 2 == 0 {
        t is Integer
    } else {
        is_operator(t)
    }
}

/// The first position from `i` on whose token does not fit there, or the
/// length of `ts` when every one does.
pub open spec fn first_misfit(ts: Seq<TokenView>, i: int) -> int
    decreases ts.len() - i,
{
    if i >= ts.len() {
        ts.len() as int
    } else if !fits(ts[i], i) {
        i
    } else {
        first_misfit(ts, i + 1)
    }
}

/// The error reported when the tokens stop fitting at position `k`.
pub open spec fn error_at(ts: Seq<TokenView>, k: int) -> SyntaxError {
    if k >= ts.len() {
        SyntaxError::UnexpectedEndOfInput
    } else if k % 2 == 0 {
        SyntaxError::UnexpectedToken(k as usize)
    } else {
        SyntaxError::TrailingInput(k as usize)
    }
}

/// The value of an integer token.
pub open spec fn literal(t: TokenView) -> u32 {
    match t {
        TokenView::Integer(n) => n,
        _ => 0,
    }
}

/// The position of the last `+` or `-` in `ts`, or -1 when there is none.
pub open spec fn last_additive(ts: Seq<TokenView>) -> int
    decreases ts.len(),
{
    if ts.len() == 0 {
        -1
    } else if is_additive(ts.last()) {
        ts.len() - 1
    } else {
        last_additive(ts.drop_last())
    }
}

/// The tree of a term: its integers joined by `*` and `/`, grouped from the left.
pub open spec fn term_tree(ts: Seq<TokenView>) -> Expr
    decreases ts.len(),
{
    if ts.len() < 3 {
        Expr::Number(literal(ts[0]))
    } else {
        let left = Box::new(term_tree(ts.take(ts.len() - 2)));
        let right = Box::new(Expr::Number(literal(ts.last())));
        if ts[ts.len() - 2] is Star {
            Expr::Mul(left, right)
        } else {
            Expr::Div(left, right)
        }
    }
}

/// The tree of an expression: its terms joined by `+` and `-`, grouped from
/// the left, so the last additive operator is the root.
pub open spec fn expression_tree(ts: Seq<TokenView>) -> Expr
    decreases ts.len(),
    via expression_tree_decreases
{
    let k = last_additive(ts);
    if k < 0 {
        term_tree(ts)
    } else {
        let left = Box::new(expression_tree(ts.take(k)));
        let right = Box::new(term_tree(ts.skip(k + 1)));
        if ts[k] is Plus {
            Expr::Add(left, right)
        } else {
            Expr::Sub(left, right)
        }
    }
}

#[via_fn]
proof fn expression_tree_decreases(ts: Seq<TokenView>) {
    lemma_last_additive_bounds(ts);
}

/// What parsing `ts` gives: its tree when it is an expression, else the error
/// at the first position where it stops being one.
pub open spec fn parse_result(ts: Seq<TokenView>) -> Result<Expr, SyntaxError> {
    let k = first_misfit(ts, 0);
    if k == ts.len() && ts.len() % 2 == 1 {
        Ok(expression_tree(ts))
    } else {
        Err(error_at(ts, k))
    }
}

proof fn lemma_last_additive_bounds(ts: Seq<TokenView>)
    ensures
        -1 <= last_additive(ts) < ts.len(),
    decreases ts.len(),
{
    if ts.len() > 0 {
        lemma_last_additive_bounds(ts.drop_last());
    }
}

/// `k` is the last additive position when none follows it (-1: none at all).
proof fn lemma_last_additive_is(ts: Seq<TokenView>, k: int)
    requires
        -1 <= k < ts.len(),
        k >= 0 ==> is_additive(ts[k]),
        forall|i: int| k < i < ts.len() ==> !is_additive(#[trigger] ts[i]),
    ensures
        last_additive(ts) == k,
    decreases ts.len(),
{
    if ts.len() > 0 && k < ts.len() - 1 {
        let front = ts.drop_last();
        assert forall|i: int| k < i < front.len() implies !is_additive(#[trigger] front[i]) by {
            assert(front[i] == ts[i]);
        }
        lemma_last_additive_is(front, k);
    }
}

/// Skipping positions whose tokens fit does not move the first misfit.
proof fn lemma_first_misfit_from(ts: Seq<TokenView>, j: int, k: int)
    requires
        0 <= j <= k <= ts.len(),
        forall|i: int| j <= i < k ==> fits(#[trigger] ts[i], i),
    ensures
        first_misfit(ts, j) == first_misfit(ts, k),
    decreases k - j,
{
    if j < k {
        assert(fits(ts[j], j));
        lemma_first_misfit_from(ts, j + 1, k);
    }
}

fn is_multiplicative_token(t: &Token) -> (r: bool)
    ensures
        r == is_multiplicative(t@),
{
    match t {
        Token::Star | Token::Slash => true,
        _ => false,
    }
}

fn is_additive_token(t: &Token) -> (r: bool)
    ensures
        r == is_additive(t@),
{
    match t {
        Token::Plus | Token::Minus => true,
        _ => false,
    }
}

/// Reads the integer at `pos`.
fn parse_factor(tokens: &[Token], pos: usize) -> (r: Result<u32, SyntaxError>)
    requires
        pos <= tokens@.len(),
    ensures
        pos == tokens@.len() ==> r == Err::<u32, SyntaxError>(SyntaxError::UnexpectedEndOfInput),
        pos < tokens@.len() ==> r == (match tokens@[pos as int]@ {
            TokenView::Integer(n) => Ok::<u32, SyntaxError>(n),
            _ => Err(SyntaxError::UnexpectedToken(pos)),
        }),
{
    if pos == tokens.len() {
        Err(SyntaxError::UnexpectedEndOfInput)
    } else {
        match &tokens[pos] {
            Token::Integer(n) => Ok(*n),
            _ => Err(SyntaxError::UnexpectedToken(pos)),
        }
    }
}

/// Reads the longest term that starts at the even position `start`, and
/// returns its tree with the position just after it.
fn parse_term(tokens: &[Token], start: usize) -> (r: Result<(Expr, usize), SyntaxError>)
    requires
        start <= tokens@.len(),
        start % 2 == 0,
    ensures
        match r {
            Ok((e, end)) => {
                let ts = token_views(tokens@);
                &&& start < end <= ts.len()
                &&& end % 2 == 1
                &&& forall|i: int| start <= i < end ==> fits(#[trigger] ts[i], i) && !is_additive(ts[i])
                &&& end < ts.len() ==> !is_multiplicative(ts[end as int])
                &&& e == term_tree(ts.subrange(start as int, end as int))
            },
            Err(err) => {
                let ts = token_views(tokens@);
                let k = first_misfit(ts, start as int);
                &&& k % 2 == 0
                &&& err == error_at(ts, k)
            },
        },
{
    let ghost ts = token_views(tokens@);
    let n = match parse_factor(tokens, start) {
        Ok(n) => n,
        Err(e) => {
            return Err(e);
        },
    };
    let mut acc = Expr::Number(n);
    let mut pos: usize = start + 1;
    proof {
        assert(ts.subrange(start as int, pos as int).len() == 1);
    }
    loop
        invariant
            ts == token_views(tokens@),
            start < pos <= ts.len(),
            pos % 2 == 1,
            forall|i: int| start <= i < pos ==> fits(#[trigger] ts[i], i) && !is_additive(ts[i]),
            acc == term_tree(ts.subrange(start as int, pos as int)),
        ensures
            pos < ts.len() ==> !is_multiplicative(ts[pos as int]),
        decreases ts.len() - pos,
    {
        if pos == tokens.len() || !is_multiplicative_token(&tokens[pos]) {
            proof {
                if pos < ts.len() {
                    assert(ts[pos as int] == tokens@[pos as int]@);
                }
            }
            break;
        }
        let is_mul = match &tokens[pos] {
            Token::Star => true,
            _ => false,
        };
        match parse_factor(tokens, pos + 1) {
            Err(e) => {
                proof {
                    lemma_first_misfit_from(ts, start as int, pos as int + 1);
                }
                return Err(e);
            },
            Ok(m) => {
                let right = Box::new(Expr::Number(m));
                acc = if is_mul {
                    Expr::Mul(Box::new(acc), right)
                } else {
                    Expr::Div(Box::new(acc), right)
                };
                proof {
                    let u = ts.subrange(start as int, pos + 2);
                    assert(u.take(u.len() - 2) =~= ts.subrange(start as int, pos as int));
                    assert(u[u.len() - 2] == ts[pos as int]);
                }
                pos = pos + 2;
            },
        }
    }
    Ok((acc, pos))
}

/// Parses the whole token sequence as one expression.
pub fn parse(tokens: &[Token]) -> (r: Result<Expr, SyntaxError>)
    ensures
        r == parse_result(token_views(tokens@)),
{
    let ghost ts = token_views(tokens@);
    let (mut acc, mut pos) = match parse_term(tokens, 0) {
        Ok(p) => p,
        Err(e) => {
            return Err(e);
        },
    };
    proof {
        let u = ts.take(pos as int);
        lemma_last_additive_is(u, -1);
        assert(u =~= ts.subrange(0, pos as int));
    }
    loop
        invariant
            ts == token_views(tokens@),
            0 < pos <= ts.len(),
            pos % 2 == 1,
            forall|i: int| 0 <= i < pos ==> fits(#[trigger] ts[i], i),
            pos < ts.len() ==> !is_multiplicative(ts[pos as int]),
            acc == expression_tree(ts.take(pos as int)),
        decreases ts.len() - pos,
    {
        if pos == tokens.len() {
            proof {
                lemma_first_misfit_from(ts, 0, pos as int);
                assert(ts.take(pos as int) =~= ts);
            }
            return Ok(acc);
        }
        if !is_additive_token(&tokens[pos]) {
            proof {
                lemma_first_misfit_from(ts, 0, pos as int);
            }
            return Err(SyntaxError::TrailingInput(pos));
        }
        let is_add = match &tokens[pos] {
            Token::Plus => true,
            _ => false,
        };
        match parse_term(tokens, pos + 1) {
            Err(e) => {
                proof {
                    lemma_first_misfit_from(ts, 0, pos as int + 1);
                }
                return Err(e);
            },
            Ok((t, end)) => {
                proof {
                    let u = ts.take(end as int);
                    lemma_last_additive_is(u, pos as int);
                    assert(u.take(pos as int) =~= ts.take(pos as int));
                    assert(u.skip(pos + 1) =~= ts.subrange(pos + 1, end as int));
                }
                acc = if is_add {
                    Expr::Add(Box::new(acc), Box::new(t))
                } else {
                    Expr::Sub(Box::new(acc), Box::new(t))
                };
                pos = end;
            },
        }
    }
}

} // verus!
