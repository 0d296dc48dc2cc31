//! The whole evaluation of a line of text, and the laws that tie its stages together.

use crate::executor::{EvaluationError, Value, digit_char, digits, execute, value_of};
use crate::lexer::{
    Token,
    TokenView,
    decimal_value,
    digit_value,
    is_decimal_digit,
    lemma_lex_literal,
    lex,
    token_views,
    tokenize,
    wrap,
};
use crate::parser::{SyntaxError, first_misfit, is_additive, last_additive, parse, parse_result};
use vstd::arithmetic::div_mod::lemma_fundamental_div_mod;
use vstd::prelude::*;

verus! {

/// Why a line of text has no value.
#[derive(Debug, Clone, Copy, PartialEq, Eq, Structural)]
pub enum CalcError {
    Syntax(SyntaxError),
    Evaluation(EvaluationError),
}

/// What evaluating the text `cs` gives: its tokens are parsed, and the tree is evaluated.
pub open spec fn calculation(cs: Seq<char>) -> Result<Value, CalcError> {
    match parse_result(lex(cs)) {
        Err(e) => Err(CalcError::Syntax(e)),
        Ok(tree) => match value_of(tree) {
            Ok(v) => Ok(v),
            Err(e) => Err(CalcError::Evaluation(e)),
        },
    }
}

/// Tokenizes, parses and evaluates `input`.
pub fn calculate(input: &str) -> (r: Result<Value, CalcError>)
    ensures
        r == calculation(input@),
{
    let tokens = tokenize(input);
    match parse(tokens.as_slice()) {
        Err(e) => Err(CalcError::Syntax(e)),
        Ok(tree) => match execute(&tree) {
            Ok(v) => Ok(v),
            Err(e) => Err(CalcError::Evaluation(e)),
        },
    }
}

/// A lone integer literal whose value fits in 32 bits evaluates to exactly that value.
pub proof fn lemma_literal_round_trip(ds: Seq<char>)
    requires
        ds.len() > 0,
        forall|i: int| 0 <= i < ds.len() ==> is_decimal_digit(#[trigger] ds[i]),
        decimal_value(ds) < 0x1_0000_0000,
    ensures
        calculation(ds) == Ok::<Value, CalcError>(Value::Number(decimal_value(ds) as u32)),
{
    lemma_lex_literal(ds);
    let ts = lex(ds);
    assert(ts.drop_last() =~= Seq::<TokenView>::empty());
    assert(first_misfit(ts, 1) == 1);
    assert(first_misfit(ts, 0) == 1);
    assert(!is_additive(ts.last()));
    assert(last_additive(ts.drop_last()) == -1);
    assert(last_additive(ts) == -1);
    assert(wrap(decimal_value(ds) as int) == decimal_value(ds) as u32);
    assert(parse_result(ts) == Ok::<_, SyntaxError>(crate::parser::Expr::Number(decimal_value(ds) as u32)));
}

/// The decimal rendering of a value evaluates back to that value.
pub proof fn lemma_decimal_round_trip(n: u32)
    ensures
        calculation(digits(n as nat, 10)) == Ok::<Value, CalcError>(Value::Number(n)),
{
    lemma_decimal_digits(n as nat);
    lemma_literal_round_trip(digits(n as nat, 10));
}

/// Decimal rendering writes digits only, and reading them gives the number back.
proof fn lemma_decimal_digits(n: nat)
    ensures
        digits(n, 10).len() > 0,
        forall|i: int| 0 <= i < digits(n, 10).len() ==> is_decimal_digit(#[trigger] digits(n, 10)[i]),
        decimal_value(digits(n, 10)) == n,
    decreases n,
{
    let ds = digits(n, 10);
    if n >= 10 {
        lemma_decimal_digits(n / 10);
        assert(ds.drop_last() =~= digits(n / 10, 10));
        assert(digit_value(digit_char(n % 10)) == n % 10);
        assert(ds.last() == digit_char(n % 10));
        lemma_fundamental_div_mod(n as int, 10);
        assert(decimal_value(ds) == decimal_value(digits(n / 10, 10)) * 10 + n % 10);
    } else {
        assert(ds.drop_last() =~= Seq::<char>::empty());
        assert(digit_value(digit_char(n)) == n);
        assert(decimal_value(ds.drop_last()) == 0);
        assert(decimal_value(ds) == n);
    }
}

/// Tokenizing the same text twice gives the same tokens.
pub proof fn lemma_tokenize_deterministic(input: &str, first: Seq<Token>, second: Seq<Token>)
    requires
        token_views(first) == lex(input@),
        token_views(second) == lex(input@),
    ensures
        token_views(first) == token_views(second),
{
}

} // verus!
