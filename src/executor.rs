//! Reducing an expression tree to a value.
//!
//! `+`, `-` and `*` wrap modulo 2^32, as `u32` arithmetic does; `/` truncates
//! and fails on a zero divisor.

use crate::lexer::wrap;
use crate::parser::Expr;
use vstd::arithmetic::div_mod::lemma_div_decreases;
use vstd::prelude::*;

verus! {

/// The result of evaluating an expression.
#[derive(Debug, Clone, Copy, PartialEq, Eq, Structural)]
pub enum Value {
    Number(u32),
}

/// Why an expression has no value.
#[derive(Debug, Clone, Copy, PartialEq, Eq, Structural)]
pub enum EvaluationError {
    DivisionByZero,
}

/// The values of two operands, or the first error among them.
pub open spec fn operands(
    l: Result<Value, EvaluationError>,
    r: Result<Value, EvaluationError>,
) -> Result<(u32, u32), EvaluationError> {
    match (l, r) {
        (Ok(Value::Number(a)), Ok(Value::Number(b))) => Ok((a, b)),
        (Err(e), _) => Err(e),
        (_, Err(e)) => Err(e),
    }
}

/// The value of `e`, evaluating left operands before right ones.
pub open spec fn value_of(e: Expr) -> Result<Value, EvaluationError>
    decreases e,
{
    match e {
        Expr::Number(n) => Ok(Value::Number(n)),
        Expr::Add(l, r) => match operands(value_of(*l), value_of(*r)) {
            Ok((a, b)) => Ok(Value::Number(wrap(a + b))),
            Err(x) => Err(x),
        },
        Expr::Sub(l, r) => match operands(value_of(*l), value_of(*r)) {
            Ok((a, b)) => Ok(Value::Number(wrap(a - b))),
            Err(x) => Err(x),
        },
        Expr::Mul(l, r) => match operands(value_of(*l), value_of(*r)) {
            Ok((a, b)) => Ok(Value::Number(wrap(a * b))),
            Err(x) => Err(x),
        },
        Expr::Div(l, r) => match operands(value_of(*l), value_of(*r)) {
            Ok((a, b)) => if b == 0 {
                Err(EvaluationError::DivisionByZero)
            } else {
                Ok(Value::Number(a / b))
            },
            Err(x) => Err(x),
        },
    }
}

/// Evaluates both operands of the operator node `e`, left first.
fn execute_operands(e: &Expr) -> (res: Result<(u32, u32), EvaluationError>)
    requires
        !(e is Number),
    ensures
        match *e {
            Expr::Add(l, r) | Expr::Sub(l, r) | Expr::Mul(l, r) | Expr::Div(l, r) => res == operands(
                value_of(*l),
                value_of(*r),
            ),
            Expr::Number(_) => false,
        },
    decreases e, 0nat,
{
    let (l, r) = match e {
        Expr::Add(l, r) | Expr::Sub(l, r) | Expr::Mul(l, r) | Expr::Div(l, r) => (l, r),
        Expr::Number(n) => {
            // excluded by the precondition
            return Ok((*n, *n));
        },
    };
    let a = match execute(l) {
        Ok(Value::Number(a)) => a,
        Err(e) => {
            return Err(e);
        },
    };
    match execute(r) {
        Ok(Value::Number(b)) => Ok((a, b)),
        Err(e) => Err(e),
    }
}

/// Evaluates `expr`; fails only on a division by zero.
pub fn execute(expr: &Expr) -> (r: Result<Value, EvaluationError>)
    ensures
        r == value_of(*expr),
    decreases expr, 1nat,
{
    match expr {
        Expr::Number(n) => Ok(Value::Number(*n)),
        Expr::Add(..) => match execute_operands(expr) {
            Ok((a, b)) => {
                let v = a.wrapping_add(b);
                assert(v == wrap(a + b));
                Ok(Value::Number(v))
            },
            Err(e) => Err(e),
        },
        Expr::Sub(..) => match execute_operands(expr) {
            Ok((a, b)) => {
                let v = a.wrapping_sub(b);
                assert(v == wrap(a - b));
                Ok(Value::Number(v))
            },
            Err(e) => Err(e),
        },
        Expr::Mul(..) => match execute_operands(expr) {
            Ok((a, b)) => Ok(Value::Number(a.wrapping_mul(b))),
            Err(e) => Err(e),
        },
        Expr::Div(..) => match execute_operands(expr) {
            Ok((a, b)) => {
                if b == 0 {
                    Err(EvaluationError::DivisionByZero)
                } else {
                    Ok(Value::Number(a / b))
                }
            },
            Err(e) => Err(e),
        },
    }
}

/// The character of a digit below 16: `0`-`9`, then `a`-`f`.
pub open spec fn digit_char(d: nat) -> char {
    if d < 10 {
        (d + 48) as char
    } else {
        (d + 87) as char
    }
}

/// The digits of `n` in base `radix`, most significant first, with no leading
/// zero (zero itself is `0`).
pub open spec fn digits(n: nat, radix: nat) -> Seq<char>
    decreases n,
    via digits_decreases
{
    if radix < 2 || n < radix {
        seq![digit_char(n)]
    } else {
        digits(n / radix, radix).push(digit_char(n % radix))
    }
}

#[via_fn]
proof fn digits_decreases(n: nat, radix: nat) {
    if radix >= 2 && n >= radix {
        lemma_div_decreases(n as int, radix as int);
    }
}

/// Relies on `String`'s `FromIterator<char>`: the string of the characters, in order.
#[verifier::external_body]
fn string_from_chars(cs: &Vec<char>) -> (r: String)
    ensures
        r@ == cs@,
{
    cs.iter().collect()
}

fn digit_to_char(d: u32) -> (c: char)
    requires
        d < 16,
    ensures
        c == digit_char(d as nat),
{
    if d < 10 {
        ((d + 48) as u8) as char
    } else {
        ((d + 87) as u8) as char
    }
}

/// `n` written in base `radix`.
fn render(n: u32, radix: u32) -> (r: String)
    requires
        2 <= radix <= 16,
    ensures
        r@ == digits(n as nat, radix as nat),
{
    let mut out: Vec<char> = Vec::new();
    let mut m: u32 = n;
    loop
        invariant_except_break
            digits(m as nat, radix as nat) + out@ == digits(n as nat, radix as nat),
        invariant
            2 <= radix <= 16,
        ensures
            out@ == digits(n as nat, radix as nat),
        decreases m,
    {
        if m < radix {
            let ghost before = out@;
            out.insert(0, digit_to_char(m));
            assert(out@ =~= digits(m as nat, radix as nat) + before);
            break;
        }
        let ghost before = out@;
        out.insert(0, digit_to_char(m % radix));
        proof {
            lemma_div_decreases(m as int, radix as int);
            assert(digits((m / radix) as nat, radix as nat) + out@ =~= digits(m as nat, radix as nat)
                + before);
        }
        m = m / radix;
    }
    string_from_chars(&out)
}

impl Value {
    /// The value in decimal.
    pub fn to_decimal_string(&self) -> (r: String)
        ensures
            match *self {
                Value::Number(n) => r@ == digits(n as nat, 10),
            },
    {
        match self {
            Value::Number(n) => render(*n, 10),
        }
    }

    /// The value in binary, without a prefix.
    pub fn to_binary_string(&self) -> (r: String)
        ensures
            match *self {
                Value::Number(n) => r@ == digits(n as nat, 2),
            },
    {
        match self {
            Value::Number(n) => render(*n, 2),
        }
    }

    /// The value in octal, without a prefix.
    pub fn to_octal_string(&self) -> (r: String)
        ensures
            match *self {
                Value::Number(n) => r@ == digits(n as nat, 8),
            },
    {
        match self {
            Value::Number(n) => render(*n, 8),
        }
    }

    /// The value in lowercase hexadecimal, without a prefix.
    pub fn to_lower_hex_string(&self) -> (r: String)
        ensures
            match *self {
                Value::Number(n) => r@ == digits(n as nat, 16),
            },
    {
        match self {
            Value::Number(n) => render(*n, 16),
        }
    }
}

} // verus!
