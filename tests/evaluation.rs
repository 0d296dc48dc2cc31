use calc::{CalcError, EvaluationError, Expr, SyntaxError, Token, Value, calculate, execute, parse, tokenize};

fn eval(s: &str) -> Result<Value, CalcError> {
    calculate(s)
}

fn number(n: u32) -> Box<Expr> {
    Box::new(Expr::Number(n))
}

#[test]
fn lone_literal_round_trips() {
    assert_eq!(eval("42"), Ok(Value::Number(42)));
    assert_eq!(eval("0"), Ok(Value::Number(0)));
    assert_eq!(eval("007"), Ok(Value::Number(7)));
    assert_eq!(eval("4294967295"), Ok(Value::Number(u32::MAX)));
}

#[test]
fn rendered_value_round_trips() {
    for n in [0u32, 9, 10, 123456, u32::MAX] {
        let text = Value::Number(n).to_decimal_string();
        assert_eq!(eval(&text), Ok(Value::Number(n)));
    }
}

#[test]
fn multiplication_binds_tighter() {
    assert_eq!(eval("2 + 3 * 4"), Ok(Value::Number(14)));
}

#[test]
fn subtraction_groups_left() {
    assert_eq!(eval("10 - 3 - 2"), Ok(Value::Number(5)));
    let tree = parse(&tokenize("10 - 3 - 2")).unwrap();
    assert_eq!(tree, Expr::Sub(Box::new(Expr::Sub(number(10), number(3))), number(2)));
}

#[test]
fn division_groups_left() {
    assert_eq!(eval("100 / 10 / 5"), Ok(Value::Number(2)));
}

#[test]
fn division_by_zero_is_an_error() {
    assert_eq!(eval("5 / 0"), Err(CalcError::Evaluation(EvaluationError::DivisionByZero)));
    assert_eq!(eval("1 + 6 / 0"), Err(CalcError::Evaluation(EvaluationError::DivisionByZero)));
}

#[test]
fn whitespace_does_not_matter() {
    assert_eq!(eval("1+2"), Ok(Value::Number(3)));
    assert_eq!(eval("1 + 2"), Ok(Value::Number(3)));
    assert_eq!(eval("  1   +   2  "), Ok(Value::Number(3)));
    assert_eq!(eval("\t1\n+\u{A0}2"), Ok(Value::Number(3)));
}

#[test]
fn malformed_input_is_rejected() {
    assert_eq!(eval("1 +"), Err(CalcError::Syntax(SyntaxError::UnexpectedEndOfInput)));
    assert_eq!(eval("1 2"), Err(CalcError::Syntax(SyntaxError::TrailingInput(1))));
}

#[test]
fn syntax_errors_name_their_position() {
    assert_eq!(eval(""), Err(CalcError::Syntax(SyntaxError::UnexpectedEndOfInput)));
    assert_eq!(eval("   "), Err(CalcError::Syntax(SyntaxError::UnexpectedEndOfInput)));
    assert_eq!(eval("+ 1"), Err(CalcError::Syntax(SyntaxError::UnexpectedToken(0))));
    assert_eq!(eval("x"), Err(CalcError::Syntax(SyntaxError::UnexpectedToken(0))));
    assert_eq!(eval("1 + * 2"), Err(CalcError::Syntax(SyntaxError::UnexpectedToken(2))));
    assert_eq!(eval("1 * 2 y"), Err(CalcError::Syntax(SyntaxError::TrailingInput(3))));
    assert_eq!(eval("1 + 2 3 +"), Err(CalcError::Syntax(SyntaxError::TrailingInput(3))));
}

#[test]
fn mixed_operators() {
    assert_eq!(eval("2 * 3 + 4 / 2"), Ok(Value::Number(8)));
    let tree = parse(&tokenize("2 * 3 + 4 / 2")).unwrap();
    assert_eq!(
        tree,
        Expr::Add(Box::new(Expr::Mul(number(2), number(3))), Box::new(Expr::Div(number(4), number(2))))
    );
}

#[test]
fn division_truncates() {
    assert_eq!(eval("7 / 2"), Ok(Value::Number(3)));
    assert_eq!(eval("1 / 3"), Ok(Value::Number(0)));
}

#[test]
fn arithmetic_wraps() {
    assert_eq!(eval("0 - 1"), Ok(Value::Number(u32::MAX)));
    assert_eq!(eval("4294967295 + 1"), Ok(Value::Number(0)));
    assert_eq!(eval("65536 * 65536"), Ok(Value::Number(0)));
    assert_eq!(eval("65537 * 65537"), Ok(Value::Number(131073)));
}

#[test]
fn execute_walks_a_built_tree() {
    let tree = Expr::Div(Box::new(Expr::Sub(number(20), number(2))), number(3));
    assert_eq!(execute(&tree), Ok(Value::Number(6)));
    let bad = Expr::Mul(number(4), Box::new(Expr::Div(number(1), number(0))));
    assert_eq!(execute(&bad), Err(EvaluationError::DivisionByZero));
}

#[test]
fn parse_rejects_an_empty_sequence() {
    let empty: Vec<Token> = Vec::new();
    assert_eq!(parse(&empty), Err(SyntaxError::UnexpectedEndOfInput));
}

#[test]
fn value_renders_in_four_bases() {
    let v = Value::Number(10);
    assert_eq!(v.to_decimal_string(), "10");
    assert_eq!(v.to_binary_string(), "1010");
    assert_eq!(v.to_octal_string(), "12");
    assert_eq!(v.to_lower_hex_string(), "a");
    let zero = Value::Number(0);
    assert_eq!(zero.to_decimal_string(), "0");
    assert_eq!(zero.to_binary_string(), "0");
    let max = Value::Number(u32::MAX);
    assert_eq!(max.to_decimal_string(), "4294967295");
    assert_eq!(max.to_lower_hex_string(), "ffffffff");
    assert_eq!(max.to_octal_string(), "37777777777");
    assert_eq!(Value::Number(255).to_binary_string(), "11111111");
}
