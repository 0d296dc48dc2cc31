use calc::{Token, tokenize};

fn ident(s: &str) -> Token {
    Token::Ident(s.to_string())
}

#[test]
fn empty_input_has_no_tokens() {
    assert_eq!(tokenize(""), Vec::<Token>::new());
    assert_eq!(tokenize(" \t\n "), Vec::<Token>::new());
}

#[test]
fn operators_and_integers() {
    assert_eq!(
        tokenize("12+3-4*5/6"),
        vec![
            Token::Integer(12),
            Token::Plus,
            Token::Integer(3),
            Token::Minus,
            Token::Integer(4),
            Token::Star,
            Token::Integer(5),
            Token::Slash,
            Token::Integer(6),
        ]
    );
}

#[test]
fn identifiers_take_maximal_alphanumeric_runs() {
    assert_eq!(tokenize("a1b2"), vec![ident("a1b2")]);
    assert_eq!(tokenize("abc+d"), vec![ident("abc"), Token::Plus, ident("d")]);
    assert_eq!(tokenize("héllo wörld"), vec![ident("héllo"), ident("wörld")]);
}

#[test]
fn digits_are_read_before_identifiers() {
    assert_eq!(tokenize("12ab"), vec![Token::Integer(12), ident("ab")]);
    assert_eq!(tokenize("x12"), vec![ident("x12")]);
}

#[test]
fn unknown_characters_are_dropped() {
    assert_eq!(tokenize("1 $ 2 (3)"), vec![Token::Integer(1), Token::Integer(2), Token::Integer(3)]);
    assert_eq!(tokenize("%^&"), Vec::<Token>::new());
}

#[test]
fn literals_wrap_at_32_bits() {
    assert_eq!(tokenize("4294967295"), vec![Token::Integer(u32::MAX)]);
    assert_eq!(tokenize("4294967296"), vec![Token::Integer(0)]);
    assert_eq!(tokenize("4294967297"), vec![Token::Integer(1)]);
}

#[test]
fn tokenizing_twice_gives_the_same_tokens() {
    for s in ["1 + 2 * x3", "", "  7/0 ", "abc 12 $"] {
        assert_eq!(tokenize(s), tokenize(s));
    }
}
