//! Splitting text into tokens.

use itertools::Itertools;
use vstd::arithmetic::div_mod::{lemma_add_mod_noop, lemma_mul_mod_noop_left};
use vstd::prelude::*;
use vstd::string::StrSliceExecFns;

verus! {

/// One lexical unit of an expression.
#[derive(Debug, Clone, PartialEq, Eq)]
pub enum Token {
    Integer(u32),
    Ident(String),
    Plus,
    Minus,
    Star,
    Slash,
}

/// The mathematical model of a [`Token`]: an identifier is seen as its characters.
pub enum TokenView {
    Integer(u32),
    Ident(Seq<char>),
    Plus,
    Minus,
    Star,
    Slash,
}

impl View for Token {
    type V = TokenView;

    open spec fn view(&self) -> TokenView {
        match self {
            Token::Integer(n) => TokenView::Integer(*n),
            Token::Ident(s) => TokenView::Ident(s@),
            Token::Plus => TokenView::Plus,
            Token::Minus => TokenView::Minus,
            Token::Star => TokenView::Star,
            Token::Slash => TokenView::Slash,
        }
    }
}

/// The models of a sequence of tokens, position by position.
pub open spec fn token_views(ts: Seq<Token>) -> Seq<TokenView> {
    ts.map_values(|t: Token| t@)
}

/// Whether `c` has the Unicode Alphabetic or Numeric property.
pub uninterp spec fn alphanumeric(c: char) -> bool;

/// Whether `c` has the Unicode White_Space property.
pub uninterp spec fn whitespace(c: char) -> bool;

/// Relies on `char::is_alphanumeric`: true exactly for alphabetic or numeric characters.
#[verifier::external_body]
fn is_alphanumeric(c: char) -> (r: bool)
    ensures
        r == alphanumeric(c),
{
    c.is_alphanumeric()
}

/// Relies on `char::is_whitespace`: true exactly for White_Space characters.
#[verifier::external_body]
fn is_whitespace(c: char) -> (r: bool)
    ensures
        r == whitespace(c),
{
    c.is_whitespace()
}

pub open spec fn is_decimal_digit(c: char) -> bool {
    '0' <= c && c <= '9'
}

/// The value of an ASCII decimal digit.
pub open spec fn digit_value(c: char) -> nat {
    (c as u32 - '0' as u32) as nat
}

/// The characters that make up one multi-character token.
#[derive(Clone, Copy)]
pub enum CharClass {
    /// ASCII decimal digits, which form integer literals.
    Digit,
    /// Alphanumeric characters, which form identifiers.
    Word,
}

impl CharClass {
    pub open spec fn holds(self, c: char) -> bool {
        match self {
            CharClass::Digit => is_decimal_digit(c),
            CharClass::Word => alphanumeric(c),
        }
    }

    pub fn contains(self, c: char) -> (r: bool)
        ensures
            r == self.holds(c),
    {
        match self {
            CharClass::Digit => '0' <= c && c <= '9',
            CharClass::Word => is_alphanumeric(c),
        }
    }
}

/// Relies on `itertools::Itertools::take_while_ref`: over the characters from
/// `start` on, it yields them while `class` accepts them and stops before the
/// first one it rejects; the count of what it yields is that run's length.
#[verifier::external_body]
fn run_length(chars: &[char], start: usize, class: CharClass) -> (r: usize)
    requires
        start <= chars@.len(),
    ensures
        start + r <= chars@.len(),
        forall|i: int| start <= i < start + r ==> class.holds(#[trigger] chars@[i]),
        start + r < chars@.len() ==> !class.holds(chars@[start + r]),
{
    let mut it = chars[start..].iter();
    it.take_while_ref(|c| class.contains(**c)).count()
}

/// The length of the longest prefix of `cs` whose characters all belong to `class`.
pub open spec fn run_len(cs: Seq<char>, class: CharClass) -> nat
    decreases cs.len(),
{
    if cs.len() > 0 && class.holds(cs[0]) {
        1 + run_len(cs.drop_first(), class)
    } else {
        0
    }
}

/// The number written by a sequence of decimal digits, most significant first.
pub open spec fn decimal_value(ds: Seq<char>) -> nat
    decreases ds.len(),
{
    if ds.len() == 0 {
        0
    } else {
        decimal_value(ds.drop_last()) * 10 + digit_value(ds.last())
    }
}

/// `x` reduced modulo 2^32, as 32-bit unsigned arithmetic wraps it.
pub open spec fn wrap(x: int) -> u32 {
    (x % 0x1_0000_0000) as u32
}

/// The token that a single operator character stands for.
pub open spec fn operator_token(c: char) -> Option<TokenView> {
    if c == '+' {
        Some(TokenView::Plus)
    } else if c == '-' {
        Some(TokenView::Minus)
    } else if c == '*' {
        Some(TokenView::Star)
    } else if c == '/' {
        Some(TokenView::Slash)
    } else {
        None
    }
}

/// The tokens of `cs`, read left to right. A maximal run of decimal digits is
/// an integer literal, whose value wraps modulo 2^32; whitespace is skipped; a
/// maximal run of alphanumeric characters that starts with something other than
/// a decimal digit is an identifier; `+ - * /` are operators; any other
/// character is dropped.
pub open spec fn lex(cs: Seq<char>) -> Seq<TokenView>
    decreases cs.len(),
    via lex_decreases
{
    if cs.len() == 0 {
        seq![]
    } else if is_decimal_digit(cs[0]) {
        let n = run_len(cs, CharClass::Digit) as int;
        seq![TokenView::Integer(wrap(decimal_value(cs.take(n)) as int))] + lex(cs.skip(n))
    } else if whitespace(cs[0]) {
        lex(cs.skip(1))
    } else if alphanumeric(cs[0]) {
        let n = run_len(cs, CharClass::Word) as int;
        seq![TokenView::Ident(cs.take(n))] + lex(cs.skip(n))
    } else {
        match operator_token(cs[0]) {
            Some(t) => seq![t] + lex(cs.skip(1)),
            None => lex(cs.skip(1)),
        }
    }
}

#[via_fn]
proof fn lex_decreases(cs: Seq<char>) {
    if cs.len() > 0 {
        lemma_run_len_bounds(cs, CharClass::Digit);
        lemma_run_len_bounds(cs, CharClass::Word);
    }
}

proof fn lemma_run_len_bounds(cs: Seq<char>, class: CharClass)
    ensures
        run_len(cs, class) <= cs.len(),
        cs.len() > 0 && class.holds(cs[0]) ==> run_len(cs, class) >= 1,
    decreases cs.len(),
{
    if cs.len() > 0 && class.holds(cs[0]) {
        lemma_run_len_bounds(cs.drop_first(), class);
    }
}

/// A run that ends where the class stops holding has the length `run_len` gives.
proof fn lemma_run_len_of(cs: Seq<char>, class: CharClass, n: int)
    requires
        0 <= n <= cs.len(),
        forall|i: int| 0 <= i < n ==> class.holds(#[trigger] cs[i]),
        n < cs.len() ==> !class.holds(cs[n]),
    ensures
        run_len(cs, class) == n,
    decreases n,
{
    if n > 0 {
        assert(class.holds(cs[0]));
        let rest = cs.drop_first();
        assert forall|i: int| 0 <= i < n - 1 implies class.holds(#[trigger] rest[i]) by {
            assert(rest[i] == cs[i + 1]);
        }
        lemma_run_len_of(rest, class, n - 1);
    }
}

/// A nonempty run of decimal digits is one integer literal, wrapped to 32 bits.
pub(crate) proof fn lemma_lex_literal(ds: Seq<char>)
    requires
        ds.len() > 0,
        forall|i: int| 0 <= i < ds.len() ==> is_decimal_digit(#[trigger] ds[i]),
    ensures
        lex(ds) == seq![TokenView::Integer(wrap(decimal_value(ds) as int))],
{
    lemma_run_len_of(ds, CharClass::Digit, ds.len() as int);
    assert(ds.take(ds.len() as int) =~= ds);
    assert(ds.skip(ds.len() as int) =~= Seq::<char>::empty());
    assert(lex(ds.skip(ds.len() as int)) =~= Seq::<TokenView>::empty());
    assert(lex(ds) =~= seq![TokenView::Integer(wrap(decimal_value(ds) as int))]);
}

/// The characters of `input`, in order.
fn chars_of(input: &str) -> (r: Vec<char>)
    ensures
        r@ == input@,
{
    let mut r: Vec<char> = Vec::new();
    for c in it: input.chars()
        invariant
            it.seq() == input@,
            r@ == it.seq().take(it.index() as int),
    {
        r.push(c);
    }
    r
}

/// Splits `input` into tokens, left to right (see [`lex`]).
pub fn tokenize(input: &str) -> (r: Vec<Token>)
    ensures
        token_views(r@) == lex(input@),
{
    let cs = chars_of(input);
    let mut tokens: Vec<Token> = Vec::new();
    let mut i: usize = 0;
    proof {
        assert(token_views(tokens@) =~= Seq::<TokenView>::empty());
        assert(cs@.skip(0) =~= cs@);
    }
    while i < cs.len()
        invariant
            cs@ == input@,
            i <= cs@.len(),
            token_views(tokens@) + lex(cs@.skip(i as int)) == lex(cs@),
        decreases cs.len() - i,
    {
        let c = cs[i];
        let ghost rest = cs@.skip(i as int);
        // Digits are tested first: no digit is whitespace, and a digit starts
        // a literal, never an identifier.
        if '0' <= c && c <= '9' {
            let n = run_length(cs.as_slice(), i, CharClass::Digit);
            let end: usize = i + n;
            proof {
                lemma_run_len_of(rest, CharClass::Digit, n as int);
            }
            let mut value: u32 = 0;
            let mut j: usize = i;
            while j < end
                invariant
                    end == i + n,
                    i <= j <= end <= cs@.len(),
                    forall|k: int| i <= k < end ==> is_decimal_digit(#[trigger] cs@[k]),
                    value == wrap(decimal_value(cs@.subrange(i as int, j as int)) as int),
                decreases end - j,
            {
                let d = cs[j];
                let next = ((value as u64) * 10 + ((d as u32 - '0' as u32) as u64)) % 0x1_0000_0000;
                proof {
                    lemma_wrap_step(cs@.subrange(i as int, j as int + 1));
                    assert(cs@.subrange(i as int, j as int + 1).drop_last() =~= cs@.subrange(i as int, j as int));
                }
                value = next as u32;
                j = j + 1;
            }
            proof {
                assert(rest.take(n as int) =~= cs@.subrange(i as int, (i + n) as int));
                assert(rest.skip(n as int) =~= cs@.skip((i + n) as int));
            }
            tokens.push(Token::Integer(value));
            i = i + n;
        } else if is_whitespace(c) {
            proof {
                assert(rest.skip(1) =~= cs@.skip(i + 1));
            }
            i = i + 1;
        } else if is_alphanumeric(c) {
            let n = run_length(cs.as_slice(), i, CharClass::Word);
            proof {
                lemma_run_len_of(rest, CharClass::Word, n as int);
            }
            let name = String::from_str(input.substring_char(i, i + n));
            proof {
                assert(rest.take(n as int) =~= cs@.subrange(i as int, (i + n) as int));
                assert(rest.skip(n as int) =~= cs@.skip((i + n) as int));
            }
            tokens.push(Token::Ident(name));
            i = i + n;
        } else {
            if c == '+' {
                tokens.push(Token::Plus);
            } else if c == '-' {
                tokens.push(Token::Minus);
            } else if c == '*' {
                tokens.push(Token::Star);
            } else if c == '/' {
                tokens.push(Token::Slash);
            }
            proof {
                assert(rest.skip(1) =~= cs@.skip(i + 1));
            }
            i = i + 1;
        }
    }
    proof {
        assert(cs@.skip(i as int) =~= Seq::<char>::empty());
        assert(cs@.skip(0) =~= cs@);
    }
    tokens
}

/// Appending one digit wraps the same way as wrapping the exact value.
proof fn lemma_wrap_step(ds: Seq<char>)
    requires
        ds.len() > 0,
    ensures
        wrap(decimal_value(ds) as int) == wrap(
            wrap(decimal_value(ds.drop_last()) as int) * 10 + digit_value(ds.last()),
        ),
{
    let a = decimal_value(ds.drop_last()) as int;
    let d = digit_value(ds.last()) as int;
    let m: int = 0x1_0000_0000;
    lemma_add_mod_noop(a * 10, d, m);
    lemma_add_mod_noop((a % m) * 10, d, m);
    lemma_mul_mod_noop_left(a, 10, m);
}

} // verus!
