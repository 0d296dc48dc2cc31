//! Integer arithmetic expressions: text is split into tokens, the tokens are
//! parsed into an expression tree that honours operator precedence, and the
//! tree is reduced to a value.

pub mod executor;
pub mod lexer;
pub mod parser;
pub mod pipeline;

pub use executor::{EvaluationError, Value, execute};
pub use lexer::{Token, TokenView, tokenize};
pub use parser::{Expr, SyntaxError, parse};
pub use pipeline::{CalcError, calculate};
