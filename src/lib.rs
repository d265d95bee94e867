//! An arithmetic expression engine: a tokeniser, a precedence parser that
//! builds an expression tree, an evaluator over a variable scope, and the
//! step that runs one line of an interactive session.
pub mod error;
pub mod interpreter;
pub mod lexeme;
pub mod math;
pub mod scope;
pub mod tokeniser;

pub use error::{EvalError, ParseError};
pub use interpreter::{LineError, LineOutcome, process_line};
pub use lexeme::valid_identifier;
pub use math::{Arithmetic, ExpressionResult, Operation, assign_var, generate_ast};
pub use scope::Scope;
pub use tokeniser::{Numeral, Token, tokenise};
