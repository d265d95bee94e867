use vstd::prelude::*;

verus! {

/// Why a line of input could not be turned into an expression.
#[derive(Debug, Clone, Copy, PartialEq, Eq, Structural)]
pub enum ParseError {
    /// Some part of the text is not a number, a name or an operator.
    TokenizeError,
    /// More than one `=` on one line.
    MultipleAssignment,
    /// The left-hand side of `=` is not a single variable name.
    InvalidAssignmentTarget,
    /// The modulo operator was chosen as an operation; it is not implemented.
    UnsupportedOperator,
    /// A bracket was left over where an operand or an operator was expected.
    UnbalancedBrackets,
    /// An operator or a pair of brackets has nothing to act on.
    MissingOperand,
    /// Two operands stand side by side with no operator between them.
    MissingOperator,
    /// The parser met an `=` inside an expression; no input can cause this.
    InternalInvariantViolation,
}

/// Why an expression could not be evaluated.
#[derive(Debug, PartialEq)]
pub enum EvalError {
    /// The expression names a variable that the scope does not bind.
    UndefinedVariable(String),
}

impl ParseError {
    /// A short description of the error, for people.
    pub fn describe(&self) -> (r: String)
        ensures
            r@.len() > 0,
    {
        match self {
            ParseError::TokenizeError => {
                proof {
                    reveal_strlit("unrecognised token");
                }
                String::from_str("unrecognised token")
            },
            ParseError::MultipleAssignment => {
                proof {
                    reveal_strlit("Can't have more than 1 equals symbol in an expression");
                }
                String::from_str("Can't have more than 1 equals symbol in an expression")
            },
            ParseError::InvalidAssignmentTarget => {
                proof {
                    reveal_strlit("Must have only a single variable name before the equals symbol");
                }
                String::from_str("Must have only a single variable name before the equals symbol")
            },
            ParseError::UnsupportedOperator => {
                proof {
                    reveal_strlit("the % operator is not supported");
                }
                String::from_str("the % operator is not supported")
            },
            ParseError::UnbalancedBrackets => {
                proof {
                    reveal_strlit("unbalanced brackets");
                }
                String::from_str("unbalanced brackets")
            },
            ParseError::MissingOperand => {
                proof {
                    reveal_strlit("missing operand");
                }
                String::from_str("missing operand")
            },
            ParseError::MissingOperator => {
                proof {
                    reveal_strlit("missing operator between operands");
                }
                String::from_str("missing operator between operands")
            },
            ParseError::InternalInvariantViolation => {
                proof {
                    reveal_strlit("internal error: an equals symbol reached the expression parser");
                }
                String::from_str("internal error: an equals symbol reached the expression parser")
            },
        }
    }
}

} // verus!
