//! One step of an interactive session: a line of input against the scope.
use vstd::prelude::*;

use crate::error::{EvalError, ParseError};
use crate::math::{
    Arithmetic, ExpressionModel, ExpressionResult, assign_var, first_undefined, generate_ast, parse,
};
use crate::scope::Scope;
use crate::tokeniser::{lex, marked, tokenise};

verus! {

/// What a line of input did.
#[derive(Debug, PartialEq)]
pub enum LineOutcome<V> {
    /// The line was an expression, with this value.
    Value(V),
    /// The line bound a name to this value.
    Assigned(V),
}

/// Why a line of input had no outcome.
#[derive(Debug, PartialEq)]
pub enum LineError {
    Parse(ParseError),
    Eval(EvalError),
}

/// Tokenises and parses `line`, then evaluates it in `scope`. An assignment
/// that succeeds rebinds its name; nothing else changes the scope.
pub fn process_line<V: Arithmetic + Copy>(line: &str, scope: &mut Scope<V>) -> (r: Result<
    LineOutcome<V>,
    LineError,
>)
    requires
        old(scope).wf(),
    ensures
        final(scope).wf(),
        match lex(marked(line@)) {
            None => r == Err::<LineOutcome<V>, LineError>(LineError::Parse(ParseError::TokenizeError))
                && final(scope)@ == old(scope)@,
            Some(ts) => match parse(ts) {
                Err(e) => r == Err::<LineOutcome<V>, LineError>(LineError::Parse(e)) && final(scope)@
                    == old(scope)@,
                Ok(ExpressionModel::Evaluate(o)) => {
                    &&& final(scope)@ == old(scope)@
                    &&& match r {
                        Ok(LineOutcome::Value(v)) => {
                            &&& first_undefined(o, old(scope)@.dom()) is None
                            &&& o is Variable ==> v == old(scope)@[o->Variable_0]
                        },
                        Err(LineError::Eval(EvalError::UndefinedVariable(n))) => first_undefined(
                            o,
                            old(scope)@.dom(),
                        ) == Some(n@),
                        _ => false,
                    }
                },
                Ok(ExpressionModel::AssignVariable(name, o)) => match r {
                    Ok(LineOutcome::Assigned(v)) => {
                        &&& first_undefined(o, old(scope)@.dom()) is None
                        &&& o is Variable ==> v == old(scope)@[o->Variable_0]
                        &&& final(scope)@ == old(scope)@.insert(name, v)
                    },
                    Err(LineError::Eval(EvalError::UndefinedVariable(n))) => {
                        &&& first_undefined(o, old(scope)@.dom()) == Some(n@)
                        &&& final(scope)@ == old(scope)@
                    },
                    _ => false,
                },
            },
        },
{
    let tokens = match tokenise(line) {
        Ok(t) => t,
        Err(e) => return Err(LineError::Parse(e)),
    };
    match generate_ast(tokens) {
        Ok(ExpressionResult::Evaluate(o)) => match o.evaluate(scope) {
            Ok(v) => Ok(LineOutcome::Value(v)),
            Err(e) => Err(LineError::Eval(e)),
        },
        Ok(ExpressionResult::AssignVariable(name, o)) => match assign_var(scope, name, &o) {
            Ok(v) => Ok(LineOutcome::Assigned(v)),
            Err(e) => Err(LineError::Eval(e)),
        },
        Err(e) => Err(LineError::Parse(e)),
    }
}

} // verus!
