use calculator::{ExpressionResult, Numeral, Operation, ParseError, generate_ast, tokenise};

fn parse(text: &str) -> Result<ExpressionResult, ParseError> {
    generate_ast(tokenise(text).unwrap())
}

fn num(text: &str) -> Box<Operation> {
    Box::new(Operation::Number(Numeral { text: text.to_string(), negative: false }))
}

fn neg(text: &str) -> Box<Operation> {
    Box::new(Operation::Number(Numeral { text: text.to_string(), negative: true }))
}

fn var(name: &str) -> Box<Operation> {
    Box::new(Operation::Variable(name.to_string()))
}

fn eval(op: Box<Operation>) -> Result<ExpressionResult, ParseError> {
    Ok(ExpressionResult::Evaluate(*op))
}

#[test]
fn multiplication_binds_tighter_than_addition() {
    assert_eq!(
        parse("2 + 3 * 4"),
        eval(Box::new(Operation::Add(num("2"), Box::new(Operation::Multiply(num("3"), num("4"))))))
    );
}

#[test]
fn brackets_group_first() {
    assert_eq!(
        parse("(2 + 3) * 4"),
        eval(Box::new(Operation::Multiply(Box::new(Operation::Add(num("2"), num("3"))), num("4"))))
    );
}

#[test]
fn exponentiation_groups_to_the_right() {
    // The leftmost operator of lowest rank is the root, so 2 ^ 3 ^ 2 is
    // 2 ^ (3 ^ 2).
    assert_eq!(
        parse("2 ^ 3 ^ 2"),
        eval(Box::new(Operation::Exponentiate(
            num("2"),
            Box::new(Operation::Exponentiate(num("3"), num("2")))
        )))
    );
}

#[test]
fn subtraction_groups_to_the_right() {
    // The same rule makes 8 - 4 - 2 read as 8 - (4 - 2).
    assert_eq!(
        parse("8 - 4 - 2"),
        eval(Box::new(Operation::Subtract(num("8"), Box::new(Operation::Subtract(num("4"), num("2"))))))
    );
}

#[test]
fn division_and_power() {
    assert_eq!(
        parse("a / b ^ 2"),
        eval(Box::new(Operation::Divide(var("a"), Box::new(Operation::Exponentiate(var("b"), num("2"))))))
    );
}

#[test]
fn negative_literals_after_folding() {
    assert_eq!(parse("-3 + 4"), eval(Box::new(Operation::Add(neg("3"), num("4")))));
    assert_eq!(parse("4 + -3"), eval(Box::new(Operation::Add(num("4"), neg("3")))));
}

#[test]
fn leading_minus_negates_bracket() {
    assert_eq!(
        parse("-(2 + 3)"),
        eval(Box::new(Operation::Negate(Box::new(Operation::Add(num("2"), num("3"))))))
    );
}

#[test]
fn nested_brackets_are_stripped() {
    assert_eq!(parse("((x))"), eval(var("x")));
}

#[test]
fn adjacent_groups_are_not_one_group() {
    assert_eq!(
        parse("(1) * (2)"),
        eval(Box::new(Operation::Multiply(num("1"), num("2"))))
    );
}

#[test]
fn assignment() {
    assert_eq!(parse("x = 5"), Ok(ExpressionResult::AssignVariable("x".to_string(), *num("5"))));
    assert_eq!(
        parse("pi = x + 1"),
        Ok(ExpressionResult::AssignVariable(
            "pi".to_string(),
            Operation::Add(var("x"), num("1"))
        ))
    );
}

#[test]
fn two_equals_is_multiple_assignment() {
    assert_eq!(parse("x = y = 2"), Err(ParseError::MultipleAssignment));
}

#[test]
fn assignment_target_must_be_a_single_name() {
    assert_eq!(parse("x y = 2"), Err(ParseError::InvalidAssignmentTarget));
    assert_eq!(parse("3 = 2"), Err(ParseError::InvalidAssignmentTarget));
    assert_eq!(parse("= 2"), Err(ParseError::InvalidAssignmentTarget));
    assert_eq!(parse("="), Err(ParseError::InvalidAssignmentTarget));
}

#[test]
fn unbalanced_open_bracket_is_an_error() {
    assert_eq!(parse("(1 + 2"), Err(ParseError::UnbalancedBrackets));
    assert_eq!(parse(")"), Err(ParseError::UnbalancedBrackets));
}

#[test]
fn stray_close_bracket_after_operand_is_an_error() {
    assert_eq!(parse("1 + 2)"), Err(ParseError::MissingOperator));
}

#[test]
fn missing_operands() {
    assert_eq!(parse("1 +"), Err(ParseError::MissingOperand));
    assert_eq!(parse("()"), Err(ParseError::MissingOperand));
    assert_eq!(parse(""), Err(ParseError::MissingOperand));
    assert_eq!(parse("x ="), Err(ParseError::MissingOperand));
}

#[test]
fn modulo_is_unsupported() {
    assert_eq!(parse("5 % 2"), Err(ParseError::UnsupportedOperator));
    assert_eq!(parse("% 2"), Err(ParseError::UnsupportedOperator));
    assert_eq!(parse("%"), Err(ParseError::UnsupportedOperator));
    assert_eq!(parse("1 + (4 % 3) * 2"), Err(ParseError::UnsupportedOperator));
    assert_eq!(parse("x = 5 % 2"), Err(ParseError::UnsupportedOperator));
}

#[test]
fn operands_without_operator_are_an_error() {
    assert_eq!(parse("2 3"), Err(ParseError::MissingOperator));
    assert_eq!(parse("x (1)"), Err(ParseError::MissingOperator));
    // "+3" is one literal, so "2+3" is two operands side by side.
    assert_eq!(parse("2+3"), Err(ParseError::MissingOperator));
}

#[test]
fn errors_have_descriptions() {
    for e in [
        ParseError::TokenizeError,
        ParseError::MultipleAssignment,
        ParseError::InvalidAssignmentTarget,
        ParseError::UnsupportedOperator,
        ParseError::UnbalancedBrackets,
        ParseError::MissingOperand,
        ParseError::MissingOperator,
        ParseError::InternalInvariantViolation,
    ] {
        assert!(!e.describe().is_empty());
    }
    assert_eq!(ParseError::TokenizeError.describe(), "unrecognised token");
}
