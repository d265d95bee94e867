use calculator::{
    Arithmetic, EvalError, LineError, LineOutcome, Numeral, Operation, ParseError, Scope,
    assign_var, process_line,
};

#[derive(Debug, Clone, Copy, PartialEq)]
struct Float(f64);

impl Arithmetic for Float {
    fn from_numeral(n: &Numeral) -> Self {
        let v: f64 = n.text.parse().unwrap();
        Float(if n.negative { -v } else { v })
    }

    fn negate(self) -> Self {
        Float(-self.0)
    }

    fn plus(self, other: Self) -> Self {
        Float(self.0 + other.0)
    }

    fn minus(self, other: Self) -> Self {
        Float(self.0 - other.0)
    }

    fn times(self, other: Self) -> Self {
        Float(self.0 * other.0)
    }

    fn divide(self, other: Self) -> Self {
        Float(self.0 / other.0)
    }

    fn power(self, other: Self) -> Self {
        Float(self.0.powf(other.0))
    }
}

fn constants() -> Scope<Float> {
    let mut scope = Scope::new();
    scope.insert("e".to_string(), Float(std::f64::consts::E));
    scope.insert("pi".to_string(), Float(std::f64::consts::PI));
    scope.insert("tau".to_string(), Float(std::f64::consts::TAU));
    scope
}

fn value(line: &str, scope: &mut Scope<Float>) -> f64 {
    match process_line(line, scope) {
        Ok(LineOutcome::Value(Float(v))) => v,
        other => panic!("{line}: {other:?}"),
    }
}

#[test]
fn precedence_values() {
    let mut scope = constants();
    assert_eq!(value("2 + 3 * 4", &mut scope), 14.0);
    assert_eq!(value("(2 + 3) * 4", &mut scope), 20.0);
    // Operators of one rank group to the right: 2 ^ (3 ^ 2), 8 - (4 - 2),
    // 8 / (4 / 2).
    assert_eq!(value("2 ^ 3 ^ 2", &mut scope), 512.0);
    assert_eq!(value("8 - 4 - 2", &mut scope), 6.0);
    assert_eq!(value("8 / 4 / 2", &mut scope), 4.0);
}

#[test]
fn unary_minus_values() {
    let mut scope = constants();
    assert_eq!(value("-3 + 4", &mut scope), 1.0);
    assert_eq!(value("4 + -3", &mut scope), 1.0);
    assert_eq!(value("-(2 + 3)", &mut scope), -5.0);
}

#[test]
fn assignment_round_trip() {
    let mut scope = constants();
    assert_eq!(process_line("x = 5", &mut scope), Ok(LineOutcome::Assigned(Float(5.0))));
    assert_eq!(value("x + 1", &mut scope), 6.0);
}

#[test]
fn constants_can_be_reassigned() {
    let mut scope = constants();
    assert_eq!(value("pi", &mut scope), std::f64::consts::PI);
    assert_eq!(process_line("pi = 1", &mut scope), Ok(LineOutcome::Assigned(Float(1.0))));
    assert_eq!(value("pi", &mut scope), 1.0);
}

#[test]
fn assignment_may_use_the_old_value() {
    let mut scope = constants();
    process_line("n = 2", &mut scope).unwrap();
    process_line("n = n * 10", &mut scope).unwrap();
    assert_eq!(value("n", &mut scope), 20.0);
}

#[test]
fn undefined_variable_leaves_scope_unchanged() {
    let mut scope = constants();
    assert_eq!(
        process_line("y + 1", &mut scope),
        Err(LineError::Eval(EvalError::UndefinedVariable("y".to_string())))
    );
    assert_eq!(
        process_line("z = y + w", &mut scope),
        Err(LineError::Eval(EvalError::UndefinedVariable("y".to_string())))
    );
    assert_eq!(scope.get(&"z".to_string()), None);
    assert_eq!(scope.get(&"y".to_string()), None);
    assert_eq!(scope.get(&"e".to_string()), Some(Float(std::f64::consts::E)));
}

#[test]
fn first_undefined_name_is_reported() {
    let mut scope = constants();
    assert_eq!(
        process_line("pi * (b + a)", &mut scope),
        Err(LineError::Eval(EvalError::UndefinedVariable("b".to_string())))
    );
}

#[test]
fn division_by_zero_is_infinite() {
    let mut scope = constants();
    assert_eq!(value("1 / 0", &mut scope), f64::INFINITY);
}

#[test]
fn modulo_is_an_error_not_an_abort() {
    let mut scope = constants();
    assert_eq!(
        process_line("5 % 2", &mut scope),
        Err(LineError::Parse(ParseError::UnsupportedOperator))
    );
}

#[test]
fn multiple_assignment_line() {
    let mut scope = constants();
    assert_eq!(
        process_line("x = y = 2", &mut scope),
        Err(LineError::Parse(ParseError::MultipleAssignment))
    );
    assert_eq!(scope.get(&"x".to_string()), None);
}

#[test]
fn tokenize_error_line() {
    let mut scope = constants();
    assert_eq!(process_line("2 $ 3", &mut scope), Err(LineError::Parse(ParseError::TokenizeError)));
}

#[test]
fn evaluation_is_repeatable() {
    let mut scope = constants();
    let first = value("tau / 2 - pi", &mut scope);
    let second = value("tau / 2 - pi", &mut scope);
    assert_eq!(first, second);
}

#[test]
fn evaluate_and_assign_var_directly() {
    let mut scope = constants();
    let expr = Operation::Add(
        Box::new(Operation::Variable("e".to_string())),
        Box::new(Operation::Number(Numeral { text: "1".to_string(), negative: true })),
    );
    assert_eq!(expr.evaluate(&scope), Ok(Float(std::f64::consts::E - 1.0)));
    assert_eq!(assign_var(&mut scope, "k".to_string(), &expr), Ok(Float(std::f64::consts::E - 1.0)));
    assert_eq!(scope.get(&"k".to_string()), Some(Float(std::f64::consts::E - 1.0)));
}

#[test]
fn scope_insert_overwrites() {
    let mut scope: Scope<Float> = Scope::new();
    assert_eq!(scope.get(&"a".to_string()), None);
    scope.insert("a".to_string(), Float(1.0));
    scope.insert("b".to_string(), Float(2.0));
    scope.insert("a".to_string(), Float(3.0));
    assert_eq!(scope.get(&"a".to_string()), Some(Float(3.0)));
    assert_eq!(scope.get(&"b".to_string()), Some(Float(2.0)));
}
