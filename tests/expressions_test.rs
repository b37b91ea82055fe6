use hyprlang::expressions::ExpressionEvaluator;

#[test]
fn test_simple_arithmetic() {
    let eval = ExpressionEvaluator::new();
    assert_eq!(eval.evaluate("1 + 2").unwrap(), 3);
    assert_eq!(eval.evaluate("10 - 3").unwrap(), 7);
    assert_eq!(eval.evaluate("4 * 5").unwrap(), 20);
    assert_eq!(eval.evaluate("20 / 4").unwrap(), 5);
}

#[test]
fn test_precedence() {
    let eval = ExpressionEvaluator::new();
    assert_eq!(eval.evaluate("2 + 3 * 4").unwrap(), 14);
    assert_eq!(eval.evaluate("10 - 2 * 3").unwrap(), 4);
}

#[test]
fn test_parentheses() {
    let eval = ExpressionEvaluator::new();
    assert_eq!(eval.evaluate("(2 + 3) * 4").unwrap(), 20);
    assert_eq!(eval.evaluate("10 / (2 + 3)").unwrap(), 2);
}

#[test]
fn expressions_test_variables() {
    let mut eval = ExpressionEvaluator::new();
    eval.set_variable("x".to_string(), 10);
    eval.set_variable("y".to_string(), 5);

    assert_eq!(eval.evaluate("x + y").unwrap(), 15);
    assert_eq!(eval.evaluate("x * y").unwrap(), 50);
}

#[test]
fn test_complex_expression() {
    let mut eval = ExpressionEvaluator::new();
    eval.set_variable("a".to_string(), 3);
    eval.set_variable("b".to_string(), 4);

    assert_eq!(eval.evaluate("(a + b) * 2 - 3").unwrap(), 11);
}
