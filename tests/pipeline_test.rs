use hyprlang::error::ConfigError;
use hyprlang::evaluation::{define_variable, parse_int, resolve_value};
use hyprlang::expressions::{evaluate_expressions_in_string, ExpressionEvaluator};
use hyprlang::variables::VariableManager;

fn fresh() -> (VariableManager, ExpressionEvaluator) {
    (VariableManager::new(), ExpressionEvaluator::new())
}

fn reason(e: ConfigError) -> String {
    match e {
        ConfigError::ExpressionError { reason, .. } => reason,
        other => panic!("unexpected error: {:?}", other),
    }
}

#[test]
fn expression_over_defined_variables() {
    let (mut vars, mut exprs) = fresh();
    define_variable(&mut vars, &mut exprs, "A", "10").unwrap();
    define_variable(&mut vars, &mut exprs, "B", "5").unwrap();
    let text = resolve_value(&vars, &exprs, "{{A + B}}").unwrap();
    assert_eq!(text, "15");
    assert_eq!(parse_int(&text).unwrap(), 15);
}

#[test]
fn escaped_expression_stays_literal() {
    let (vars, exprs) = fresh();
    assert_eq!(resolve_value(&vars, &exprs, r"\{{10 + 5}}").unwrap(), "{{10 + 5}}");
    assert_eq!(resolve_value(&vars, &exprs, r"{\{10 + 5}}").unwrap(), "{{10 + 5}}");
    assert_eq!(resolve_value(&vars, &exprs, r"\{\{10 + 5}}").unwrap(), "{{10 + 5}}");
}

#[test]
fn escaped_backslash_keeps_live_expression() {
    let (vars, exprs) = fresh();
    assert_eq!(resolve_value(&vars, &exprs, r"\\{{2 + 3}}").unwrap(), r"\5");
}

#[test]
fn mixed_literal_and_evaluated() {
    let (mut vars, mut exprs) = fresh();
    define_variable(&mut vars, &mut exprs, "W", "800").unwrap();
    assert_eq!(resolve_value(&vars, &exprs, r"{{W / 2}} \{{W}}").unwrap(), "400 {{W}}");
    assert_eq!(resolve_value(&vars, &exprs, "size $W").unwrap(), "size 800");
}

#[test]
fn non_integer_variable_is_not_an_expression_operand() {
    let (mut vars, mut exprs) = fresh();
    define_variable(&mut vars, &mut exprs, "NAME", "kitty").unwrap();
    assert_eq!(vars.get("NAME"), Some("kitty"));
    match resolve_value(&vars, &exprs, "{{NAME + 1}}") {
        Err(ConfigError::VariableNotFound { name }) => assert_eq!(name, "NAME"),
        other => panic!("unexpected: {:?}", other),
    }
}

#[test]
fn define_variable_expands_earlier_variables() {
    let (mut vars, mut exprs) = fresh();
    define_variable(&mut vars, &mut exprs, "A", "3").unwrap();
    define_variable(&mut vars, &mut exprs, "B", "$A").unwrap();
    assert_eq!(vars.get("B"), Some("3"));
    assert_eq!(exprs.evaluate("B * 2").unwrap(), 6);
}

#[test]
fn circular_variables_fail_with_chain() {
    let (mut vars, exprs) = fresh();
    vars.set("A".to_string(), "$B".to_string());
    vars.set("B".to_string(), "$A".to_string());
    match resolve_value(&vars, &exprs, "$A") {
        Err(ConfigError::CircularDependency { chain }) => {
            assert_eq!(chain, vec!["A".to_string(), "B".to_string(), "A".to_string()]);
        }
        other => panic!("unexpected: {:?}", other),
    }
}

#[test]
fn expression_faults_are_reported() {
    let exprs = ExpressionEvaluator::new();
    assert_eq!(reason(exprs.evaluate("10 / 0").unwrap_err()), "division by zero");
    assert_eq!(reason(exprs.evaluate("9223372036854775807 + 1").unwrap_err()), "integer overflow");
    assert_eq!(reason(exprs.evaluate("(1 + 2").unwrap_err()), "missing closing parenthesis");
    assert_eq!(reason(exprs.evaluate("1 +").unwrap_err()), "unexpected end of expression");
    assert_eq!(reason(exprs.evaluate("1 + *").unwrap_err()), "unexpected token");
    assert_eq!(reason(exprs.evaluate("1 + $").unwrap_err()), "expected identifier");
    assert_eq!(reason(exprs.evaluate("1 # 2").unwrap_err()), "unexpected character");
    assert_eq!(reason(exprs.evaluate("   ").unwrap_err()), "empty expression");
    assert_eq!(reason(exprs.evaluate("99999999999999999999").unwrap_err()), "invalid number");
    match exprs.evaluate("missing * 2") {
        Err(ConfigError::VariableNotFound { name }) => assert_eq!(name, "missing"),
        other => panic!("unexpected: {:?}", other),
    }
}

#[test]
fn expression_edge_values() {
    let exprs = ExpressionEvaluator::new();
    assert_eq!(exprs.evaluate("-5 + 3").unwrap(), -2);
    assert_eq!(exprs.evaluate("2 - -3").unwrap(), 5);
    assert_eq!(exprs.evaluate("-9223372036854775808").unwrap(), i64::MIN);
    assert_eq!(reason(exprs.evaluate("-9223372036854775808 / -1").unwrap_err()), "integer overflow");
    assert_eq!(exprs.evaluate("7 / -2").unwrap(), -3);
    assert_eq!(exprs.evaluate("((2))*(3+4)").unwrap(), 14);
    assert_eq!(exprs.evaluate("8 / 2 / 2").unwrap(), 2);
    assert_eq!(exprs.evaluate("8 - 2 - 2").unwrap(), 4);
}

#[test]
fn substitution_in_text() {
    let exprs = ExpressionEvaluator::new();
    assert_eq!(evaluate_expressions_in_string(&exprs, "a {{1+2}} b {{ 2*3 }}").unwrap(), "a 3 b 6");
    assert_eq!(evaluate_expressions_in_string(&exprs, "no braces { here }").unwrap(), "no braces { here }");
    assert_eq!(evaluate_expressions_in_string(&exprs, "{{0 - 12}}px").unwrap(), "-12px");
    assert_eq!(reason(evaluate_expressions_in_string(&exprs, "x {{}} y").unwrap_err()), "empty expression");
}

#[test]
fn integer_reading() {
    assert_eq!(parse_int("0x1F").unwrap(), 31);
    assert_eq!(parse_int("0xff").unwrap(), 255);
    assert_eq!(parse_int("-42").unwrap(), -42);
    assert_eq!(parse_int("+7").unwrap(), 7);
    assert_eq!(parse_int("-9223372036854775808").unwrap(), i64::MIN);
    assert_eq!(parse_int("9223372036854775807").unwrap(), i64::MAX);
    assert!(matches!(parse_int("9223372036854775808"), Err(ConfigError::InvalidNumber { .. })));
    assert!(matches!(parse_int("abc"), Err(ConfigError::InvalidNumber { .. })));
    assert!(matches!(parse_int("0x"), Err(ConfigError::InvalidNumber { .. })));
    assert!(matches!(parse_int(""), Err(ConfigError::InvalidNumber { .. })));
    assert!(matches!(parse_int("-"), Err(ConfigError::InvalidNumber { .. })));
    assert!(matches!(parse_int("1.5"), Err(ConfigError::InvalidNumber { .. })));
}
