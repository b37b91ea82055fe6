use hyprlang::error::ConfigError;

#[test]
fn messages_describe_errors() {
    assert_eq!(ConfigError::parse(3, 7, "bad").to_message(), "Parse error at line 3, column 7: bad");
    assert_eq!(
        ConfigError::type_error("gaps", "Int", "String").to_message(),
        "Type error for 'gaps': expected Int, found String"
    );
    assert_eq!(ConfigError::variable_not_found("X").to_message(), "Variable 'X' not found");
    assert_eq!(
        ConfigError::circular_dependency(vec!["A".to_string(), "B".to_string(), "A".to_string()]).to_message(),
        "Circular dependency detected: A -> B -> A"
    );
    assert_eq!(
        ConfigError::expression("1/0", "division by zero").to_message(),
        "Expression error in '1/0': division by zero"
    );
    assert_eq!(ConfigError::invalid_color("zz", "bad").to_message(), "Invalid color 'zz': bad");
    assert_eq!(ConfigError::invalid_number("q", "bad").to_message(), "Invalid number 'q': bad");
    assert_eq!(ConfigError::key_not_found("k").to_message(), "Configuration key 'k' not found");
    assert_eq!(
        ConfigError::category_not_found("device", Some("x".to_string())).to_message(),
        "Special category 'device[x]' not found"
    );
    assert_eq!(ConfigError::category_not_found("device", None).to_message(), "Special category 'device' not found");
    assert_eq!(ConfigError::handler("bind", "oops").to_message(), "Handler 'bind' error: oops");
    assert_eq!(ConfigError::io("/x", "denied").to_message(), "I/O error for '/x': denied");
    assert_eq!(ConfigError::custom("plain").to_message(), "plain");
}

#[test]
fn multiple_errors_are_numbered() {
    let e = ConfigError::multiple(vec![ConfigError::custom("a"), ConfigError::key_not_found("k")]);
    assert_eq!(e.to_message(), "Multiple errors occurred:\n  1. a\n  2. Configuration key 'k' not found\n");
    assert_eq!(ConfigError::multiple(vec![]).to_message(), "Multiple errors occurred:\n");
}
