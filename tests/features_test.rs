use hyprlang::features::{DirectiveProcessor, MultilineProcessor};
use hyprlang::variables::VariableManager;

#[test]
fn test_directive_if() {
    let mut processor = DirectiveProcessor::new();
    let mut variables = VariableManager::new();

    variables.set("TEST".to_string(), "value".to_string());

    // Variable exists
    processor.process_directive("if", Some("TEST"), &variables).unwrap();
    assert!(processor.should_execute());

    processor.process_directive("endif", None, &variables).unwrap();

    // Variable doesn't exist
    processor.process_directive("if", Some("MISSING"), &variables).unwrap();
    assert!(!processor.should_execute());

    processor.process_directive("endif", None, &variables).unwrap();
}

#[test]
fn test_directive_noerror() {
    let mut processor = DirectiveProcessor::new();
    let variables = VariableManager::new();

    assert!(!processor.should_suppress_errors());

    processor.process_directive("noerror", Some("true"), &variables).unwrap();
    assert!(processor.should_suppress_errors());

    processor.process_directive("noerror", Some("false"), &variables).unwrap();
    assert!(!processor.should_suppress_errors());
}

#[test]
fn test_multiline_join() {
    let lines = vec![
        "line1".to_string(),
        "line2".to_string(),
        "line3".to_string(),
    ];

    assert_eq!(MultilineProcessor::join_lines(&lines), "line1 line2 line3");
}

#[test]
fn test_multiline_continuation() {
    assert!(MultilineProcessor::is_continuation("line \\"));
    assert!(MultilineProcessor::is_continuation("line\\  "));
    assert!(!MultilineProcessor::is_continuation("line"));
}

#[test]
fn test_remove_backslash() {
    assert_eq!(MultilineProcessor::remove_backslash("line\\"), "line");
    assert_eq!(MultilineProcessor::remove_backslash("line\\  "), "line");
    assert_eq!(MultilineProcessor::remove_backslash("line"), "line");
}
