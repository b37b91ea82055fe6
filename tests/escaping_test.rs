use hyprlang::escaping::{process_escapes, restore_escaped_braces};

const ESCAPED_OPEN: &str = "\x00ESC_OPEN\x00";
const ESCAPED_CLOSE: &str = "\x00ESC_CLOSE\x00";

#[test]
fn test_backslash_escape() {
    let escaped = process_escapes(r"\{{expr}}");
    let restored = restore_escaped_braces(&escaped);
    assert_eq!(restored, "{{expr}}");
}

#[test]
fn test_brace_escape() {
    let escaped = process_escapes(r"{\{expr}}");
    let restored = restore_escaped_braces(&escaped);
    assert_eq!(restored, "{{expr}}");
}

#[test]
fn test_double_brace_escape() {
    let escaped = process_escapes(r"\{\{3 + 8}}");
    let restored = restore_escaped_braces(&escaped);
    assert_eq!(restored, "{{3 + 8}}");
}

#[test]
fn test_escaped_backslash() {
    // \\{{ should keep one backslash, expression not escaped
    let escaped = process_escapes(r"\\{{expr}}");
    assert_eq!(escaped, r"\{{expr}}");
    // No placeholders, so restore should not change it
    let restored = restore_escaped_braces(&escaped);
    assert_eq!(restored, r"\{{expr}}");
}

#[test]
fn test_mixed_escapes() {
    let input = r"{{8 - 10}} \{{ \{{50 + 50}} / \{{10 * 5}} }}";
    let escaped = process_escapes(input);
    // First {{8 - 10}} stays normal, rest get placeholders
    assert!(escaped.contains("{{8 - 10}}"));
    assert!(escaped.contains(ESCAPED_OPEN));

    let restored = restore_escaped_braces(&escaped);
    // After restore, escaped parts become literal braces
    assert!(restored.contains("{{"));
}

#[test]
fn test_no_escape() {
    let input = "{{10 + 5}}";
    let escaped = process_escapes(input);
    assert_eq!(escaped, input);
    let restored = restore_escaped_braces(&escaped);
    assert_eq!(restored, input);
}

#[test]
fn test_partial_escape() {
    let input = r"\{single";
    let escaped = process_escapes(input);
    assert_eq!(escaped, input);
}

#[test]
fn test_placeholders_not_in_normal_text() {
    let input = "normal {{expr}} text";
    let escaped = process_escapes(input);
    assert!(!escaped.contains(ESCAPED_OPEN));
    assert!(!escaped.contains(ESCAPED_CLOSE));
}
