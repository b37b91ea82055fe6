use hyprlang::calls::{is_handler_call, process_handler_call, HandlerCalls};
use hyprlang::error::ConfigError;
use hyprlang::handlers::{FunctionHandler, HandlerContext, HandlerManager};

fn bind_manager() -> HandlerManager {
    let mut handlers = HandlerManager::new();
    handlers.register_global("bind", FunctionHandler::new("bind", |_: &HandlerContext| Ok(())));
    handlers
}

#[test]
fn handler_calls_accumulate_in_order() {
    let handlers = bind_manager();
    let mut calls = HandlerCalls::new();
    process_handler_call(&handlers, &mut calls, &[], "bind", "SUPER, Q, exec, kitty", None).unwrap();
    process_handler_call(&handlers, &mut calls, &[], "bind", "SUPER, C, killactive", None).unwrap();
    let recorded = calls.get_handler_calls("bind").unwrap();
    assert_eq!(recorded.len(), 2);
    assert_eq!(recorded[0], "SUPER, Q, exec, kitty");
    assert_eq!(recorded[1], "SUPER, C, killactive");
}

#[test]
fn unregistered_calls_recorded_only_at_top_level() {
    let handlers = HandlerManager::new();
    let mut calls = HandlerCalls::new();
    process_handler_call(&handlers, &mut calls, &[], "exec", "kitty", None).unwrap();
    process_handler_call(&handlers, &mut calls, &["general".to_string()], "exec", "foot", None).unwrap();
    assert_eq!(calls.get_handler_calls("exec").unwrap().len(), 1);
    assert!(calls.get_handler_calls("general:exec").is_none());
}

#[test]
fn scoped_calls_use_qualified_key() {
    let mut handlers = HandlerManager::new();
    handlers.register_category("input", "device", FunctionHandler::new("device", |_: &HandlerContext| Ok(())));
    let mut calls = HandlerCalls::new();
    process_handler_call(&handlers, &mut calls, &["input".to_string()], "device", "mouse", None).unwrap();
    assert_eq!(calls.get_handler_calls("input:device").unwrap(), &vec!["mouse".to_string()]);
    assert_eq!(calls.handler_names(), vec!["input:device".to_string()]);
}

#[test]
fn handler_failure_is_returned_after_recording() {
    let mut handlers = HandlerManager::new();
    handlers.register_global(
        "bad",
        FunctionHandler::new("bad", |_: &HandlerContext| Err(ConfigError::custom("refused"))),
    );
    let mut calls = HandlerCalls::new();
    assert!(process_handler_call(&handlers, &mut calls, &[], "bad", "x", None).is_err());
    assert_eq!(calls.get_handler_calls("bad").unwrap().len(), 1);
}

#[test]
fn removing_handler_calls() {
    let handlers = bind_manager();
    let mut calls = HandlerCalls::new();
    process_handler_call(&handlers, &mut calls, &[], "bind", "a", None).unwrap();
    process_handler_call(&handlers, &mut calls, &[], "bind", "b", None).unwrap();
    process_handler_call(&handlers, &mut calls, &[], "bind", "c", None).unwrap();
    assert_eq!(calls.remove_handler_call("bind", 1).unwrap(), "b");
    assert_eq!(calls.get_handler_calls("bind").unwrap(), &vec!["a".to_string(), "c".to_string()]);
    assert!(matches!(calls.remove_handler_call("bind", 5), Err(ConfigError::Custom { .. })));
    assert!(matches!(calls.remove_handler_call("nope", 0), Err(ConfigError::HandlerError { .. })));
    assert_eq!(calls.remove_handler_calls("bind").unwrap().len(), 2);
    assert!(calls.get_handler_calls("bind").is_none());
}

#[test]
fn assignment_or_handler_call() {
    let handlers = bind_manager();
    assert!(is_handler_call(&handlers, &[], &["bind".to_string()]));
    assert!(!is_handler_call(&handlers, &[], &["gaps".to_string()]));
    assert!(!is_handler_call(&handlers, &[], &["bind".to_string(), "x".to_string()]));
    assert!(!is_handler_call(&handlers, &["device[mouse]".to_string()], &["bind".to_string()]));
    assert!(is_handler_call(&handlers, &["general".to_string()], &["bind".to_string()]));
}
