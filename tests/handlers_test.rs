use hyprlang::handlers::{FunctionHandler, HandlerContext, HandlerManager};

#[test]
fn test_function_handler() {
    let mut manager = HandlerManager::new();

    let handler = FunctionHandler::new("test", |ctx: &HandlerContext| {
        assert_eq!(ctx.keyword, "test");
        assert_eq!(ctx.value, "value");
        Ok(())
    });

    manager.register_global("test", handler);

    assert!(manager.has_handler(&[], "test"));
    manager.execute(&[], "test", "value", None).unwrap();
}

#[test]
fn test_handler_with_flags() {
    let mut manager = HandlerManager::new();

    let handler = FunctionHandler::with_flags("flagged", |ctx: &HandlerContext| {
        assert_eq!(ctx.flags, Some("abc".to_string()));
        Ok(())
    });

    manager.register_global("flagged", handler);

    manager.execute(&[], "flagged", "value", Some("abc".to_string())).unwrap();
}

#[test]
fn test_category_scoped_handler() {
    let mut manager = HandlerManager::new();

    let handler = FunctionHandler::new("scoped", |ctx: &HandlerContext| {
        assert_eq!(ctx.category_path(), "category");
        Ok(())
    });

    manager.register_category("category", "scoped", handler);

    assert!(manager.has_handler(&["category".to_string()], "scoped"));
    assert!(!manager.has_handler(&[], "scoped"));

    manager.execute(&["category".to_string()], "scoped", "value", None).unwrap();
}

#[test]
fn test_handler_precedence() {
    let mut manager = HandlerManager::new();

    // Global handler
    let global = FunctionHandler::new("keyword", |_: &HandlerContext| {
        panic!("Should not call global handler");
    });
    manager.register_global("keyword", global);

    // Category handler (should take precedence)
    let category = FunctionHandler::new("keyword", |_: &HandlerContext| Ok(()));
    manager.register_category("cat", "keyword", category);

    manager.execute(&["cat".to_string()], "keyword", "value", None).unwrap();
}
