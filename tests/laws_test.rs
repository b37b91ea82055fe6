use hyprlang::error::ConfigError;
use hyprlang::escaping::{process_escapes, restore_escaped_braces};
use hyprlang::features::SourceResolver;
use hyprlang::handlers::{FunctionHandler, HandlerContext, HandlerManager};
use hyprlang::variables::VariableManager;

#[test]
fn restore_after_escape_gives_literal_braces() {
    let input = r"x \{{a {{b}} c}} {\{d}} \{\{e}} \\{{f}}";
    let restored = restore_escaped_braces(&process_escapes(input));
    assert_eq!(restored, r"x {{a {{b}} c}} {{d}} {{e}} \{{f}}");
}

#[test]
fn text_without_backslash_is_untouched() {
    let input = "a {{1 + 2}} b {{ {{3}} }} c } {";
    assert_eq!(process_escapes(input), input);
}

#[test]
fn escaped_block_placeholders() {
    assert_eq!(process_escapes(r"\{{x}}"), "\x00ESC_OPEN\x00x\x00ESC_CLOSE\x00");
    assert_eq!(restore_escaped_braces("\x00ESC_CLOSE\x00\x00ESC_OPEN\x00"), "}}{{");
    assert_eq!(process_escapes(r"\{{unclosed"), "\x00ESC_OPEN\x00unclosed");
}

#[test]
fn mutual_reference_is_circular() {
    let mut vm = VariableManager::new();
    vm.set("A".to_string(), "$B".to_string());
    vm.set("B".to_string(), "$A".to_string());
    match vm.expand("$A") {
        Err(ConfigError::CircularDependency { chain }) => {
            assert_eq!(chain, vec!["A".to_string(), "B".to_string(), "A".to_string()]);
        }
        other => panic!("unexpected: {:?}", other),
    }
    vm.set("C".to_string(), "$C".to_string());
    assert!(vm.expand("x $C").is_err());
}

#[test]
fn self_include_is_refused() {
    let mut resolver = SourceResolver::new("/etc/app");
    resolver.begin_load("/etc/app/main.conf").unwrap();
    resolver.begin_load("/etc/app/extra.conf").unwrap();
    assert!(resolver.begin_load("/etc/app/main.conf").is_err());
    assert!(resolver.begin_load("/etc/app/extra.conf").is_err());
    assert_eq!(resolver.depth(), 2);
    resolver.end_load();
    resolver.end_load();
    assert_eq!(resolver.depth(), 0);
    assert!(resolver.begin_load("/etc/app/main.conf").is_ok());
}

#[test]
fn include_depth_is_bounded() {
    let mut resolver = SourceResolver::new("/etc").with_max_depth(2);
    resolver.begin_load("a").unwrap();
    resolver.begin_load("b").unwrap();
    assert!(resolver.begin_load("c").is_err());
    resolver.reset();
    assert_eq!(resolver.depth(), 0);
}

#[test]
fn source_paths_resolve_against_base() {
    let resolver = SourceResolver::new("/etc/app");
    assert_eq!(resolver.resolve_path("extra.conf"), "/etc/app/extra.conf");
    assert_eq!(resolver.resolve_path("/abs/x.conf"), "/abs/x.conf");
    let trailing = SourceResolver::new("/etc/app/");
    assert_eq!(trailing.resolve_path("x.conf"), "/etc/app/x.conf");
}

fn failing(message: &'static str) -> FunctionHandler<impl Fn(&HandlerContext) -> Result<(), ConfigError>> {
    FunctionHandler::new(message, move |_: &HandlerContext| Err(ConfigError::custom(message)))
}

fn outcome(manager: &HandlerManager, path: &[&str]) -> String {
    let path: Vec<String> = path.iter().map(|s| s.to_string()).collect();
    match manager.execute(&path, "k", "v", None) {
        Err(ConfigError::Custom { message }) => message,
        other => panic!("unexpected: {:?}", other),
    }
}

#[test]
fn most_specific_category_handler_wins() {
    let mut manager = HandlerManager::new();
    manager.register_category("a", "k", failing("a"));
    manager.register_category("a:b", "k", failing("ab"));
    manager.register_global("k", failing("global"));
    assert_eq!(outcome(&manager, &["a", "b"]), "ab");
    assert_eq!(outcome(&manager, &["a", "b", "c"]), "ab");
    assert_eq!(outcome(&manager, &["a"]), "a");
    assert_eq!(outcome(&manager, &["z"]), "global");
    assert_eq!(outcome(&manager, &[]), "global");
}

#[test]
fn global_registered_later_does_not_shadow_category() {
    let mut manager = HandlerManager::new();
    manager.register_category("cat", "k", failing("category"));
    manager.register_global("k", failing("global"));
    assert_eq!(outcome(&manager, &["cat"]), "category");
    manager.register_global("k", failing("global again"));
    assert_eq!(outcome(&manager, &["cat"]), "category");
}

#[test]
fn empty_prefix_category_handler_precedes_global() {
    let mut manager = HandlerManager::new();
    manager.register_global("k", failing("global"));
    manager.register_category("", "k", failing("root category"));
    assert_eq!(outcome(&manager, &["x"]), "root category");
}

#[test]
fn handler_errors() {
    let mut manager = HandlerManager::new();
    match manager.execute(&[], "k", "v", None) {
        Err(ConfigError::HandlerError { handler, message }) => {
            assert_eq!(handler, "k");
            assert_eq!(message, "handler not found");
        }
        other => panic!("unexpected: {:?}", other),
    }
    manager.register_global("k", FunctionHandler::new("k", |_: &HandlerContext| Ok(())));
    match manager.execute(&[], "k", "v", Some("f".to_string())) {
        Err(ConfigError::HandlerError { message, .. }) => assert_eq!(message, "handler does not accept flags"),
        other => panic!("unexpected: {:?}", other),
    }
    assert_eq!(manager.global_keywords(), vec!["k".to_string()]);
    assert!(manager.category_keywords("none").is_empty());
    manager.clear();
    assert!(!manager.has_handler(&[], "k"));
}
