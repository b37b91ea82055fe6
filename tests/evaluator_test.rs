use hyprlang::error::{ConfigError, ParseResult};
use hyprlang::evaluator::{ConfigOptions, Evaluator, SourceLoader, Statement};
use hyprlang::handlers::{FunctionHandler, HandlerContext};
use hyprlang::special_categories::SpecialCategoryDescriptor;

struct NoFiles;

impl SourceLoader for NoFiles {
    fn load(&self, path: &str) -> ParseResult<Vec<Statement>> {
        Err(ConfigError::io(path, "no files here"))
    }
}

struct SelfIncluding;

impl SourceLoader for SelfIncluding {
    fn load(&self, _path: &str) -> ParseResult<Vec<Statement>> {
        Ok(vec![
            Statement::Assignment { key: vec!["inner".to_string()], value: "1".to_string() },
            Statement::Source { path: "loop.conf".to_string() },
        ])
    }
}

fn var(name: &str, value: &str) -> Statement {
    Statement::VariableDef { name: name.to_string(), value: value.to_string() }
}

fn set(key: &str, value: &str) -> Statement {
    Statement::Assignment { key: key.split(':').map(|s| s.to_string()).collect(), value: value.to_string() }
}

fn run(ev: &mut Evaluator, statements: Vec<Statement>) -> ParseResult<()> {
    ev.run(&statements, &NoFiles)
}

#[test]
fn arithmetic_over_variables() {
    let mut ev = Evaluator::new("/cfg", false);
    run(&mut ev, vec![var("A", "10"), var("B", "5"), set("result", "{{A + B}}")]).unwrap();
    assert_eq!(ev.get("result").unwrap(), "15");
}

#[test]
fn escaped_braces_are_not_evaluated() {
    let mut ev = Evaluator::new("/cfg", false);
    run(&mut ev, vec![set("testValue", r"\{{10 + 5}}")]).unwrap();
    assert_eq!(ev.get("testValue").unwrap(), "{{10 + 5}}");
}

#[test]
fn keyed_instances_from_blocks() {
    let mut ev = Evaluator::new("/cfg", false);
    ev.register_special_category(SpecialCategoryDescriptor::keyed("device", "name"));
    run(
        &mut ev,
        vec![
            Statement::SpecialCategoryBlock {
                name: "device".to_string(),
                key: Some("mouse".to_string()),
                statements: vec![set("sensitivity", "1.0")],
            },
            Statement::SpecialCategoryBlock {
                name: "device".to_string(),
                key: Some("keyboard".to_string()),
                statements: vec![set("repeat_rate", "50")],
            },
        ],
    )
    .unwrap();
    let mut keys = ev.list_special_category_keys("device");
    keys.sort();
    assert_eq!(keys, vec!["keyboard".to_string(), "mouse".to_string()]);
    assert_eq!(ev.get_special_category_value("device", "mouse", "sensitivity").unwrap(), "1.0");
    assert!(ev.get_special_category_value("device", "mouse", "repeat_rate").is_none());
    assert_eq!(ev.get_special_category_value("device", "keyboard", "repeat_rate").unwrap(), "50");
    assert!(ev.get_special_category_value("device", "keyboard", "sensitivity").is_none());
    assert_eq!(ev.get("device[mouse]:sensitivity").unwrap(), "1.0");
}

#[test]
fn handler_keyword_assignments_are_calls() {
    let mut ev = Evaluator::new("/cfg", false);
    ev.register_handler("bind", FunctionHandler::new("bind", |_: &HandlerContext| Ok(())));
    run(&mut ev, vec![set("bind", "SUPER, Q, exec, kitty"), set("bind", "SUPER, C, killactive")]).unwrap();
    let calls = ev.get_handler_calls("bind").unwrap();
    assert_eq!(calls, &vec!["SUPER, Q, exec, kitty".to_string(), "SUPER, C, killactive".to_string()]);
    assert!(ev.get("bind").is_none());
}

#[test]
fn properties_inside_instances_are_assignments() {
    let mut ev = Evaluator::new("/cfg", false);
    ev.register_handler("name", FunctionHandler::new("name", |_: &HandlerContext| Ok(())));
    ev.register_special_category(SpecialCategoryDescriptor::anonymous("rule"));
    run(
        &mut ev,
        vec![Statement::SpecialCategoryBlock {
            name: "rule".to_string(),
            key: None,
            statements: vec![set("name", "float")],
        }],
    )
    .unwrap();
    assert_eq!(ev.get_special_category_value("rule", "anonymous_0", "name").unwrap(), "float");
    assert!(ev.get_handler_calls("rule[anonymous_0]:name").is_none());
}

#[test]
fn nested_categories_qualify_keys() {
    let mut ev = Evaluator::new("/cfg", false);
    run(
        &mut ev,
        vec![Statement::CategoryBlock {
            name: "decoration".to_string(),
            statements: vec![Statement::CategoryBlock {
                name: "blur".to_string(),
                statements: vec![set("size", "8")],
            }],
        }],
    )
    .unwrap();
    assert_eq!(ev.get("decoration:blur:size").unwrap(), "8");
}

#[test]
fn false_condition_skips_statements() {
    let mut ev = Evaluator::new("/cfg", false);
    run(
        &mut ev,
        vec![
            Statement::CommentDirective { directive_type: "if".to_string(), args: Some("MISSING".to_string()) },
            set("skipped", "1"),
            Statement::CommentDirective { directive_type: "endif".to_string(), args: None },
            var("PRESENT", "yes"),
            Statement::CommentDirective { directive_type: "if".to_string(), args: Some("PRESENT".to_string()) },
            set("kept", "2"),
            Statement::CommentDirective { directive_type: "endif".to_string(), args: None },
        ],
    )
    .unwrap();
    assert!(ev.get("skipped").is_none());
    assert_eq!(ev.get("kept").unwrap(), "2");
}

#[test]
fn self_including_source_fails() {
    let mut ev = Evaluator::new("/cfg", false);
    let result = ev.run(&vec![Statement::Source { path: "loop.conf".to_string() }], &SelfIncluding);
    assert!(matches!(result, Err(ConfigError::Custom { .. })));
    assert_eq!(ev.get("inner").unwrap(), "1");
}

#[test]
fn unreadable_source_is_reported() {
    let mut ev = Evaluator::new("/cfg", false);
    match ev.run(&vec![Statement::Source { path: "x.conf".to_string() }], &NoFiles) {
        Err(ConfigError::IoError { path, .. }) => assert_eq!(path, "/cfg/x.conf"),
        other => panic!("unexpected: {:?}", other),
    }
}

#[test]
fn collected_errors_are_reported_together() {
    let mut ev = Evaluator::new("/cfg", true);
    let result = run(&mut ev, vec![set("a", "{{1 / 0}}"), set("ok", "1"), set("b", "{{nope}}")]);
    match result {
        Err(ConfigError::Multiple { errors }) => assert_eq!(errors.len(), 2),
        other => panic!("unexpected: {:?}", other),
    }
    assert_eq!(ev.get("ok").unwrap(), "1");
}

#[test]
fn first_error_stops_without_collection() {
    let mut ev = Evaluator::new("/cfg", false);
    assert!(run(&mut ev, vec![set("a", "{{1 / 0}}"), set("ok", "1")]).is_err());
    assert!(ev.get("ok").is_none());
}

#[test]
fn unregistered_special_category() {
    let mut ev = Evaluator::new("/cfg", false);
    let keyed = Statement::SpecialCategoryBlock {
        name: "monitor".to_string(),
        key: Some("DP-1".to_string()),
        statements: vec![],
    };
    assert!(matches!(run(&mut ev, vec![keyed]), Err(ConfigError::CategoryNotFound { .. })));
    let plain = Statement::SpecialCategoryBlock {
        name: "misc".to_string(),
        key: None,
        statements: vec![set("vfr", "1")],
    };
    run(&mut ev, vec![plain]).unwrap();
    assert_eq!(ev.get("misc:vfr").unwrap(), "1");
}

#[test]
fn handler_call_statements() {
    let mut ev = Evaluator::new("/cfg", false);
    run(
        &mut ev,
        vec![
            Statement::HandlerCall { keyword: "exec".to_string(), flags: None, value: "kitty".to_string() },
            var("T", "foot"),
            Statement::HandlerCall { keyword: "exec".to_string(), flags: None, value: "$T".to_string() },
        ],
    )
    .unwrap();
    assert_eq!(ev.get_handler_calls("exec").unwrap(), &vec!["kitty".to_string(), "foot".to_string()]);
    assert_eq!(ev.get_variable("T"), Some("foot"));
}

#[test]
fn options_set_up_the_evaluator() {
    let defaults = ConfigOptions::default();
    assert!(!defaults.throw_all_errors);
    assert!(defaults.allow_dynamic_parsing);
    assert!(defaults.base_dir.is_none());
    let options = ConfigOptions { throw_all_errors: true, allow_dynamic_parsing: false, base_dir: Some("/etc".to_string()) };
    let mut ev = Evaluator::with_options(&options);
    match ev.run(&vec![Statement::Source { path: "x.conf".to_string() }, set("a", "{{1/0}}")], &NoFiles) {
        Err(ConfigError::Multiple { errors }) => {
            assert_eq!(errors.len(), 2);
            assert!(matches!(&errors[0], ConfigError::IoError { path, .. } if path == "/etc/x.conf"));
        }
        other => panic!("unexpected: {:?}", other),
    }
}

#[test]
fn store_mutations() {
    let mut ev = Evaluator::new("/cfg", false);
    ev.register_handler("bind", FunctionHandler::new("bind", |_: &HandlerContext| Ok(())));
    run(&mut ev, vec![set("a", "1"), set("bind", "x"), set("bind", "y")]).unwrap();
    ev.set_value("b", "2".to_string());
    assert_eq!(ev.keys(), vec!["a".to_string(), "b".to_string()]);
    assert_eq!(ev.remove("a").unwrap(), "1");
    assert!(matches!(ev.remove("a"), Err(ConfigError::KeyNotFound { .. })));
    ev.set_variable("N".to_string(), "7".to_string());
    run(&mut ev, vec![set("c", "{{N * 2}}")]).unwrap();
    assert_eq!(ev.get("c").unwrap(), "14");
    assert_eq!(ev.remove_variable("N"), Some("7".to_string()));
    assert_eq!(ev.get_variable("N"), None);
    assert_eq!(ev.remove_handler_call("bind", 0).unwrap(), "x");
    assert!(ev.remove_handler_call("bind", 3).is_err());
    assert_eq!(ev.remove_handler_calls("bind").unwrap(), vec!["y".to_string()]);
    assert!(ev.get_handler_calls("bind").is_none());
}
