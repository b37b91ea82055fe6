use hyprlang::document::{ConfigDocument, DocumentNode, NodeLocation, NodeType};
use hyprlang::error::ConfigError;
use hyprlang::features::{DirectiveProcessor, MultilineProcessor};
use hyprlang::types::{parse_component, Color};
use hyprlang::variables::VariableManager;

fn assignment(key: &str, value: &str, line: usize) -> DocumentNode {
    DocumentNode::Assignment {
        key: key.split(':').map(|s| s.to_string()).collect(),
        value: value.to_string(),
        raw: format!("{} = {}", key, value),
        line,
    }
}

fn sample() -> ConfigDocument {
    ConfigDocument::with_nodes(vec![
        DocumentNode::VariableDef {
            name: "GAPS".to_string(),
            value: "10".to_string(),
            raw: "$GAPS = 10".to_string(),
            line: 1,
        },
        DocumentNode::CategoryBlock {
            name: "general".to_string(),
            nodes: vec![assignment("border_size", "2", 3), DocumentNode::HandlerCall {
                keyword: "bind".to_string(),
                flags: None,
                value: "SUPER, Q".to_string(),
                raw: "bind = SUPER, Q".to_string(),
                line: 4,
            }],
            open_line: 2,
            close_line: 5,
            raw_open: "general {".to_string(),
        },
        DocumentNode::SpecialCategoryBlock {
            name: "device".to_string(),
            key: Some("mouse".to_string()),
            nodes: vec![assignment("sensitivity", "1.0", 7)],
            open_line: 6,
            close_line: 8,
            raw_open: "device[mouse] {".to_string(),
        },
    ])
}

#[test]
fn index_covers_nested_keys() {
    let doc = sample();
    let loc = &doc.get_locations("general:border_size").unwrap()[0];
    assert_eq!(loc.path, vec![1, 0]);
    assert_eq!(loc.node_type, NodeType::Assignment);
    assert_eq!(doc.get_locations("general:bind").unwrap()[0].path, vec![1, 1]);
    assert_eq!(doc.get_locations("device[mouse]:sensitivity").unwrap()[0].path, vec![2, 0]);
    assert_eq!(doc.get_locations("$GAPS").unwrap()[0].path, vec![0]);
    assert!(doc.get_locations("border_size").is_none());
}

#[test]
fn update_in_place_and_insert() {
    let mut doc = sample();
    doc.update_or_insert_value("general:border_size", "4").unwrap();
    doc.update_or_insert_value("decoration:rounding", "8").unwrap();
    doc.update_or_insert_variable("GAPS", "20").unwrap();
    doc.update_or_insert_variable("NEW", "1").unwrap();
    doc.add_handler_call("exec", "kitty").unwrap();
    assert_eq!(
        doc.serialize(),
        "$GAPS = 20\ngeneral {\n  border_size = 4\n  bind = SUPER, Q\n}\ndevice[mouse] {\n  sensitivity = 1.0\n}\ndecoration:rounding = 8\n$NEW = 1\nexec = kitty\n"
    );
    assert_eq!(doc.get_locations("decoration:rounding").unwrap()[0].path, vec![3]);
    assert_eq!(doc.get_locations("$GAPS").unwrap()[0].path, vec![0]);
    assert_eq!(doc.get_locations("$NEW").unwrap()[0].path, vec![4]);
}

#[test]
fn removal_rebuilds_index() {
    let mut doc = sample();
    doc.remove_value("general:border_size").unwrap();
    doc.remove_variable("GAPS").unwrap();
    doc.remove_value("missing").unwrap();
    assert_eq!(
        doc.serialize(),
        "general {\n  bind = SUPER, Q\n}\ndevice[mouse] {\n  sensitivity = 1.0\n}\n"
    );
    assert_eq!(doc.get_locations("general:bind").unwrap()[0].path, vec![0, 0]);
    assert!(doc.get_locations("$GAPS").is_none());
}

#[test]
fn node_access_by_location() {
    let mut doc = sample();
    let bad = NodeLocation { path: vec![0, 1], node_type: NodeType::Assignment };
    assert!(doc.get_node_at(&bad).is_err());
    let empty = NodeLocation { path: vec![], node_type: NodeType::Assignment };
    assert!(doc.get_node_at(&empty).is_err());
    let far = NodeLocation { path: vec![9], node_type: NodeType::Assignment };
    assert!(doc.get_node_at(&far).is_err());
    let good = NodeLocation { path: vec![2, 0], node_type: NodeType::Assignment };
    if let DocumentNode::Assignment { raw, .. } = doc.get_node_at_mut(&good).unwrap() {
        *raw = "sensitivity = 0.5".to_string();
    }
    assert!(doc.serialize().contains("  sensitivity = 0.5\n"));
}

#[test]
fn directive_errors() {
    let mut processor = DirectiveProcessor::new();
    let vars = VariableManager::new();
    assert!(processor.process_directive("endif", None, &vars).is_err());
    assert!(processor.process_directive("if", None, &vars).is_err());
    assert!(processor.process_directive("noerror", None, &vars).is_err());
    assert!(processor.process_directive("unless", Some("X"), &vars).is_err());
    processor.process_directive("if", Some("  MISSING  "), &vars).unwrap();
    assert!(processor.has_unclosed_blocks());
    assert!(!processor.should_execute());
    processor.reset();
    assert!(!processor.has_unclosed_blocks());
    assert!(processor.should_execute());
}

#[test]
fn multiline_edges() {
    assert_eq!(MultilineProcessor::join_lines(&[]), "");
    assert!(!MultilineProcessor::is_continuation(""));
    assert_eq!(MultilineProcessor::remove_backslash("a \\ "), "a ");
}

#[test]
fn environment_values_back_variables() {
    let mut vm = VariableManager::new();
    vm.set_environment("HOME".to_string(), "/home/u".to_string());
    assert_eq!(vm.expand("$HOME/x").unwrap(), "/home/u/x");
    vm.set("HOME".to_string(), "/root".to_string());
    assert_eq!(vm.expand("$HOME/x").unwrap(), "/root/x");
    assert_eq!(vm.expand("cost: $ 5").unwrap(), "cost: $ 5");
    assert_eq!(vm.expand("end $").unwrap(), "end $");
    assert_eq!(vm.remove("HOME"), Some("/root".to_string()));
    assert_eq!(vm.get("HOME"), None);
}

#[test]
fn variable_dependencies() {
    let mut vm = VariableManager::new();
    vm.add_dependency("B".to_string(), "A".to_string());
    vm.add_dependency("C".to_string(), "A".to_string());
    vm.add_dependency("C".to_string(), "A".to_string());
    let mut deps = vm.get_dependents("A");
    deps.sort();
    assert_eq!(deps, vec!["B".to_string(), "C".to_string()]);
    assert!(vm.get_dependents("B").is_empty());
}

#[test]
fn colors_from_hex() {
    let c = Color::from_hex("0xFF000080").unwrap();
    assert_eq!((c.r, c.g, c.b, c.a), (255, 0, 0, 128));
    let d = Color::from_hex("00ff7f").unwrap();
    assert_eq!((d.r, d.g, d.b, d.a), (0, 255, 127, 255));
    assert!(matches!(Color::from_hex("0xGG0000"), Err(ConfigError::InvalidColor { .. })));
    assert!(matches!(Color::from_hex("12345"), Err(ConfigError::InvalidColor { .. })));
    assert_eq!(Color::from_rgba(1, 2, 3, 4).to_argb(), 0x04010203);
    assert_eq!(Color::from_rgba(1, 2, 3, 4).to_rgba(), 0x01020304);
    assert_eq!(Color::from_rgb(9, 8, 7).a, 255);
}

#[test]
fn color_text_forms() {
    let c = Color::from_rgb_text(" 10, +20 ,255").unwrap();
    assert_eq!((c.r, c.g, c.b, c.a), (10, 20, 255, 255));
    assert!(Color::from_rgb_text("1, 2").is_none());
    assert!(Color::from_rgb_text("1, 2, 256").is_none());
    assert!(Color::from_rgb_text("1, -2, 3").is_none());
    assert!(Color::from_rgb_text("1, 2, 3, 4").is_none());
    assert_eq!(parse_component(" 7 "), Some(7));
    assert_eq!(parse_component("0300"), None);
    assert_eq!(parse_component("+"), None);
    let h = Color::from_hex_literal("0x112233").unwrap();
    assert_eq!((h.r, h.g, h.b, h.a), (0x11, 0x22, 0x33, 255));
    assert!(Color::from_hex_literal("112233ff").is_none());
    assert!(Color::from_hex_literal("0x1122").is_none());
}
