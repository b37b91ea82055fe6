use hyprlang::document::{ConfigDocument, DocumentNode};
use hyprlang::evaluator::Evaluator;
use hyprlang::multi_file::MultiFileDocument;

fn assignment(key: &str, value: &str) -> DocumentNode {
    DocumentNode::Assignment {
        key: key.split(':').map(|s| s.to_string()).collect(),
        value: value.to_string(),
        raw: format!("{} = {}", key, value),
        line: 1,
    }
}

fn files() -> MultiFileDocument {
    let a = ConfigDocument::with_nodes(vec![
        DocumentNode::Source { path: "b.conf".to_string(), raw: "source = b.conf".to_string(), line: 1 },
        assignment("general:border_size", "2"),
    ]);
    let b = ConfigDocument::with_nodes(vec![
        DocumentNode::VariableDef {
            name: "GAPS".to_string(),
            value: "10".to_string(),
            raw: "$GAPS = 10".to_string(),
            line: 1,
        },
        assignment("general:gaps_in", "5"),
    ]);
    let c = ConfigDocument::with_nodes(vec![DocumentNode::Comment { text: " untouched".to_string(), line: 1 }]);
    let mut m = MultiFileDocument::new("/cfg/a.conf", a);
    m.add_document("/cfg/b.conf", b);
    m.add_document("/cfg/c.conf", c);
    m.register_key("general:border_size", "/cfg/a.conf");
    m.register_key("general:gaps_in", "/cfg/b.conf");
    m.register_key("$GAPS", "/cfg/b.conf");
    m
}

#[test]
fn edit_marks_only_owner() {
    let mut m = files();
    let a_before = m.serialize_file("/cfg/a.conf").unwrap();
    let c_before = m.serialize_file("/cfg/c.conf").unwrap();
    assert_eq!(m.update_value("general:gaps_in", "8").unwrap(), "/cfg/b.conf");
    assert_eq!(m.get_dirty_files(), vec!["/cfg/b.conf".to_string()]);
    let saved = m.save_all();
    assert_eq!(saved.len(), 1);
    assert_eq!(saved[0].0, "/cfg/b.conf");
    assert_eq!(saved[0].1, "$GAPS = 10\ngeneral:gaps_in = 8\n");
    assert!(m.get_dirty_files().is_empty());
    assert_eq!(m.serialize_file("/cfg/a.conf").unwrap(), a_before);
    assert_eq!(m.serialize_file("/cfg/c.conf").unwrap(), c_before);
    assert!(m.save_all().is_empty());
}

#[test]
fn variable_edit_goes_to_defining_file() {
    let mut m = files();
    assert_eq!(m.update_variable("GAPS", "20").unwrap(), "/cfg/b.conf");
    assert!(m.serialize_file("/cfg/b.conf").unwrap().starts_with("$GAPS = 20\n"));
    assert_eq!(m.get_dirty_files(), vec!["/cfg/b.conf".to_string()]);
}

#[test]
fn new_key_goes_to_primary() {
    let mut m = files();
    assert_eq!(m.update_value("decoration:rounding", "4").unwrap(), "/cfg/a.conf");
    assert_eq!(m.get_key_source("decoration:rounding"), Some(&"/cfg/a.conf".to_string()));
    assert!(m.serialize_file("/cfg/a.conf").unwrap().ends_with("decoration:rounding = 4\n"));
    assert_eq!(m.get_all_paths().len(), 3);
    assert!(m.serialize_file("/cfg/none.conf").is_err());
}

#[test]
fn evaluator_edits_follow_owning_files() {
    let mut m = files();
    let mut ev = Evaluator::new("/cfg", false);
    ev.set_value_in_files(&mut m, "general:gaps_in", "9").unwrap();
    assert_eq!(ev.get("general:gaps_in").unwrap(), "9");
    ev.add_handler_call_in_files(&mut m, "exec", "kitty").unwrap();
    assert_eq!(ev.get_handler_calls("exec").unwrap(), &vec!["kitty".to_string()]);
    ev.set_variable_in_files(&mut m, "GAPS", "12").unwrap();
    assert_eq!(ev.get_variable("GAPS"), Some("12"));
    let mut dirty = m.get_dirty_files();
    dirty.sort();
    assert_eq!(dirty, vec!["/cfg/a.conf".to_string(), "/cfg/b.conf".to_string()]);
    assert!(m.serialize_file("/cfg/b.conf").unwrap().contains("general:gaps_in = 9\n"));
    assert!(m.serialize_file("/cfg/a.conf").unwrap().ends_with("exec = kitty\n"));
    assert_eq!(ev.remove_in_files(&mut m, "general:gaps_in").unwrap(), "9");
    assert!(!m.serialize_file("/cfg/b.conf").unwrap().contains("gaps_in"));
    assert!(ev.remove_in_files(&mut m, "general:gaps_in").is_err());
    m.save_all();
    assert!(m.serialize_file("/cfg/c.conf").unwrap() == "# untouched\n");
}
