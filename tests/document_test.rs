use hyprlang::document::{ConfigDocument, DocumentNode, NodeLocation, NodeType};

#[test]
fn test_empty_document() {
    let doc = ConfigDocument::new();
    assert_eq!(doc.serialize(), "");
}

#[test]
fn test_simple_assignment() {
    let nodes = vec![
        DocumentNode::Assignment {
            key: vec!["border_size".to_string()],
            value: "2".to_string(),
            raw: "border_size = 2".to_string(),
            line: 1,
        },
    ];

    let doc = ConfigDocument::with_nodes(nodes);
    assert_eq!(doc.serialize(), "border_size = 2\n");
}

#[test]
fn test_variable_def() {
    let nodes = vec![
        DocumentNode::VariableDef {
            name: "GAPS".to_string(),
            value: "10".to_string(),
            raw: "$GAPS = 10".to_string(),
            line: 1,
        },
    ];

    let doc = ConfigDocument::with_nodes(nodes);
    assert_eq!(doc.serialize(), "$GAPS = 10\n");
}

#[test]
fn test_comment_preservation() {
    let nodes = vec![
        DocumentNode::Comment {
            text: " This is a comment".to_string(),
            line: 1,
        },
        DocumentNode::Assignment {
            key: vec!["key".to_string()],
            value: "value".to_string(),
            raw: "key = value".to_string(),
            line: 2,
        },
    ];

    let doc = ConfigDocument::with_nodes(nodes);
    assert_eq!(doc.serialize(), "# This is a comment\nkey = value\n");
}

#[test]
fn test_blank_line_preservation() {
    let nodes = vec![
        DocumentNode::Assignment {
            key: vec!["key1".to_string()],
            value: "value1".to_string(),
            raw: "key1 = value1".to_string(),
            line: 1,
        },
        DocumentNode::BlankLine { line: 2 },
        DocumentNode::Assignment {
            key: vec!["key2".to_string()],
            value: "value2".to_string(),
            raw: "key2 = value2".to_string(),
            line: 3,
        },
    ];

    let doc = ConfigDocument::with_nodes(nodes);
    assert_eq!(doc.serialize(), "key1 = value1\n\nkey2 = value2\n");
}

#[test]
fn test_category_block() {
    let nodes = vec![
        DocumentNode::CategoryBlock {
            name: "general".to_string(),
            nodes: vec![
                DocumentNode::Assignment {
                    key: vec!["border_size".to_string()],
                    value: "2".to_string(),
                    raw: "border_size = 2".to_string(),
                    line: 2,
                },
            ],
            open_line: 1,
            close_line: 3,
            raw_open: "general {".to_string(),
        },
    ];

    let doc = ConfigDocument::with_nodes(nodes);
    assert_eq!(doc.serialize(), "general {\n  border_size = 2\n}\n");
}

#[test]
fn document_test_nested_categories() {
    let nodes = vec![
        DocumentNode::CategoryBlock {
            name: "decoration".to_string(),
            nodes: vec![
                DocumentNode::CategoryBlock {
                    name: "shadow".to_string(),
                    nodes: vec![
                        DocumentNode::Assignment {
                            key: vec!["enabled".to_string()],
                            value: "true".to_string(),
                            raw: "enabled = true".to_string(),
                            line: 3,
                        },
                    ],
                    open_line: 2,
                    close_line: 4,
                    raw_open: "shadow {".to_string(),
                },
            ],
            open_line: 1,
            close_line: 5,
            raw_open: "decoration {".to_string(),
        },
    ];

    let doc = ConfigDocument::with_nodes(nodes);
    assert_eq!(doc.serialize(), "decoration {\n  shadow {\n    enabled = true\n  }\n}\n");
}

#[test]
fn test_index_building() {
    let nodes = vec![
        DocumentNode::VariableDef {
            name: "GAPS".to_string(),
            value: "10".to_string(),
            raw: "$GAPS = 10".to_string(),
            line: 1,
        },
        DocumentNode::Assignment {
            key: vec!["border_size".to_string()],
            value: "2".to_string(),
            raw: "border_size = 2".to_string(),
            line: 2,
        },
    ];

    let doc = ConfigDocument::with_nodes(nodes);

    assert!(doc.get_locations("$GAPS").is_some());
    assert!(doc.get_locations("border_size").is_some());
    assert!(doc.get_locations("nonexistent").is_none());
}

#[test]
fn test_get_node_at() {
    let nodes = vec![
        DocumentNode::Assignment {
            key: vec!["key1".to_string()],
            value: "value1".to_string(),
            raw: "key1 = value1".to_string(),
            line: 1,
        },
        DocumentNode::Assignment {
            key: vec!["key2".to_string()],
            value: "value2".to_string(),
            raw: "key2 = value2".to_string(),
            line: 2,
        },
    ];

    let doc = ConfigDocument::with_nodes(nodes);
    let location = NodeLocation {
        path: vec![0],
        node_type: NodeType::Assignment,
    };

    let node = doc.get_node_at(&location).unwrap();
    match node {
        DocumentNode::Assignment { key, .. } => {
            assert_eq!(key, &vec!["key1".to_string()]);
        }
        _ => panic!("Expected Assignment node"),
    }
}
