use xy_build::parser::{parse_from_tree, parse_entry, Key, Value};
use xy_build::syntax::SyntaxNode;

fn position(source: &str, at: usize) -> (usize, usize) {
    if at > source.len() || !source.is_char_boundary(at) {
        return (0, 0);
    }
    let before = &source[..at];
    let row = before.matches('\n').count();
    let col = match before.rfind('\n') {
        Some(i) => at - i - 1,
        None => at,
    };
    (row, col)
}

fn node(kind: &str, source: &str, start: usize, end: usize, children: Vec<SyntaxNode>) -> SyntaxNode {
    let (row, col) = position(source, start);
    let has_error = children.iter().any(|c| c.has_error || c.is_error);
    SyntaxNode {
        kind: kind.to_string(),
        start_byte: start,
        end_byte: end,
        start_row: row,
        start_column: col,
        is_error: false,
        is_missing: false,
        is_named: true,
        has_error,
        children,
    }
}

fn span(source: &str, text: &str) -> (usize, usize) {
    let start = source.find(text).expect("text in source");
    (start, start + text.len())
}

fn ident(kind: &str, source: &str, text: &str) -> SyntaxNode {
    let (s, e) = span(source, text);
    node(kind, source, s, e, vec![])
}

const SOURCE: &str = "project_type: Rust\nrun:\n  \"build\": \"cargo build\"\n";

fn sample_tree() -> SyntaxNode {
    let s = SOURCE;
    let pt = node(
        "entry",
        s,
        0,
        18,
        vec![ident("known_ident", s, "project_type"), ident("known_ident", s, "Rust")],
    );
    let (bs, be) = span(s, "\"build\": \"cargo build\"");
    let inner = node(
        "entry",
        s,
        bs,
        be,
        vec![ident("unknown_ident", s, "\"build\""), ident("unknown_ident", s, "\"cargo build\"")],
    );
    let block = node("entry", s, bs, be, vec![inner]);
    let (rs, _) = span(s, "run:");
    let run = node("entry", s, rs, be, vec![ident("known_ident", s, "run"), block]);
    node("source_file", s, 0, s.len(), vec![pt, run])
}

#[test]
fn parses_entries_and_blocks() {
    let tree = Some(sample_tree());
    assert!(tree.as_ref().unwrap().fits_source(SOURCE));
    let config = parse_from_tree(&tree, SOURCE).expect("parses");
    assert_eq!(config.entries.len(), 2);
    assert_eq!(config.entries[0].key, Key::KnownIdent("project_type".to_string()));
    assert_eq!(config.entries[0].value, Value::KnownIdent("Rust".to_string()));
    assert_eq!((config.entries[0].key_row, config.entries[0].key_col), (0, 0));
    assert_eq!(config.entries[1].key, Key::KnownIdent("run".to_string()));
    match &config.entries[1].value {
        Value::Block(children) => {
            assert_eq!(children.len(), 1);
            assert_eq!(children[0].key, Key::UnknownIdent("\"build\"".to_string()));
            assert_eq!(children[0].value, Value::UnknownIdent("\"cargo build\"".to_string()));
            assert_eq!((children[0].key_row, children[0].key_col), (2, 2));
        }
        other => panic!("expected a block, got {:?}", other),
    }
}

#[test]
fn missing_tree_is_reported() {
    let errors = parse_from_tree(&None, "anything").unwrap_err();
    assert_eq!(errors.len(), 1);
    assert_eq!(errors[0].message, "failed to parse source");
    assert_eq!((errors[0].row, errors[0].column), (0, 0));
}

#[test]
fn syntax_errors_are_collected_in_preorder() {
    let s = "a: ?\nb: !\n";
    let mut bad1 = ident("ERROR", s, "?");
    bad1.is_error = true;
    let mut bad2 = ident("ERROR", s, "!");
    bad2.is_error = true;
    let mut missing = node("\":\"", s, 8, 8, vec![]);
    missing.is_missing = true;
    missing.is_named = false;
    let mut named_missing = node("known_ident", s, 9, 9, vec![]);
    named_missing.is_missing = true;
    let e1 = node("entry", s, 0, 4, vec![ident("known_ident", s, "a"), bad1]);
    let e2 = node("entry", s, 5, 9, vec![ident("known_ident", s, "b"), missing, bad2, named_missing]);
    let mut root = node("source_file", s, 0, s.len(), vec![e1, e2]);
    root.has_error = true;
    let errors = parse_from_tree(&Some(root), s).unwrap_err();
    let got: Vec<(String, usize, usize)> =
        errors.iter().map(|e| (e.message.clone(), e.row, e.column)).collect();
    assert_eq!(
        got,
        vec![
            ("unexpected syntax at '?'".to_string(), 0, 3),
            ("unexpected syntax at ''".to_string(), 1, 3),
            ("unexpected syntax at '!'".to_string(), 1, 3),
        ]
    );
}

#[test]
fn entry_without_value_is_an_error() {
    let s = "  lonely\n";
    let e = node("entry", s, 2, 8, vec![ident("known_ident", s, "lonely")]);
    let errors = parse_entry(&e, s).unwrap_err();
    assert_eq!(errors.len(), 1);
    assert_eq!(errors[0].message, "entry must have a key and a value");
    assert_eq!((errors[0].row, errors[0].column), (0, 2));
}

#[test]
fn entry_without_key_reports_origin() {
    let s = "# nothing\n";
    let e = node("entry", s, 0, 9, vec![node("comment", s, 0, 9, vec![])]);
    let errors = parse_entry(&e, s).unwrap_err();
    assert_eq!(errors[0].message, "entry must have a key and a value");
    assert_eq!((errors[0].row, errors[0].column), (0, 0));
}

#[test]
fn key_position_is_the_key_node() {
    let s = "name\n    value\n";
    let e = node(
        "entry",
        s,
        0,
        s.len() - 1,
        vec![ident("known_ident", s, "name"), ident("unknown_ident", s, "value")],
    );
    let entry = parse_entry(&e, s).unwrap();
    assert_eq!(entry.key, Key::KnownIdent("name".to_string()));
    assert_eq!(entry.value, Value::UnknownIdent("value".to_string()));
    assert_eq!((entry.key_row, entry.key_col), (0, 0));
}

#[test]
fn empty_key_is_replaced_by_next_identifier() {
    let s = "\"\" key value";
    let e = node(
        "entry",
        s,
        0,
        s.len(),
        vec![
            node("unknown_ident", s, 0, 0, vec![]),
            ident("known_ident", s, "key"),
            ident("known_ident", s, "value"),
        ],
    );
    let entry = parse_entry(&e, s).unwrap();
    assert_eq!(entry.key, Key::KnownIdent("key".to_string()));
    assert_eq!(entry.value, Value::KnownIdent("value".to_string()));
    assert_eq!((entry.key_row, entry.key_col), (0, 3));
}

#[test]
fn later_value_wins() {
    let s = "k a b";
    let e = node(
        "entry",
        s,
        0,
        5,
        vec![
            ident("known_ident", s, "k"),
            ident("known_ident", s, "a"),
            ident("unknown_ident", s, "b"),
        ],
    );
    let entry = parse_entry(&e, s).unwrap();
    assert_eq!(entry.value, Value::UnknownIdent("b".to_string()));
}

#[test]
fn nested_error_stops_parsing() {
    let s = "outer:\n  inner\n";
    let bad = node("entry", s, 9, 14, vec![ident("known_ident", s, "inner")]);
    let block = node("entry", s, 9, 14, vec![bad]);
    let outer = node("entry", s, 0, 14, vec![ident("known_ident", s, "outer"), block]);
    let root = node("source_file", s, 0, s.len(), vec![outer]);
    let errors = parse_from_tree(&Some(root), s).unwrap_err();
    assert_eq!(errors.len(), 1);
    assert_eq!(errors[0].message, "entry must have a key and a value");
    assert_eq!((errors[0].row, errors[0].column), (1, 2));
}

#[test]
fn unicode_text_is_sliced_by_bytes() {
    let s = "名前: \"値\"";
    let e = node(
        "entry",
        s,
        0,
        s.len(),
        vec![ident("known_ident", s, "名前"), ident("unknown_ident", s, "\"値\"")],
    );
    let entry = parse_entry(&e, s).unwrap();
    assert_eq!(entry.key, Key::KnownIdent("名前".to_string()));
    assert_eq!(entry.value, Value::UnknownIdent("\"値\"".to_string()));
}

#[test]
fn fits_source_rejects_bad_ranges() {
    let s = "名前";
    assert!(node("x", s, 0, 3, vec![]).fits_source(s));
    assert!(!node("x", s, 0, 2, vec![]).fits_source(s));
    assert!(!node("x", s, 0, 7, vec![]).fits_source(s));
    assert!(!node("x", s, 3, 0, vec![]).fits_source(s));
    assert!(!node("x", s, 0, 6, vec![node("y", s, 1, 3, vec![])]).fits_source(s));
}

#[test]
fn key_is_empty_checks_text() {
    assert!(Key::KnownIdent(String::new()).is_empty());
    assert!(Key::UnknownIdent(String::new()).is_empty());
    assert!(!Key::KnownIdent("x".to_string()).is_empty());
    assert!(!Key::UnknownIdent("\"\"".to_string()).is_empty());
}

#[test]
fn clone_keeps_values() {
    let config = parse_from_tree(&Some(sample_tree()), SOURCE).unwrap();
    let copy = config.clone();
    assert_eq!(copy, config);
}

#[test]
fn fits_source_checks_positions() {
    let s = "ab\ncd";
    let good = node("x", s, 3, 5, vec![]);
    assert_eq!((good.start_row, good.start_column), (1, 0));
    assert!(good.fits_source(s));
    let mut wrong_row = node("x", s, 3, 5, vec![]);
    wrong_row.start_row = 7;
    assert!(!wrong_row.fits_source(s));
    let mut wrong_col = node("x", s, 3, 5, vec![]);
    wrong_col.start_column = 3;
    assert!(!wrong_col.fits_source(s));
    let mut bad_child = node("x", s, 4, 5, vec![]);
    bad_child.start_column = 0;
    assert!(!node("root", s, 0, 5, vec![bad_child]).fits_source(s));
}

#[test]
fn parsed_rows_are_source_lines() {
    let tree = sample_tree();
    let config = parse_from_tree(&Some(tree), SOURCE).unwrap();
    let lines = SOURCE.matches('\n').count();
    check_rows(&config.entries, lines);
}

fn check_rows(entries: &[xy_build::parser::Entry], lines: usize) {
    for e in entries {
        assert!(e.key_row <= lines);
        if let Value::Block(cs) = &e.value {
            check_rows(cs, lines);
        }
    }
}
