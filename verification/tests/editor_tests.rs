use xy_build::editor::{
    completion_items, diagnostic, extract_word, find_field, hover_at_position, hover_markdown,
    hover_position_ok, is_break_char, join_texts, text_le_exec, validate_document,
    validate_entries, word_at_column_ok, Severity,
};
use xy_build::parser::{ConfigFile, Entry, Key, ParseError, Value};
use xy_build::schema::{Field, FieldKind, ObjSchema, RestKind};
use xy_build::text::nth_line;
use xy_build::options::{Config, NodePackageManagers, Parseable, ProjectType};

fn known(s: &str) -> Value {
    Value::KnownIdent(s.to_string())
}

fn quoted(s: &str) -> Value {
    Value::UnknownIdent(s.to_string())
}

fn at(key: Key, value: Value, row: usize, col: usize) -> Entry {
    Entry { key, value, key_row: row, key_col: col }
}

fn field(name: &str, value: Value, row: usize) -> Entry {
    at(Key::KnownIdent(name.to_string()), value, row, 0)
}

fn extra(name: &str, value: Value, row: usize) -> Entry {
    at(Key::UnknownIdent(name.to_string()), value, row, 2)
}

fn messages(entries: Vec<Entry>) -> Vec<(usize, usize, String, Severity)> {
    let schema = Config::schema();
    let mut diags = Vec::new();
    validate_entries(&entries, &schema, &mut diags);
    diags.into_iter().map(|d| (d.row, d.column, d.message, d.severity)).collect()
}

#[test]
fn extract_word_finds_word_around_column() {
    let line = "project_type: Rust";
    assert_eq!(extract_word(line, 0), Some(("project_type", 0)));
    assert_eq!(extract_word(line, 5), Some(("project_type", 0)));
    assert_eq!(extract_word(line, 12), Some(("project_type", 0)));
    assert_eq!(extract_word(line, 13), None);
    assert_eq!(extract_word(line, 14), Some(("Rust", 14)));
    assert_eq!(extract_word(line, 18), Some(("Rust", 14)));
    assert_eq!(extract_word("", 0), None);
    assert_eq!(extract_word("  \"deps\";x", 4), Some(("deps", 3)));
}

#[test]
fn extract_word_handles_multibyte_words() {
    let line = "名前: 値";
    assert_eq!(extract_word(line, 3), Some(("名前", 0)));
    assert_eq!(extract_word(line, 8), Some(("値", 8)));
    assert_eq!(extract_word(line, 11), Some(("値", 8)));
    assert!(word_at_column_ok(line, 3));
    assert!(!word_at_column_ok(line, 1));
    assert!(!word_at_column_ok(line, 42));
}

#[test]
fn word_break_characters() {
    for c in [' ', '\t', '\n', '\u{a0}', '\u{3000}', ':', ';', '"'] {
        assert!(is_break_char(c));
        assert_eq!(c.is_whitespace() || c == ':' || c == ';' || c == '"', true);
    }
    for c in ['a', '_', '-', '名', '\u{200b}'] {
        assert!(!is_break_char(c));
        assert_eq!(c.is_whitespace(), false);
    }
}

#[test]
fn word_after_multibyte_break_cannot_be_cut() {
    let line = "a\u{3000}bc";
    assert!(!word_at_column_ok(line, 5));
    assert!(word_at_column_ok(line, 1));
}

#[test]
fn nth_line_follows_str_lines() {
    let text = "one\r\ntwo\n\nfour\r";
    let expected: Vec<&str> = text.lines().collect();
    for (i, l) in expected.iter().enumerate() {
        assert_eq!(nth_line(text, i).as_deref(), Some(*l));
    }
    assert_eq!(nth_line(text, expected.len()), None);
    assert_eq!(nth_line("a\n", 1), None);
    assert_eq!(nth_line("", 0), None);
    assert_eq!(nth_line("\n", 0).as_deref(), Some(""));
}

#[test]
fn find_field_by_name() {
    let schema = Config::schema();
    assert_eq!(find_field(&schema, "run").unwrap().name, "run");
    assert_eq!(
        find_field(&schema, "project_type").unwrap().doc,
        "The project type being built."
    );
    assert!(find_field(&schema, "nope").is_none());
}

#[test]
fn valid_config_has_no_diagnostics() {
    let entries = vec![
        field("project_type", known("Rust"), 0),
        field(
            "node_modules",
            Value::Block(vec![
                field("package_manager", known("Pnpm"), 2),
                extra("react", quoted("18"), 3),
            ]),
            1,
        ),
        field("run", Value::Block(vec![extra("build", quoted("cargo build"), 5)]), 4),
    ];
    assert!(messages(entries).is_empty());
}

#[test]
fn unknown_option_is_a_warning() {
    let got = messages(vec![field("colour", known("red"), 3), extra("quoted", known("x"), 4)]);
    assert_eq!(
        got,
        vec![
            (3, 0, "unknown option 'colour'".to_string(), Severity::Warning),
            (4, 2, "unknown option 'quoted'".to_string(), Severity::Warning),
        ]
    );
}

#[test]
fn invalid_enum_value_lists_variants() {
    let got = messages(vec![field("project_type", known("Go"), 1)]);
    assert_eq!(
        got,
        vec![(1, 0, "invalid value 'Go', expected one of [Node, Rust]".to_string(), Severity::Error)]
    );
    let nested = messages(vec![field(
        "node_modules",
        Value::Block(vec![field("package_manager", known("yarn"), 2)]),
        1,
    )]);
    assert_eq!(
        nested,
        vec![(2, 0, "invalid value 'yarn', expected one of [Pnpm, Npm]".to_string(), Severity::Error)]
    );
}

#[test]
fn shape_mismatches_are_errors() {
    let got = messages(vec![
        field("run", known("x"), 1),
        field("project_type", Value::Block(vec![]), 2),
        field("run", Value::Block(vec![extra("b", Value::Block(vec![]), 4)]), 3),
    ]);
    assert_eq!(
        got,
        vec![
            (1, 0, "expected a block (indented sub-entries)".to_string(), Severity::Error),
            (2, 0, "expected a simple value, got a block".to_string(), Severity::Error),
            (4, 2, "expected a simple value, got a block".to_string(), Severity::Error),
        ]
    );
}

#[test]
fn rest_object_kind_checks_blocks() {
    let schema = ObjSchema {
        fields: vec![],
        rest: Some(Box::new(RestKind::Object(ObjSchema {
            fields: vec![Field { name: "x".to_string(), doc: String::new(), kind: FieldKind::Str }],
            rest: None,
        }))),
    };
    let entries = vec![
        extra("a", quoted("v"), 0),
        extra("b", Value::Block(vec![field("x", quoted("1"), 2), field("y", quoted("2"), 3)]), 1),
    ];
    let mut diags = Vec::new();
    validate_entries(&entries, &schema, &mut diags);
    let got: Vec<(usize, String)> = diags.into_iter().map(|d| (d.row, d.message)).collect();
    assert_eq!(
        got,
        vec![
            (0, "expected a block, got a simple value".to_string()),
            (3, "unknown option 'y'".to_string()),
        ]
    );
}

#[test]
fn document_with_parse_errors_reports_them() {
    let parsed: Result<ConfigFile, Vec<ParseError>> = Err(vec![
        ParseError { message: "first".to_string(), row: 1, column: 2 },
        ParseError { message: "second".to_string(), row: 3, column: 4 },
    ]);
    let diags = validate_document(&parsed, &Config::schema());
    let got: Vec<(usize, usize, String, Severity)> =
        diags.into_iter().map(|d| (d.row, d.column, d.message, d.severity)).collect();
    assert_eq!(
        got,
        vec![
            (1, 2, "first".to_string(), Severity::Error),
            (3, 4, "second".to_string(), Severity::Error),
        ]
    );
    let ok: Result<ConfigFile, Vec<ParseError>> =
        Ok(ConfigFile { entries: vec![field("colour", known("x"), 0)] });
    assert_eq!(validate_document(&ok, &Config::schema()).len(), 1);
}

#[test]
fn diagnostic_keeps_its_parts() {
    let d = diagnostic(4, 7, "m".to_string(), Severity::Warning);
    assert_eq!((d.row, d.column, d.message.as_str(), d.severity), (4, 7, "m", Severity::Warning));
}

#[test]
fn join_texts_matches_slice_join() {
    let items = vec!["a".to_string(), "bb".to_string(), "c".to_string()];
    assert_eq!(join_texts(&items, ", "), items.join(", "));
    assert_eq!(join_texts(&vec![], ", "), "");
    assert_eq!(join_texts(&vec!["x".to_string()], "-"), "x");
}

#[test]
fn hover_shows_field_documentation() {
    let doc = "# comment\nnode_modules:\n  package_manager: Pnpm\n";
    let schema = Config::schema();
    assert!(hover_position_ok(doc, 1, 3));
    assert_eq!(
        hover_at_position(doc, 1, 3, &schema),
        Some((
            "node_modules".to_string(),
            "Configuration for Node.js module resolution.".to_string()
        ))
    );
    assert_eq!(hover_at_position(doc, 2, 5, &schema), None);
    assert_eq!(hover_at_position(doc, 0, 4, &schema), None);
    assert_eq!(hover_at_position(doc, 9, 0, &schema), None);
    assert!(!hover_position_ok(doc, 0, 40));
    assert_eq!(hover_markdown("run", "doc"), "**run**\n\ndoc");
}

#[test]
fn completions_are_sorted_by_label() {
    let items = completion_items(&Config::schema());
    let labels: Vec<String> = items.iter().map(|c| c.label.clone()).collect();
    assert_eq!(labels, vec!["node_modules", "project_type", "run"]);
    assert_eq!(items[2].detail, "Script commands to run during the build process.");
}

#[test]
fn completion_sort_is_stable() {
    let schema = ObjSchema {
        fields: vec![
            Field { name: "b".to_string(), doc: "1".to_string(), kind: FieldKind::Str },
            Field { name: "a".to_string(), doc: "2".to_string(), kind: FieldKind::Str },
            Field { name: "b".to_string(), doc: "3".to_string(), kind: FieldKind::Str },
            Field { name: "B".to_string(), doc: "4".to_string(), kind: FieldKind::Str },
        ],
        rest: None,
    };
    let got: Vec<(String, String)> =
        completion_items(&schema).into_iter().map(|c| (c.label, c.detail)).collect();
    let mut expected: Vec<(String, String)> =
        schema.fields.iter().map(|f| (f.name.clone(), f.doc.clone())).collect();
    expected.sort_by(|a, b| a.0.cmp(&b.0));
    assert_eq!(got, expected);
}

#[test]
fn text_order_matches_string_order() {
    let words = ["", "a", "ab", "b", "B", "é", "z", "名"];
    for x in words {
        for y in words {
            assert_eq!(text_le_exec(x, y), x <= y);
        }
    }
}

#[test]
fn schema_agrees_with_options() {
    let schema = Config::schema();
    let names: Vec<String> = schema.fields.iter().map(|f| f.name.clone()).collect();
    assert_eq!(Some(names), Config::options());
    match &schema.fields[0].kind {
        FieldKind::Enum(vs) => assert_eq!(Some(vs.clone()), ProjectType::options()),
        _ => panic!("project_type is an enum"),
    }
    match &schema.fields[1].kind {
        FieldKind::Object(nm) => match &nm.fields[0].kind {
            FieldKind::Enum(vs) => assert_eq!(Some(vs.clone()), NodePackageManagers::options()),
            _ => panic!("package_manager is an enum"),
        },
        _ => panic!("node_modules is a block"),
    }
}

#[test]
fn accepted_config_draws_no_diagnostics_unless_scripts_are_blocks() {
    let simple = vec![
        field("project_type", known("Node"), 0),
        field("run", Value::Block(vec![extra("start", quoted("node ."), 2)]), 1),
    ];
    assert!(Config::parse(&Value::Block(simple.clone())).is_ok());
    assert!(messages(simple).is_empty());
    let nested = vec![field("run", Value::Block(vec![extra("start", Value::Block(vec![]), 2)]), 1)];
    assert!(Config::parse(&Value::Block(nested.clone())).is_ok());
    assert_eq!(messages(nested).len(), 1);
}

fn std_word(line: &str, col: usize) -> Option<(&str, usize)> {
    let is_break = |c: char| c.is_whitespace() || c == ':' || c == ';' || c == '"';
    let start = line[..col].rfind(is_break).map(|i| i + 1).unwrap_or(0);
    let end = line[col..].find(is_break).map(|i| col + i).unwrap_or(line.len());
    if start >= end {
        return None;
    }
    Some((&line[start..end], start))
}

#[test]
fn extract_word_agrees_with_std_search() {
    let lines = [
        "project_type: Rust",
        "  run:",
        "    \"build\": \"cargo build\"",
        "a;b;c",
        "",
        " ",
        "x",
        "名前: 値 é;ü",
        "tab\there",
    ];
    for line in lines {
        for col in 0..=line.len() {
            if word_at_column_ok(line, col) {
                assert_eq!(extract_word(line, col), std_word(line, col), "{:?} at {}", line, col);
            } else {
                assert!(!line.is_char_boundary(col) || col > line.len());
            }
        }
    }
}

#[test]
fn break_chars_are_std_whitespace_and_separators() {
    for u in 0u32..=0x10FFFF {
        if let Some(c) = char::from_u32(u) {
            let expected = c.is_whitespace() || c == ':' || c == ';' || c == '"';
            assert_eq!(is_break_char(c), expected, "U+{:04X}", u);
        }
    }
}

#[test]
fn nth_line_agrees_with_str_lines_on_small_texts() {
    let alphabet = ['a', '\r', '\n'];
    let mut texts = vec![String::new()];
    for _ in 0..6 {
        let mut next = Vec::new();
        for t in &texts {
            for c in alphabet {
                let mut s = t.clone();
                s.push(c);
                next.push(s);
            }
        }
        texts.extend(next.iter().cloned());
        texts.dedup();
        if texts.len() > 2000 {
            break;
        }
    }
    for t in &texts {
        let lines: Vec<&str> = t.lines().collect();
        for i in 0..=lines.len() + 1 {
            assert_eq!(nth_line(t, i).as_deref(), lines.get(i).copied(), "{:?} line {}", t, i);
        }
    }
}
