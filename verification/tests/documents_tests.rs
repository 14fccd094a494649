use xy_build::documents::Documents;
use xy_build::options::Config;

#[test]
fn open_then_get_reads_back() {
    let mut docs = Documents::new();
    assert_eq!(docs.get("file:///a"), None);
    docs.open("file:///a", "one".to_string());
    docs.open("file:///b", "two".to_string());
    assert_eq!(docs.get("file:///a").map(|s| s.as_str()), Some("one"));
    assert_eq!(docs.get("file:///b").map(|s| s.as_str()), Some("two"));
    docs.open("file:///a", "uno".to_string());
    assert_eq!(docs.get("file:///a").map(|s| s.as_str()), Some("uno"));
    assert_eq!(docs.get("file:///b").map(|s| s.as_str()), Some("two"));
}

#[test]
fn change_keeps_last_full_text() {
    let mut docs = Documents::new();
    docs.open("u", "v1".to_string());
    docs.change("u", vec![]);
    assert_eq!(docs.get("u").map(|s| s.as_str()), Some("v1"));
    docs.change("u", vec!["v2".to_string(), "v3".to_string()]);
    assert_eq!(docs.get("u").map(|s| s.as_str()), Some("v3"));
    docs.change("w", vec!["new".to_string()]);
    assert_eq!(docs.get("w").map(|s| s.as_str()), Some("new"));
}

#[test]
fn close_forgets_only_that_document() {
    let mut docs = Documents::new();
    docs.open("a", "1".to_string());
    docs.open("b", "2".to_string());
    docs.open("c", "3".to_string());
    docs.close("b");
    assert_eq!(docs.get("b"), None);
    assert_eq!(docs.get("a").map(|s| s.as_str()), Some("1"));
    assert_eq!(docs.get("c").map(|s| s.as_str()), Some("3"));
    docs.close("zzz");
    docs.close("a");
    assert_eq!(docs.get("a"), None);
    assert_eq!(docs.get("c").map(|s| s.as_str()), Some("3"));
}

#[test]
fn hover_reads_the_open_document() {
    let mut docs = Documents::new();
    docs.open("u", "run:\n  \"x\": \"y\"\n".to_string());
    let schema = Config::schema();
    assert_eq!(
        docs.hover_at_position("u", 0, 1, &schema),
        Some(("run".to_string(), "Script commands to run during the build process.".to_string()))
    );
    assert_eq!(docs.hover_at_position("u", 1, 3, &schema), None);
    assert_eq!(docs.hover_at_position("other", 0, 1, &schema), None);
}
