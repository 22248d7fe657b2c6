use cdd::format::line_to_append;
use cdd::location::config_file_path;
use cdd::node::Node;
use cdd::store::{validate_name, AliasStore, StoreError};

fn store_of(pairs: &[(&str, &str)]) -> AliasStore {
    let mut s = AliasStore::new();
    for (n, p) in pairs {
        assert_eq!(s.save(n, p), Ok(true));
    }
    s
}

#[test]
fn save_then_load_round_trip() {
    let mut s = AliasStore::new();
    assert_eq!(s.save("docs", "/home/u/documents"), Ok(true));
    assert_eq!(s.load("docs"), Ok("/home/u/documents".to_string()));
    assert_eq!(s.len(), 1);
}

#[test]
fn first_write_wins() {
    let mut s = AliasStore::new();
    assert_eq!(s.save("a", "/x"), Ok(true));
    assert_eq!(s.save("a", "/y"), Ok(false));
    assert_eq!(s.load("a"), Ok("/x".to_string()));
    assert_eq!(s.len(), 1);
}

#[test]
fn save_matches_names_exactly() {
    let mut s = store_of(&[("abc", "/long")]);
    assert_eq!(s.save("ab", "/short"), Ok(true));
    assert_eq!(s.load("ab"), Ok("/short".to_string()));
    assert_eq!(s.load("abc"), Ok("/long".to_string()));
}

#[test]
fn remove_then_load_not_found() {
    let mut s = store_of(&[("a", "/x")]);
    s.remove("a");
    assert_eq!(s.load("a"), Err(StoreError::NotFound));
    assert_eq!(s.len(), 0);
}

#[test]
fn remove_absent_keeps_records() {
    let mut s = store_of(&[("a", "/x"), ("b", "/y")]);
    s.remove("zzz");
    assert_eq!(s.list_all(), "a = /x;b = /y;");
    assert_eq!(s.load("a"), Ok("/x".to_string()));
    assert_eq!(s.load("b"), Ok("/y".to_string()));
}

#[test]
fn remove_keeps_others_in_order() {
    let mut s = store_of(&[("a", "/x"), ("b", "/y"), ("c", "/z")]);
    s.remove("b");
    assert_eq!(s.list_all(), "a = /x;c = /z;");
}

#[test]
fn composite_resolution() {
    let s = store_of(&[("proj", "/home/u/proj")]);
    assert_eq!(s.resolve("proj/sub"), Ok("/home/u/proj/sub".to_string()));
    assert_eq!(s.resolve("proj/sub/deeper"), Ok("/home/u/proj/sub/deeper".to_string()));
    assert_eq!(s.resolve("proj"), Ok("/home/u/proj".to_string()));
    assert_eq!(s.resolve("proj/"), Ok("/home/u/proj/".to_string()));
}

#[test]
fn resolve_unknown_alias() {
    let s = store_of(&[("proj", "/home/u/proj")]);
    assert_eq!(s.resolve("other/sub"), Err(StoreError::NotFound));
    assert_eq!(s.resolve("other"), Err(StoreError::NotFound));
}

#[test]
fn reverse_lookup() {
    let s = store_of(&[("a", "/home/u")]);
    assert_eq!(s.find_name_by_path("/home/u"), Ok("a".to_string()));
    assert_eq!(s.find_name_by_path("/other"), Err(StoreError::NotFound));
}

#[test]
fn reverse_lookup_takes_first() {
    let s = store_of(&[("a", "/x"), ("b", "/x")]);
    assert_eq!(s.find_name_by_path("/x"), Ok("a".to_string()));
}

#[test]
fn listing_in_insertion_order() {
    let s = store_of(&[("a", "/x"), ("b", "/y")]);
    assert_eq!(s.list_all(), "a = /x;b = /y;");
}

#[test]
fn listing_of_empty_store() {
    assert_eq!(AliasStore::new().list_all(), "");
}

#[test]
fn name_validation() {
    let mut s = store_of(&[("a", "/x")]);
    assert_eq!(s.save("has/slash", "/y"), Err(StoreError::InvalidName));
    assert_eq!(s.save("has=eq", "/y"), Err(StoreError::InvalidName));
    assert_eq!(s.save("", "/y"), Err(StoreError::InvalidName));
    assert_eq!(s.len(), 1);
    assert_eq!(s.list_all(), "a = /x;");
    assert_eq!(validate_name("ok"), Ok(()));
    assert_eq!(validate_name("a/b"), Err(StoreError::InvalidName));
}

#[test]
fn contains_name() {
    let s = store_of(&[("a", "/x")]);
    assert!(s.contains("a"));
    assert!(!s.contains("b"));
}

#[test]
fn parse_skips_blank_lines_and_keeps_others() {
    let s = AliasStore::parse("a=/x\n\nnot a record\nb=/y=z\n");
    assert_eq!(s.len(), 3);
    assert_eq!(s.load("a"), Ok("/x".to_string()));
    assert_eq!(s.load("b"), Ok("/y=z".to_string()));
    assert_eq!(s.load("not a record"), Err(StoreError::NotFound));
    assert_eq!(s.list_all(), "a = /x;not a record;b = /y=z;");
}

#[test]
fn rewrite_keeps_lines_without_eq() {
    let s = AliasStore::parse("foo\n");
    assert_eq!(s.to_text(), "foo\n");
    assert_eq!(s.list_all(), "foo;");
}

#[test]
fn rewrite_drops_only_blank_lines() {
    let s = AliasStore::parse("\na=/x\n\nfoo\n\nb=/y");
    assert_eq!(s.to_text(), "a=/x\nfoo\nb=/y\n");
}

#[test]
fn remove_keeps_lines_without_eq() {
    let mut s = AliasStore::parse("foo\nb=/y\n");
    s.remove("zzz");
    assert_eq!(s.to_text(), "foo\nb=/y\n");
    s.remove("b");
    assert_eq!(s.to_text(), "foo\n");
    s.remove("foo");
    assert_eq!(s.to_text(), "foo\n");
}

#[test]
fn save_ignores_lines_without_eq() {
    let mut s = AliasStore::parse("foo\n");
    assert!(!s.contains("foo"));
    assert_eq!(s.save("foo", "/f"), Ok(true));
    assert_eq!(s.load("foo"), Ok("/f".to_string()));
    assert_eq!(s.to_text(), "foo\nfoo=/f\n");
}

#[test]
fn parse_last_line_without_break() {
    let s = AliasStore::parse("a=/x\nb=/y");
    assert_eq!(s.len(), 2);
    assert_eq!(s.load("b"), Ok("/y".to_string()));
}

#[test]
fn parse_empty_text() {
    assert_eq!(AliasStore::parse("").len(), 0);
    assert_eq!(AliasStore::parse("\n\n").len(), 0);
}

#[test]
fn text_round_trip() {
    let s = store_of(&[("a", "/x"), ("b", "/y")]);
    let t = s.to_text();
    assert_eq!(t, "a=/x\nb=/y\n");
    let back = AliasStore::parse(&t);
    assert_eq!(back.list_all(), "a = /x;b = /y;");
}

#[test]
fn appended_line_is_loaded() {
    let mut text = String::from("a=/x\n");
    text.push_str(&line_to_append(&text, "b", "/y"));
    assert_eq!(text, "a=/x\nb=/y\n");
    let s = AliasStore::parse(&text);
    assert_eq!(s.load("b"), Ok("/y".to_string()));
}

#[test]
fn appended_line_after_unfinished_line() {
    let mut text = String::from("a=/x");
    text.push_str(&line_to_append(&text, "b", "/y"));
    assert_eq!(text, "a=/x\nb=/y\n");
    let s = AliasStore::parse(&text);
    assert_eq!(s.list_all(), "a = /x;b = /y;");
}

#[test]
fn appended_line_on_empty_file() {
    assert_eq!(line_to_append("", "a", "/x"), "a=/x\n");
}

#[test]
fn record_access() {
    let s = store_of(&[("a", "/x")]);
    let r = s.record(0);
    assert_eq!(r.name, "a");
    assert_eq!(r.path, Some("/x".to_string()));
}

#[test]
fn config_path_prefers_config_home() {
    assert_eq!(
        config_file_path(Some("/cfg"), Some("/home/u")),
        Some("/cfg/cdd/config".to_string())
    );
    assert_eq!(
        config_file_path(None, Some("/home/u")),
        Some("/home/u/.config/cdd/config".to_string())
    );
    assert_eq!(config_file_path(None, None), None);
}

fn values(n: &Node) -> Vec<i32> {
    let mut out = vec![n.value];
    let mut cur = &n.next;
    while let Some(b) = cur {
        out.push(b.value);
        cur = &b.next;
    }
    out
}

#[test]
fn node_insert_appends() {
    let mut head = Node { value: 0, next: None };
    head.insert(Node { value: 1, next: None });
    head.insert(Node { value: 2, next: None });
    assert_eq!(values(&head), vec![0, 1, 2]);
}

#[test]
fn node_delete_next() {
    let mut head = Node { value: 0, next: None };
    head.insert(Node { value: 1, next: None });
    head.insert(Node { value: 2, next: None });
    head.delete_next();
    assert_eq!(values(&head), vec![0, 2]);
    head.delete_next();
    assert_eq!(values(&head), vec![0, 2]);
}
