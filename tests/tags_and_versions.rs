use glibc_needs::table::{GlibcRequirement, RequirementTable};
use glibc_needs::text::{parse_symbol_tag, str_less};

fn req(version: &str, function: &str, file: &str) -> GlibcRequirement {
    GlibcRequirement {
        version: version.to_string(),
        function: function.to_string(),
        file: file.to_string(),
    }
}

fn sorted(mut v: Vec<String>) -> Vec<String> {
    v.sort();
    v
}

#[test]
fn tag_with_marker_splits_into_function_and_version() {
    assert_eq!(
        parse_symbol_tag("memcpy@@GLIBC_2.14"),
        Some(("memcpy".to_string(), "2.14".to_string()))
    );
}

#[test]
fn name_without_marker_has_no_tag() {
    assert_eq!(parse_symbol_tag("local_helper"), None);
    assert_eq!(parse_symbol_tag(""), None);
    assert_eq!(parse_symbol_tag("memcpy@GLIBC_2.14"), None);
}

#[test]
fn marker_twice_is_dropped() {
    assert_eq!(parse_symbol_tag("f@@GLIBC_2.1@@GLIBC_2.2"), None);
}

#[test]
fn tag_at_edges() {
    assert_eq!(parse_symbol_tag("@@GLIBC_"), Some((String::new(), String::new())));
    assert_eq!(
        parse_symbol_tag("stat@@GLIBC_2.33"),
        Some(("stat".to_string(), "2.33".to_string()))
    );
}

#[test]
fn string_order_is_lexicographic() {
    assert!(str_less("2.17", "2.2"));
    assert!(str_less("2.2", "2.4"));
    assert!(!str_less("2.4", "2.4"));
    assert!(str_less("2.1", "2.17"));
    assert!(!str_less("2.17", "2.1"));
    assert!(str_less("", "a"));
}

#[test]
fn top_n_is_descending_lexicographic_not_numeric() {
    let mut t = RequirementTable::new();
    t.insert(req("2.2", "a", "/l/x.so"));
    t.insert(req("2.17", "b", "/l/x.so"));
    t.insert(req("2.4", "c", "/l/y.so"));
    assert_eq!(t.select_top_n(3), vec!["2.4".to_string(), "2.2".to_string(), "2.17".to_string()]);
    assert_eq!(t.select_top_n(1), vec!["2.4".to_string()]);
    assert_eq!(t.select_top_n(0), Vec::<String>::new());
}

#[test]
fn top_n_beyond_count_returns_all_and_is_repeatable() {
    let mut t = RequirementTable::new();
    t.insert(req("2.2", "a", "/l/x.so"));
    t.insert(req("2.2", "b", "/l/x.so"));
    t.insert(req("2.3", "a", "/l/x.so"));
    let first = t.select_top_n(10);
    assert_eq!(first, vec!["2.3".to_string(), "2.2".to_string()]);
    assert_eq!(t.select_top_n(10), first);
}

#[test]
fn empty_table_has_no_versions() {
    let t = RequirementTable::new();
    assert_eq!(t.select_top_n(5), Vec::<String>::new());
    assert_eq!(t.versions(), Vec::<String>::new());
}

#[test]
fn detail_views_group_functions_and_files() {
    let mut t = RequirementTable::new();
    t.insert(req("2.5", "foo", "/l/d.so"));
    t.insert(req("2.5", "foo", "/l/e.so"));
    t.insert(req("2.5", "bar", "/l/d.so"));
    t.insert(req("2.3", "baz", "/l/d.so"));
    let v = "2.5".to_string();
    assert_eq!(sorted(t.functions_of(&v)), vec!["bar".to_string(), "foo".to_string()]);
    assert_eq!(
        sorted(t.files_of(&v, &"foo".to_string())),
        vec!["/l/d.so".to_string(), "/l/e.so".to_string()]
    );
    assert_eq!(t.files_of(&v, &"baz".to_string()), Vec::<String>::new());
    assert_eq!(sorted(t.versions()), vec!["2.3".to_string(), "2.5".to_string()]);
}

#[test]
fn inserting_a_requirement_twice_keeps_one() {
    let mut t = RequirementTable::new();
    t.insert(req("2.5", "foo", "/l/d.so"));
    t.insert(req("2.5", "foo", "/l/d.so"));
    assert_eq!(t.files_of(&"2.5".to_string(), &"foo".to_string()), vec!["/l/d.so".to_string()]);
    assert!(t.contains(&req("2.5", "foo", "/l/d.so")));
    assert!(!t.contains(&req("2.5", "foo", "/l/e.so")));
}
