use spotfind::query::{
    build_mdfind_plan, build_query, escape_query_string, has_uppercase, is_glob,
    should_avoid_name_fast_path, RustMatcher,
};

#[test]
fn substring_wraps_in_wildcards() {
    let q = build_query(Some("config"));
    assert_eq!(q, "kMDItemFSName == \"*config*\"c");
}

#[test]
fn glob_used_as_is() {
    let q = build_query(Some("*.ts"));
    assert_eq!(q, "kMDItemFSName == \"*.ts\"c");
}

#[test]
fn smart_case_uppercase_is_case_sensitive() {
    let q = build_query(Some("SPEC"));
    assert_eq!(q, "kMDItemFSName == \"*SPEC*\"");
}

#[test]
fn no_pattern_matches_everything() {
    let q = build_query(None);
    assert_eq!(q, "kMDItemFSName == \"*\"");
}

#[test]
fn escapes_quotes_and_backslashes() {
    let q = build_query(Some("a\"b\\c"));
    assert_eq!(q, "kMDItemFSName == \"*a\\\"b\\\\c*\"c");
}

#[test]
fn escaping_alone() {
    assert_eq!(escape_query_string("plain"), "plain");
    assert_eq!(escape_query_string("\\\""), "\\\\\\\"");
}

#[test]
fn plan_uses_predicate_when_no_pattern() {
    let plan = build_mdfind_plan("/tmp", None);
    assert_eq!(plan.rust_matcher, None);
    assert_eq!(plan.args.len(), 4);
    assert_eq!(plan.args[0], "-0");
    assert_eq!(plan.args[1], "-onlyin");
    assert_eq!(plan.args[2], "/tmp");
    assert_eq!(plan.args[3], "kMDItemFSName == \"*\"");
}

#[test]
fn plan_uses_predicate_for_globs() {
    let plan = build_mdfind_plan("/tmp", Some("*.ts"));
    assert_eq!(plan.rust_matcher, None);
    assert_eq!(plan.args.len(), 4);
    assert_eq!(plan.args[3], "kMDItemFSName == \"*.ts\"c");
}

#[test]
fn plan_uses_name_fast_path_for_substrings() {
    let plan = build_mdfind_plan("/Users/alice", Some("foo"));
    assert_eq!(plan.rust_matcher, None);
    assert_eq!(plan.args.len(), 5);
    assert_eq!(plan.args[3], "-name");
    assert_eq!(plan.args[4], "foo");
}

#[test]
fn plan_adds_case_sensitive_matcher_for_uppercase_substrings() {
    let plan = build_mdfind_plan("/Users/alice", Some("Foo"));
    assert!(matches!(
        plan.rust_matcher,
        Some(RustMatcher::CaseSensitiveSubstring { .. })
    ));
}

#[test]
fn plan_avoids_name_fast_path_for_tmp_like_dirs() {
    let plan = build_mdfind_plan("/var/folders/abc", Some("foo"));
    assert_eq!(plan.args.len(), 4);
    assert!(plan.args[3].starts_with("kMDItemFSName =="));
}

#[test]
fn temporary_locations() {
    assert!(should_avoid_name_fast_path("/tmp"));
    assert!(should_avoid_name_fast_path("/private/tmp/x"));
    assert!(should_avoid_name_fast_path("/private/var/folders/zz"));
    assert!(!should_avoid_name_fast_path("/tmpfiles"));
    assert!(!should_avoid_name_fast_path("/Users/alice"));
}

#[test]
fn smart_case_is_symmetric() {
    for (pat, upper) in [("foo", false), ("Foo", true), ("ÉTÉ", true), ("été", false), ("123", false)] {
        assert_eq!(has_uppercase(pat), upper, "{pat}");
        let q = build_query(Some(pat));
        assert_eq!(q.ends_with("\"c"), !upper, "{pat}");
        let plan = build_mdfind_plan("/Users/alice", Some(pat));
        assert_eq!(plan.rust_matcher.is_some(), upper, "{pat}");
    }
}

#[test]
fn glob_detection() {
    assert!(is_glob("*.rs"));
    assert!(is_glob("a?c"));
    assert!(!is_glob("abc"));
}

#[test]
fn case_sensitive_matcher_reads_the_file_name() {
    let m = RustMatcher::CaseSensitiveSubstring { needle: "Foo".to_string() };
    assert!(m.matches("/a/b/myFoo.txt"));
    assert!(!m.matches("/a/b/myfoo.txt"));
    assert!(!m.matches("/a/Foo/bar.txt"));
    assert!(!m.matches("/"));
    assert!(!m.matches("/a/Foo/.."));
}
