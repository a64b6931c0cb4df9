use spotfind::matcher::{IgnoreDecision, IgnoreMatcher};
use spotfind::model::IgnoreKind;
use spotfind::pathname::{is_hidden_path, is_hidden_under_base, split_path};

#[test]
fn components_of_a_path() {
    let comps: Vec<String> = split_path("/a//b/./c/")
        .into_iter()
        .map(|c| c.into_iter().collect())
        .collect();
    assert_eq!(comps, vec!["a", "b", "c"]);
    assert!(split_path("/").is_empty());
}

#[test]
fn hidden_predicate_reads_only_below_base() {
    assert!(!is_hidden_under_base("/home/.secret/proj/src/a.rs", "/home/.secret/proj"));
    assert!(is_hidden_under_base("/home/proj/.git/config", "/home/proj"));
    assert_eq!(
        is_hidden_under_base("/x/.y/proj/tail/.z", "/x/.y/proj"),
        is_hidden_under_base("/other/proj/tail/.z", "/other/proj")
    );
    assert!(!is_hidden_under_base("/base", "/base"));
}

#[test]
fn hidden_predicate_outside_base_reads_everything() {
    assert!(is_hidden_under_base("/elsewhere/.x/file", "/base"));
    assert!(!is_hidden_under_base("/elsewhere/x/file", "/base"));
}

#[test]
fn dot_and_dot_dot_are_not_hidden() {
    assert!(!is_hidden_path("/a/../b"));
    assert!(!is_hidden_path("/a/./b"));
    assert!(is_hidden_path("/a/..b"));
    assert!(is_hidden_path("/a/.b"));
}

#[test]
fn matcher_answers() {
    let m = IgnoreMatcher::from_text("/r", "foo\n!keep.foo\nbuild/\n");
    assert_eq!(m.verdict("/r/foo", false), Some(IgnoreDecision::Ignore));
    assert_eq!(m.verdict("/r/sub/foo", false), Some(IgnoreDecision::Ignore));
    assert_eq!(m.verdict("/r/keep.foo", false), Some(IgnoreDecision::Whitelist));
    assert_eq!(m.verdict("/r/build", true), Some(IgnoreDecision::Ignore));
    assert_eq!(m.verdict("/r/build", false), None);
    assert_eq!(m.verdict("/r/other", false), None);
    assert!(IgnoreDecision::Whitelist.includes());
    assert!(!IgnoreDecision::Ignore.includes());
}

#[test]
fn ignore_file_names() {
    assert_eq!(IgnoreKind::FdIgnore.file_name(), ".fdignore");
    assert_eq!(IgnoreKind::DotIgnore.file_name(), ".ignore");
    assert_eq!(IgnoreKind::GitIgnore.file_name(), ".gitignore");
}
