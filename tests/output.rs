use spotfind::config::{global_fd_ignore_path, resolve_search_base};
use spotfind::mdfind::trim_record;
use spotfind::output::{join_path, strip_prefix_or_abs, write_path, Delimiter, OutputStyle};

#[test]
fn print0_writes_nul_delimited_output() {
    let mut buf = Vec::new();
    write_path(&mut buf, "a b", Delimiter::Nul);
    assert_eq!(buf, b"a b\0");
}

#[test]
fn print0_emits_nul_and_does_not_touch_diagnostics() {
    let mut buf = Vec::new();
    write_path(&mut buf, "x", Delimiter::Nul);
    assert_eq!(buf, b"x\0");
}

#[test]
fn newline_delimiter_and_appending() {
    let mut buf = b"first\n".to_vec();
    write_path(&mut buf, "dir/é", Delimiter::Newline);
    assert_eq!(buf, "first\ndir/é\n".as_bytes());
}

#[test]
fn omitted_path_is_relative_to_cwd_without_dot_slash() {
    let style = OutputStyle::new("/a/b".to_string(), "/a/b".to_string(), None);
    assert_eq!(style.render("/a/b/c/d.txt"), "c/d.txt");
}

#[test]
fn explicit_dot_path_preserves_dot_slash_prefix() {
    let style = OutputStyle::new("/a/b".to_string(), "/a/b".to_string(), Some("."));
    assert_eq!(style.render("/a/b/c.txt"), "./c.txt");
}

#[test]
fn explicit_relative_path_preserves_prefix() {
    let style = OutputStyle::new("/a/b".to_string(), "/a/b/src".to_string(), Some("src"));
    assert_eq!(style.render("/a/b/src/lib.rs"), "src/lib.rs");
}

#[test]
fn explicit_absolute_path_outputs_absolute() {
    let style = OutputStyle::new("/a/b".to_string(), "/x/y".to_string(), Some("/x/y"));
    assert_eq!(style.render("/x/y/z"), "/x/y/z");
}

#[test]
fn render_of_base_itself_and_outside_paths() {
    let style = OutputStyle::new("/a/b".to_string(), "/a/b".to_string(), None);
    assert_eq!(style.render("/a/b"), ".");
    assert_eq!(style.render("/other/file"), "/other/file");
    let style = OutputStyle::new("/a/b".to_string(), "/a/b/src".to_string(), Some("src/"));
    assert_eq!(style.render("/a/b/src"), "src/");
    assert_eq!(style.render("/a/b/src/x/y.rs"), "src/x/y.rs");
}

#[test]
fn render_round_trip_under_relative_argument() {
    let base = "/a/b/src";
    let style = OutputStyle::new("/a/b".to_string(), base.to_string(), Some("src"));
    for abs in ["/a/b/src/lib.rs", "/a/b/src/deep/nested/mod.rs"] {
        let shown = style.render(abs);
        let tail = shown.strip_prefix("src/").unwrap();
        let rebuilt = join_path(base, tail);
        assert_eq!(rebuilt, abs);
        assert_eq!(style.render(&rebuilt), shown);
    }
}

#[test]
fn strip_prefix_is_component_wise() {
    assert_eq!(strip_prefix_or_abs("/a/bc/d", "/a/b"), "/a/bc/d");
    assert_eq!(strip_prefix_or_abs("/a/b//c/./d", "/a/b"), "c/d");
    assert_eq!(strip_prefix_or_abs("/a/b/", "/a/b"), ".");
}

#[test]
fn join_rules() {
    assert_eq!(join_path("src", "lib.rs"), "src/lib.rs");
    assert_eq!(join_path("src/", "lib.rs"), "src/lib.rs");
    assert_eq!(join_path("", "lib.rs"), "lib.rs");
    assert_eq!(join_path("src", "/abs"), "/abs");
}

#[test]
fn search_base_resolution() {
    assert_eq!(resolve_search_base("/home/u", None), "/home/u");
    assert_eq!(resolve_search_base("/home/u", Some("proj")), "/home/u/proj");
    assert_eq!(resolve_search_base("/home/u", Some("/opt")), "/opt");
}

#[test]
fn global_fd_ignore_location() {
    assert_eq!(
        global_fd_ignore_path(Some("/cfg"), Some("/home/u")),
        Some("/cfg/fd/ignore".to_string())
    );
    assert_eq!(
        global_fd_ignore_path(Some(""), Some("/home/u")),
        Some("/home/u/.config/fd/ignore".to_string())
    );
    assert_eq!(
        global_fd_ignore_path(None, Some("/home/u")),
        Some("/home/u/.config/fd/ignore".to_string())
    );
    assert_eq!(global_fd_ignore_path(None, Some("")), None);
    assert_eq!(global_fd_ignore_path(None, None), None);
}

#[test]
fn records_lose_trailing_nul_and_cr() {
    assert_eq!(trim_record(&b"/a/b\0".to_vec()), Some(b"/a/b".to_vec()));
    assert_eq!(trim_record(&b"/a/b\r\0\0".to_vec()), Some(b"/a/b".to_vec()));
    assert_eq!(trim_record(&b"\0".to_vec()), None);
    assert_eq!(trim_record(&Vec::new()), None);
    assert_eq!(trim_record(&b"a\0b".to_vec()), Some(b"a\0b".to_vec()));
}
