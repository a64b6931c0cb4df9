use std::collections::{BTreeMap, BTreeSet};

use spotfind::filter::{Filter, FilterConfig, Outcome, Probe};
use spotfind::matcher::IgnoreMatcher;

const ROOT: &str = "/work/tree";

/// A directory tree held in memory; it answers the filter's probes.
struct MemFs {
    dirs: BTreeSet<String>,
    files: BTreeMap<String, String>,
}

fn join(dir: &str, name: &str) -> String {
    if dir.ends_with('/') {
        format!("{dir}{name}")
    } else {
        format!("{dir}/{name}")
    }
}

impl MemFs {
    fn new() -> Self {
        let mut fs = MemFs { dirs: BTreeSet::new(), files: BTreeMap::new() };
        fs.mkdir("");
        fs
    }

    fn mkdir(&mut self, rel: &str) {
        let mut cur = String::from(ROOT);
        self.dirs.insert(cur.clone());
        for part in rel.split('/').filter(|p| !p.is_empty()) {
            cur = join(&cur, part);
            self.dirs.insert(cur.clone());
        }
    }

    fn write(&mut self, rel: &str, content: &str) {
        if let Some((parent, _)) = rel.rsplit_once('/') {
            self.mkdir(parent);
        }
        self.files.insert(join(ROOT, rel), content.to_string());
    }

    fn remove(&mut self, rel: &str) {
        self.files.remove(&join(ROOT, rel));
    }

    fn with_git_head() -> Self {
        let mut fs = MemFs::new();
        fs.mkdir(".git");
        fs.write(".git/HEAD", "ref: refs/heads/main\n");
        fs
    }

    fn read(&self, path: &str) -> Option<String> {
        self.files.get(path).cloned()
    }

    fn is_dir(&self, path: &str) -> bool {
        self.dirs.contains(path)
    }

    /// Every entry below the root, as a recursive listing would give it.
    fn entries(&self) -> Vec<String> {
        let prefix = format!("{ROOT}/");
        let mut all: Vec<String> = self
            .dirs
            .iter()
            .chain(self.files.keys())
            .filter(|p| p.starts_with(&prefix))
            .cloned()
            .collect();
        all.sort();
        all
    }
}

fn decide(f: &mut Filter, fs: &MemFs, path: &str) -> bool {
    let is_dir = fs.is_dir(path);
    for _ in 0..10_000 {
        match f.should_include(path, is_dir) {
            Outcome::Decided(b) => return b,
            Outcome::Needs(Probe::IgnoreFile { dir, kind, node }) => {
                let text = fs.read(&join(&dir, kind.file_name()));
                f.learn_ignore_file(node, kind, text);
            }
            Outcome::Needs(Probe::RepoMarker { dir, node }) => {
                let present = fs.files.contains_key(&join(&dir, ".git/HEAD"));
                f.learn_repo_marker(node, present);
            }
            Outcome::Needs(Probe::InfoExclude { dir, node }) => {
                f.learn_info_exclude(node, fs.read(&join(&dir, ".git/info/exclude")));
            }
        }
    }
    panic!("no decision for {path}");
}

fn empty_matcher() -> IgnoreMatcher {
    IgnoreMatcher::from_text("", "")
}

fn make_filter(
    include_hidden: bool,
    ignore_enabled: bool,
    global_gitignore: IgnoreMatcher,
    global_fd_ignore: Option<IgnoreMatcher>,
) -> Filter {
    Filter::new(
        FilterConfig {
            cwd: ROOT.to_string(),
            search_base: ROOT.to_string(),
            include_hidden,
            ignore_enabled,
        },
        global_gitignore,
        global_fd_ignore,
    )
}

fn filter_for_test(include_hidden: bool, ignore_enabled: bool) -> Filter {
    make_filter(include_hidden, ignore_enabled, empty_matcher(), None)
}

fn abs(rel: &str) -> String {
    join(ROOT, rel)
}

fn smartcase_contains(name: &str, pat: &str) -> bool {
    if pat.chars().any(|c| c.is_uppercase()) {
        name.contains(pat)
    } else {
        name.to_lowercase().contains(&pat.to_lowercase())
    }
}

fn collect_matches(fs: &MemFs, f: &mut Filter, pattern: &str) -> Vec<String> {
    let mut out = Vec::new();
    for path in fs.entries() {
        let name = path.rsplit('/').next().unwrap_or("");
        if !smartcase_contains(name, pattern) {
            continue;
        }
        if decide(f, fs, &path) {
            out.push(path[ROOT.len() + 1..].to_string());
        }
    }
    out.sort();
    out
}

fn default_tree() -> MemFs {
    let mut fs = MemFs::with_git_head();
    for d in ["one/two/three", "one/two/three/directory_foo"] {
        fs.mkdir(d);
    }
    for f in [
        "a.foo",
        "one/b.foo",
        "one/two/c.foo",
        "one/two/C.Foo2",
        "one/two/three/d.foo",
        "fdignored.foo",
        "gitignored.foo",
        ".hidden.foo",
        "e1 e2",
    ] {
        fs.write(f, "x");
    }
    fs.write(".fdignore", "fdignored.foo\n");
    fs.write(".gitignore", "gitignored.foo\n");
    fs
}

fn strings(v: &[&str]) -> Vec<String> {
    v.iter().map(|s| s.to_string()).collect()
}

#[test]
fn hidden_files_excluded_by_default() {
    let mut fs = MemFs::new();
    fs.write(".env", "x");
    fs.write("src/config.ts", "x");
    let mut f = filter_for_test(false, true);
    assert!(!decide(&mut f, &fs, &abs(".env")));
    assert!(decide(&mut f, &fs, &abs("src/config.ts")));
}

#[test]
fn no_ignore_disables_ignores_but_not_hidden() {
    let mut fs = MemFs::with_git_head();
    fs.write(".env", "x");
    fs.write("ignored.foo", "x");
    fs.write(".gitignore", "ignored.foo\n");
    let mut f = filter_for_test(false, false);
    assert!(!decide(&mut f, &fs, &abs(".env")));
    assert!(decide(&mut f, &fs, &abs("ignored.foo")));
}

#[test]
fn require_git_head_for_gitignore() {
    let mut fs = MemFs::new();
    fs.mkdir(".git");
    fs.write(".gitignore", "ignored.foo\n");
    fs.write("ignored.foo", "x");
    let mut f = filter_for_test(true, true);
    assert!(decide(&mut f, &fs, &abs("ignored.foo")));

    fs.write(".git/HEAD", "ref: refs/heads/main\n");
    let mut f = filter_for_test(true, true);
    assert!(!decide(&mut f, &fs, &abs("ignored.foo")));
}

#[test]
fn fdignore_has_highest_precedence() {
    let mut fs = MemFs::with_git_head();
    fs.mkdir("inner");
    fs.write("inner/foo", "x");
    fs.write("inner/.gitignore", "foo\n");
    fs.write(".fdignore", "!foo\n");
    let mut f = filter_for_test(true, true);
    assert!(decide(&mut f, &fs, &abs("inner/foo")));
}

#[test]
fn dot_ignore_overrides_gitignore() {
    let mut fs = MemFs::with_git_head();
    fs.write("foo", "x");
    fs.write(".gitignore", "foo\n");
    fs.write(".ignore", "!foo\n");
    let mut f = filter_for_test(true, true);
    assert!(decide(&mut f, &fs, &abs("foo")));
}

#[test]
fn ignored_directory_prunes_descendants_even_if_file_is_whitelisted_locally() {
    let mut fs = MemFs::with_git_head();
    fs.mkdir("ignored_dir");
    fs.write(".gitignore", "ignored_dir/\n");
    fs.write("ignored_dir/.gitignore", "!keep.ts\n");
    fs.write("ignored_dir/keep.ts", "x");
    let mut f = filter_for_test(true, true);
    assert!(!decide(&mut f, &fs, &abs("ignored_dir/keep.ts")));
}

#[test]
fn unignoring_directory_chain_allows_whitelisted_file() {
    let mut fs = MemFs::with_git_head();
    fs.mkdir("ignored_dir");
    fs.write(
        ".gitignore",
        "ignored_dir/\n!ignored_dir/\nignored_dir/*\n!ignored_dir/keep.ts\n",
    );
    fs.write("ignored_dir/keep.ts", "x");
    fs.write("ignored_dir/junk.ts", "x");
    let mut f = filter_for_test(true, true);
    assert!(decide(&mut f, &fs, &abs("ignored_dir/keep.ts")));
    assert!(!decide(&mut f, &fs, &abs("ignored_dir/junk.ts")));
}

#[test]
fn global_fd_ignore_is_lowest_precedence() {
    let mut fs = MemFs::new();
    fs.write("foo", "x");
    fs.write("bar", "x");
    fs.write(".ignore", "!foo\n");
    let global = IgnoreMatcher::from_text(ROOT, "foo\nbar\n");
    let mut f = make_filter(true, true, empty_matcher(), Some(global));
    assert!(decide(&mut f, &fs, &abs("foo")));
    assert!(!decide(&mut f, &fs, &abs("bar")));
}

#[test]
fn no_ignore_disables_global_fd_ignore() {
    let mut fs = MemFs::new();
    fs.write("bar", "x");
    let global = IgnoreMatcher::from_text(ROOT, "bar\n");
    let mut f = make_filter(true, false, empty_matcher(), Some(global));
    assert!(decide(&mut f, &fs, &abs("bar")));
}

#[test]
fn fd_hidden_adapted() {
    let fs = default_tree();
    let mut f = filter_for_test(true, true);
    let got = collect_matches(&fs, &mut f, "foo");
    assert_eq!(
        got,
        strings(&[
            ".hidden.foo",
            "a.foo",
            "one/b.foo",
            "one/two/C.Foo2",
            "one/two/c.foo",
            "one/two/three/d.foo",
            "one/two/three/directory_foo",
        ])
    );
}

#[test]
fn fd_no_ignore_adapted() {
    let fs = default_tree();
    let mut f = filter_for_test(false, false);
    let got = collect_matches(&fs, &mut f, "foo");
    assert_eq!(
        got,
        strings(&[
            "a.foo",
            "fdignored.foo",
            "gitignored.foo",
            "one/b.foo",
            "one/two/C.Foo2",
            "one/two/c.foo",
            "one/two/three/d.foo",
            "one/two/three/directory_foo",
        ])
    );
}

#[test]
fn default_tree_scenario() {
    let fs = default_tree();
    let mut f = filter_for_test(false, true);
    let got = collect_matches(&fs, &mut f, "foo");
    assert_eq!(
        got,
        strings(&[
            "a.foo",
            "one/b.foo",
            "one/two/C.Foo2",
            "one/two/c.foo",
            "one/two/three/d.foo",
            "one/two/three/directory_foo",
        ])
    );
}

#[test]
fn fd_gitignore_and_fdignore_adapted() {
    let mut fs = MemFs::with_git_head();
    for name in [
        "ignored-by-nothing",
        "ignored-by-fdignore",
        "ignored-by-gitignore",
        "ignored-by-both",
    ] {
        fs.write(name, "x");
    }
    fs.write(".fdignore", "ignored-by-fdignore\nignored-by-both\n");
    fs.write(".gitignore", "ignored-by-gitignore\nignored-by-both\n");

    let mut f = filter_for_test(true, true);
    let got = collect_matches(&fs, &mut f, "ignored");
    assert_eq!(got, vec!["ignored-by-nothing".to_string()]);

    let mut f = filter_for_test(true, false);
    let got = collect_matches(&fs, &mut f, "ignored");
    assert_eq!(
        got,
        strings(&[
            "ignored-by-both",
            "ignored-by-fdignore",
            "ignored-by-gitignore",
            "ignored-by-nothing",
        ])
    );
}

#[test]
fn fd_custom_ignore_precedence_adapted() {
    let mut fs = MemFs::with_git_head();
    fs.mkdir("inner");
    fs.write("inner/foo", "x");
    fs.write("inner/.gitignore", "foo\n");
    fs.write(".fdignore", "!foo\n");
    let mut f = filter_for_test(true, true);
    let got = collect_matches(&fs, &mut f, "foo");
    assert_eq!(got, vec!["inner/foo".to_string()]);
}

#[test]
fn fd_require_git_adapted() {
    let mut fs = default_tree();
    fs.remove(".git/HEAD");
    let mut f = filter_for_test(true, true);
    let got = collect_matches(&fs, &mut f, "foo");
    assert!(got.contains(&"gitignored.foo".to_string()));
    assert!(!got.contains(&"fdignored.foo".to_string()));

    fs.write(".git/HEAD", "ref: refs/heads/main\n");
    let mut f = filter_for_test(true, true);
    let got = collect_matches(&fs, &mut f, "foo");
    assert!(!got.contains(&"gitignored.foo".to_string()));
}

#[test]
fn global_gitignore_only_applies_inside_real_repo() {
    let mut fs = MemFs::with_git_head();
    fs.write("foo", "x");
    fs.write("bar", "x");

    fs.remove(".git/HEAD");
    let gg = IgnoreMatcher::from_text(ROOT, "bar\n");
    let mut f = make_filter(true, true, gg, None);
    let got = collect_matches(&fs, &mut f, "a");
    assert!(got.contains(&"bar".to_string()));

    fs.write(".git/HEAD", "ref: refs/heads/main\n");
    let gg = IgnoreMatcher::from_text(ROOT, "bar\n");
    let mut f = make_filter(true, true, gg, None);
    let got = collect_matches(&fs, &mut f, "a");
    assert!(!got.contains(&"bar".to_string()));
}

#[test]
fn info_exclude_applies_inside_repo() {
    let mut fs = MemFs::with_git_head();
    fs.write("secret.txt", "x");
    fs.write("plain.txt", "x");
    fs.write(".git/info/exclude", "secret.txt\n");
    let mut f = filter_for_test(true, true);
    assert!(!decide(&mut f, &fs, &abs("secret.txt")));
    assert!(decide(&mut f, &fs, &abs("plain.txt")));
}

#[test]
fn closest_gitignore_wins() {
    let mut fs = MemFs::with_git_head();
    fs.write(".gitignore", "*.log\n");
    fs.write("sub/.gitignore", "!keep.log\n");
    fs.write("sub/keep.log", "x");
    fs.write("sub/drop.log", "x");
    let mut f = filter_for_test(true, true);
    assert!(decide(&mut f, &fs, &abs("sub/keep.log")));
    assert!(!decide(&mut f, &fs, &abs("sub/drop.log")));
}

#[test]
fn parent_fdignore_above_base_applies() {
    let mut fs = MemFs::new();
    fs.write("proj/skip.txt", "x");
    fs.write("proj/keep.txt", "x");
    fs.write(".fdignore", "skip.txt\n");
    let mut f = Filter::new(
        FilterConfig {
            cwd: abs("proj"),
            search_base: abs("proj"),
            include_hidden: false,
            ignore_enabled: true,
        },
        empty_matcher(),
        None,
    );
    assert!(!decide(&mut f, &fs, &abs("proj/skip.txt")));
    assert!(decide(&mut f, &fs, &abs("proj/keep.txt")));
}

#[test]
fn ignore_file_with_byte_order_mark() {
    let mut fs = MemFs::new();
    fs.write("junk", "x");
    fs.write(".ignore", "\u{feff}junk\n");
    let mut f = filter_for_test(true, true);
    assert!(!decide(&mut f, &fs, &abs("junk")));
}

#[test]
fn hidden_directory_prunes_its_files() {
    let mut fs = MemFs::new();
    fs.write(".cache/data.bin", "x");
    let mut f = filter_for_test(false, true);
    assert!(!decide(&mut f, &fs, &abs(".cache/data.bin")));
    let mut f = filter_for_test(true, true);
    assert!(decide(&mut f, &fs, &abs(".cache/data.bin")));
}

#[test]
fn asking_twice_gives_the_same_answer() {
    let fs = default_tree();
    let mut f = filter_for_test(false, true);
    for rel in ["a.foo", "gitignored.foo", ".hidden.foo", "one/two/c.foo"] {
        let first = decide(&mut f, &fs, &abs(rel));
        let second = decide(&mut f, &fs, &abs(rel));
        assert_eq!(first, second, "{rel}");
    }
}

#[test]
fn decisions_do_not_depend_on_order_or_cache() {
    let mut fs = MemFs::with_git_head();
    fs.write(".gitignore", "ignored_dir/\n");
    fs.write("ignored_dir/keep.ts", "x");
    fs.write("ignored_dir/.gitignore", "!keep.ts\n");
    fs.write("src/a.ts", "x");
    fs.write("src/deep/b.ts", "x");
    let paths: Vec<String> = fs.entries();

    let mut forward = filter_for_test(false, true);
    let got_forward: Vec<bool> = paths.iter().map(|p| decide(&mut forward, &fs, p)).collect();

    let mut backward = filter_for_test(false, true);
    let mut got_backward: Vec<bool> =
        paths.iter().rev().map(|p| decide(&mut backward, &fs, p)).collect();
    got_backward.reverse();

    let fresh: Vec<bool> = paths
        .iter()
        .map(|p| decide(&mut filter_for_test(false, true), &fs, p))
        .collect();

    assert_eq!(got_forward, fresh);
    assert_eq!(got_backward, fresh);
}

#[test]
fn candidate_equal_to_base_and_hidden_base() {
    let mut fs = MemFs::new();
    fs.write(".private/notes.txt", "x");
    let mut f = filter_for_test(false, true);
    assert!(decide(&mut f, &fs, ROOT));
    // only the components below the base count as hidden
    let base = abs(".private");
    let mut f = Filter::new(
        FilterConfig {
            cwd: base.clone(),
            search_base: base.clone(),
            include_hidden: false,
            ignore_enabled: true,
        },
        empty_matcher(),
        None,
    );
    assert!(decide(&mut f, &fs, &base));
    assert!(decide(&mut f, &fs, &abs(".private/notes.txt")));
}

#[test]
fn candidate_outside_base_is_not_pruned() {
    let mut fs = MemFs::new();
    fs.write("elsewhere/.ignore", "x.txt\n");
    fs.write("elsewhere/x.txt", "x");
    fs.write("elsewhere/y.txt", "x");
    fs.mkdir("base");
    let mut f = Filter::new(
        FilterConfig {
            cwd: abs("base"),
            search_base: abs("base"),
            include_hidden: false,
            ignore_enabled: true,
        },
        empty_matcher(),
        None,
    );
    assert!(decide(&mut f, &fs, &abs("elsewhere/y.txt")));
    assert!(!decide(&mut f, &fs, &abs("elsewhere/x.txt")));
}
