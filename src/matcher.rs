use vstd::prelude::*;

use ignore::gitignore::{Gitignore, GitignoreBuilder};

use crate::text::chars_of;
use crate::pathname::push_chars;

verus! {

#[verifier::external_type_specification]
#[verifier::external_body]
pub struct ExGitignore(Gitignore);

/// What one ignore matcher says of a path.
#[derive(Clone, Copy, Debug, PartialEq, Eq, Structural)]
pub enum IgnoreDecision {
    Ignore,
    Whitelist,
}

impl IgnoreDecision {
    pub open spec fn spec_include(self) -> bool {
        self is Whitelist
    }

    /// A whitelist lets the path in, an ignore keeps it out.
    pub fn includes(self) -> (r: bool)
        ensures
            r == self.spec_include(),
    {
        match self {
            IgnoreDecision::Whitelist => true,
            IgnoreDecision::Ignore => false,
        }
    }
}

/// The verdict of a gitignore-style matcher rooted at `root` and compiled from
/// the lines of `patterns`, on `path` (a directory when `is_dir`).
pub uninterp spec fn gitignore_verdict(
    root: Seq<char>,
    patterns: Seq<char>,
    path: Seq<char>,
    is_dir: bool,
) -> Option<IgnoreDecision>;

/// A compiled gitignore-style matcher, with the root and the pattern text it
/// was compiled from.
pub struct IgnoreMatcher {
    inner: Gitignore,
    root: Ghost<Seq<char>>,
    patterns: Ghost<Seq<char>>,
}

/// The byte order mark that may open an ignore file.
pub const BOM: char = '\u{feff}';

/// The text of an ignore file without its leading byte order marks.
pub open spec fn without_bom(t: Seq<char>) -> Seq<char>
    decreases t.len(),
{
    if t.len() > 0 && t[0] == BOM {
        without_bom(t.drop_first())
    } else {
        t
    }
}

/// Relies on ignore's `GitignoreBuilder`: `new(root)`, then `add_line` for each
/// line of `patterns` (a line that does not parse is left out), then `build`;
/// where the build fails, the matcher that matches nothing (`Gitignore::empty`).
#[verifier::external_body]
fn compile_gitignore(root: &str, patterns: &str) -> (r: IgnoreMatcher)
    ensures
        r.root_text() == root@,
        r.pattern_text() == patterns@,
{
    let mut builder = GitignoreBuilder::new(root);
    for line in patterns.lines() {
        let _ = builder.add_line(None, line);
    }
    let inner = builder.build().unwrap_or_else(|_| Gitignore::empty());
    IgnoreMatcher { inner, root: Ghost(root@), patterns: Ghost(patterns@) }
}

/// Relies on ignore's `Gitignore::matched`: its answer depends on the root and
/// the pattern text the matcher was compiled from, the path and the directory
/// bit alone.
#[verifier::external_body]
pub(crate) fn matcher_verdict(m: &IgnoreMatcher, path: &str, is_dir: bool) -> (r: Option<
    IgnoreDecision,
>)
    ensures
        r == gitignore_verdict(m.root_text(), m.pattern_text(), path@, is_dir),
{
    match m.inner.matched(path, is_dir) {
        ignore::Match::Ignore(_) => Some(IgnoreDecision::Ignore),
        ignore::Match::Whitelist(_) => Some(IgnoreDecision::Whitelist),
        ignore::Match::None => None,
    }
}

impl IgnoreMatcher {
    /// The directory the patterns are matched relative to.
    pub closed spec fn root_text(&self) -> Seq<char> {
        self.root@
    }

    /// The pattern text the matcher was compiled from.
    pub closed spec fn pattern_text(&self) -> Seq<char> {
        self.patterns@
    }

    /// Compiles the text of an ignore file, matched relative to `root`; leading
    /// byte order marks are dropped first.
    pub fn from_text(root: &str, text: &str) -> (r: IgnoreMatcher)
        ensures
            r.root_text() == root@,
            r.pattern_text() == without_bom(text@),
    {
        let chars = chars_of(text);
        let mut start: usize = 0;
        assert(text@.skip(0) =~= text@);
        while start < chars.len() && chars[start] == BOM
            invariant
                chars@ == text@,
                start <= chars@.len(),
                without_bom(text@) == without_bom(text@.skip(start as int)),
            decreases chars.len() - start,
        {
            assert(text@.skip(start as int).drop_first() =~= text@.skip(start as int + 1));
            start += 1;
        }
        let mut rest = String::new();
        let mut tail: Vec<char> = Vec::new();
        let mut i = start;
        while i < chars.len()
            invariant
                chars@ == text@,
                start <= i <= chars@.len(),
                tail@ == text@.subrange(start as int, i as int),
            decreases chars.len() - i,
        {
            tail.push(chars[i]);
            assert(text@.subrange(start as int, i as int + 1) =~= text@.subrange(
                start as int,
                i as int,
            ).push(text@[i as int]));
            i += 1;
        }
        push_chars(&mut rest, &tail);
        proof {
            let t = text@.skip(start as int);
            assert(rest@ =~= t);
            assert(!(t.len() > 0 && t[0] == BOM));
        }
        compile_gitignore(root, rest.as_str())
    }

    /// The verdict on `path`, a directory when `is_dir`.
    pub fn verdict(&self, path: &str, is_dir: bool) -> (r: Option<IgnoreDecision>)
        ensures
            r == gitignore_verdict(self.root_text(), self.pattern_text(), path@, is_dir),
    {
        matcher_verdict(self, path, is_dir)
    }
}

} // verus!

verus! {

/// Dropping the byte order marks twice is dropping them once.
pub proof fn lemma_without_bom_idempotent(t: Seq<char>)
    ensures
        without_bom(without_bom(t)) == without_bom(t),
    decreases t.len(),
{
    if t.len() > 0 && t[0] == BOM {
        lemma_without_bom_idempotent(t.drop_first());
    }
}

} // verus!
