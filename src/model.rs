use vstd::prelude::*;

use crate::matcher::{gitignore_verdict, without_bom, IgnoreDecision, IgnoreMatcher};
use crate::pathname::{hidden_from, hidden_under, is_hidden_name, parent_of, path_text, Comps};

verus! {

/// The three per-directory ignore files.
#[derive(Clone, Copy, Debug, PartialEq, Eq, Structural)]
pub enum IgnoreKind {
    /// `.fdignore`, the tool's own ignore file.
    FdIgnore,
    /// `.ignore`, the neutral ignore file.
    DotIgnore,
    /// `.gitignore`, the VCS ignore file.
    GitIgnore,
}

/// What the filesystem holds, as far as the decisions read it.
pub struct World {
    /// The text of the ignore file of a kind in a directory, if it is a readable
    /// regular file.
    pub ignore_text: spec_fn(IgnoreKind, Comps) -> Option<Seq<char>>,
    /// Whether `<dir>/.git/HEAD` is a regular file.
    pub has_head: spec_fn(Comps) -> bool,
    /// The text of `<repo>/.git/info/exclude`, if it is a readable regular file.
    pub exclude_text: spec_fn(Comps) -> Option<Seq<char>>,
}

/// What a filter's decisions depend on besides the filesystem.
pub struct FilterModel {
    pub base: Comps,
    pub include_hidden: bool,
    pub ignore_enabled: bool,
    pub global_vcs: IgnoreMatcher,
    pub global_fd: Option<IgnoreMatcher>,
}

pub open spec fn or_else(a: Option<IgnoreDecision>, b: Option<IgnoreDecision>) -> Option<
    IgnoreDecision,
> {
    if a is Some {
        a
    } else {
        b
    }
}

/// The verdict of a compiled matcher on target `t`.
pub open spec fn matcher_says(m: IgnoreMatcher, t: Comps, is_dir: bool) -> Option<IgnoreDecision> {
    gitignore_verdict(m.root_text(), m.pattern_text(), path_text(t), is_dir)
}

/// The verdict on `t` of the ignore file of kind `k` in directory `d`; an absent
/// file abstains.
pub open spec fn file_verdict(w: World, k: IgnoreKind, d: Comps, t: Comps, is_dir: bool) -> Option<
    IgnoreDecision,
> {
    match (w.ignore_text)(k, d) {
        Some(text) => gitignore_verdict(path_text(d), without_bom(text), path_text(t), is_dir),
        None => None,
    }
}

/// The first verdict of kind `k` met from directory `s` up to the filesystem root.
pub open spec fn ancestors_verdict(
    w: World,
    k: IgnoreKind,
    s: Comps,
    t: Comps,
    is_dir: bool,
) -> Option<IgnoreDecision>
    decreases s.len(),
{
    match file_verdict(w, k, s, t, is_dir) {
        Some(d) => Some(d),
        None => if s.len() == 0 {
            None
        } else {
            ancestors_verdict(w, k, s.drop_last(), t, is_dir)
        },
    }
}

/// The length of the nearest directory, `s` or above it, that holds `.git/HEAD`.
pub open spec fn repo_len(w: World, s: Comps) -> Option<nat>
    decreases s.len(),
{
    if (w.has_head)(s) {
        Some(s.len())
    } else if s.len() == 0 {
        None
    } else {
        repo_len(w, s.drop_last())
    }
}

/// The first `.gitignore` verdict met from `s` up to the directory of length `stop`.
pub open spec fn vcs_walk(w: World, s: Comps, stop: nat, t: Comps, is_dir: bool) -> Option<
    IgnoreDecision,
>
    decreases s.len(),
{
    match file_verdict(w, IgnoreKind::GitIgnore, s, t, is_dir) {
        Some(d) => Some(d),
        None => if s.len() <= stop {
            None
        } else {
            vcs_walk(w, s.drop_last(), stop, t, is_dir)
        },
    }
}

/// Layer one: `.fdignore` files from `s` up to the root.
pub open spec fn layer_fd(w: World, s: Comps, t: Comps, is_dir: bool) -> Option<IgnoreDecision> {
    ancestors_verdict(w, IgnoreKind::FdIgnore, s, t, is_dir)
}

/// Layer two: `.ignore` files from `s` up to the root.
pub open spec fn layer_dot(w: World, s: Comps, t: Comps, is_dir: bool) -> Option<IgnoreDecision> {
    ancestors_verdict(w, IgnoreKind::DotIgnore, s, t, is_dir)
}

/// Layer three: `.gitignore` files from `s` up to its repository root, closest first.
pub open spec fn layer_vcs(w: World, s: Comps, t: Comps, is_dir: bool) -> Option<IgnoreDecision> {
    match repo_len(w, s) {
        Some(n) => vcs_walk(w, s, n, t, is_dir),
        None => None,
    }
}

/// Layer four: the repository's `.git/info/exclude`.
pub open spec fn layer_exclude(w: World, s: Comps, t: Comps, is_dir: bool) -> Option<
    IgnoreDecision,
> {
    match repo_len(w, s) {
        Some(n) => {
            let r = s.subrange(0, n as int);
            match (w.exclude_text)(r) {
                Some(text) => gitignore_verdict(
                    path_text(r),
                    without_bom(text),
                    path_text(t),
                    is_dir,
                ),
                None => None,
            }
        },
        None => None,
    }
}

/// Layer five: the global VCS ignore matcher, inside a repository only.
pub open spec fn layer_global_vcs(m: FilterModel, w: World, s: Comps, t: Comps, is_dir: bool) -> Option<
    IgnoreDecision,
> {
    match repo_len(w, s) {
        Some(_) => matcher_says(m.global_vcs, t, is_dir),
        None => None,
    }
}

/// Layer six: the global tool-specific ignore matcher, if there is one.
pub open spec fn layer_global_fd(m: FilterModel, t: Comps, is_dir: bool) -> Option<IgnoreDecision> {
    match m.global_fd {
        Some(g) => matcher_says(g, t, is_dir),
        None => None,
    }
}

/// The first layer, in order of precedence, that does not abstain.
pub open spec fn composed(m: FilterModel, w: World, s: Comps, t: Comps, is_dir: bool) -> Option<
    IgnoreDecision,
> {
    or_else(
        layer_fd(w, s, t, is_dir),
        or_else(
            layer_dot(w, s, t, is_dir),
            or_else(
                layer_vcs(w, s, t, is_dir),
                or_else(
                    layer_exclude(w, s, t, is_dir),
                    or_else(layer_global_vcs(m, w, s, t, is_dir), layer_global_fd(m, t, is_dir)),
                ),
            ),
        ),
    )
}

/// Whether the ignore layers let `t` in, looking from directory `s`; when every
/// layer abstains, it is in.
pub open spec fn entry_included(m: FilterModel, w: World, s: Comps, t: Comps, is_dir: bool) -> bool {
    match composed(m, w, s, t, is_dir) {
        Some(d) => d.spec_include(),
        None => true,
    }
}

/// Whether a recursive walk would descend into directory `d`, its ancestors aside.
pub open spec fn dir_walkable(m: FilterModel, w: World, d: Comps) -> bool {
    if !m.include_hidden && hidden_under(d, m.base) {
        false
    } else if !m.ignore_enabled {
        true
    } else {
        entry_included(m, w, parent_of(d), d, true)
    }
}

/// The directory a walk must enter to meet `p`.
pub open spec fn container_of(p: Comps, is_dir: bool) -> Comps {
    if is_dir {
        p
    } else {
        parent_of(p)
    }
}

/// Every directory strictly below the base, down to `c`, is walkable; where
/// `c` is not under the base nothing is pruned.
pub open spec fn walkable_within(m: FilterModel, w: World, c: Comps) -> bool {
    m.base.is_prefix_of(c) ==> forall|n: int|
        m.base.len() < n <= c.len() ==> dir_walkable(m, w, #[trigger] c.subrange(0, n))
}

/// A walk reaches the container of `p`.
pub open spec fn walkable_to(m: FilterModel, w: World, p: Comps, is_dir: bool) -> bool {
    walkable_within(m, w, container_of(p, is_dir))
}

/// Whether the path `p` is shown.
pub open spec fn decision(m: FilterModel, w: World, p: Comps, is_dir: bool) -> bool {
    if !m.include_hidden && hidden_under(p, m.base) {
        false
    } else if !walkable_to(m, w, p, is_dir) {
        false
    } else if !m.ignore_enabled {
        true
    } else {
        entry_included(m, w, parent_of(p), p, is_dir)
    }
}

} // verus!

verus! {

/// The name of the ignore file of each kind.
pub open spec fn kind_file_name(k: IgnoreKind) -> Seq<char> {
    match k {
        IgnoreKind::FdIgnore => ".fdignore"@,
        IgnoreKind::DotIgnore => ".ignore"@,
        IgnoreKind::GitIgnore => ".gitignore"@,
    }
}

impl IgnoreKind {
    /// The name of this kind's ignore file.
    pub fn file_name(self) -> (r: &'static str)
        ensures
            r@ == kind_file_name(self),
    {
        match self {
            IgnoreKind::FdIgnore => ".fdignore",
            IgnoreKind::DotIgnore => ".ignore",
            IgnoreKind::GitIgnore => ".gitignore",
        }
    }
}

/// The six layers, highest precedence first.
pub open spec fn layers(m: FilterModel, w: World, s: Comps, t: Comps, is_dir: bool) -> Seq<
    Option<IgnoreDecision>,
> {
    seq![
        layer_fd(w, s, t, is_dir),
        layer_dot(w, s, t, is_dir),
        layer_vcs(w, s, t, is_dir),
        layer_exclude(w, s, t, is_dir),
        layer_global_vcs(m, w, s, t, is_dir),
        layer_global_fd(m, t, is_dir),
    ]
}

/// Precedence: the composition is the verdict of the highest layer that does
/// not abstain, whatever the lower layers say; when all abstain, the path is
/// in.
pub proof fn lemma_precedence(m: FilterModel, w: World, s: Comps, t: Comps, is_dir: bool)
    ensures
        forall|i: int|
            0 <= i < 6 && (forall|j: int|
                0 <= j < i ==> (#[trigger] layers(m, w, s, t, is_dir)[j]) is None)
                && layers(m, w, s, t, is_dir)[i] is Some ==> composed(m, w, s, t, is_dir)
                == #[trigger] layers(m, w, s, t, is_dir)[i],
        (forall|j: int| 0 <= j < 6 ==> (#[trigger] layers(m, w, s, t, is_dir)[j]) is None)
            ==> composed(m, w, s, t, is_dir) is None && entry_included(m, w, s, t, is_dir),
{
    let l = layers(m, w, s, t, is_dir);
    assert forall|i: int|
        0 <= i < 6 && (forall|j: int| 0 <= j < i ==> (#[trigger] l[j]) is None)
            && l[i] is Some implies composed(m, w, s, t, is_dir) == #[trigger] l[i] by {
        if i >= 1 {
            assert(l[0] is None);
        }
        if i >= 2 {
            assert(l[1] is None);
        }
        if i >= 3 {
            assert(l[2] is None);
        }
        if i >= 4 {
            assert(l[3] is None);
        }
        if i >= 5 {
            assert(l[4] is None);
        }
    }
    if forall|j: int| 0 <= j < 6 ==> (#[trigger] l[j]) is None {
        assert(l[0] is None && l[1] is None && l[2] is None);
        assert(l[3] is None && l[4] is None && l[5] is None);
    }
}

/// Repository scoping: outside a repository the `.gitignore` files, the
/// info-exclude file and the global VCS matcher all abstain, and only the
/// tool-specific, neutral and global tool-specific layers decide.
pub proof fn lemma_repository_scoping(m: FilterModel, w: World, s: Comps, t: Comps, is_dir: bool)
    requires
        repo_len(w, s) is None,
    ensures
        layer_vcs(w, s, t, is_dir) is None,
        layer_exclude(w, s, t, is_dir) is None,
        layer_global_vcs(m, w, s, t, is_dir) is None,
        composed(m, w, s, t, is_dir) == or_else(
            layer_fd(w, s, t, is_dir),
            or_else(layer_dot(w, s, t, is_dir), layer_global_fd(m, t, is_dir)),
        ),
{
}

/// Pruning soundness: when a directory strictly between the base and `p`
/// would be excluded if asked about as a directory, `p` is excluded too,
/// whatever the ignore rules say of `p` itself.
pub proof fn lemma_pruning(m: FilterModel, w: World, p: Comps, is_dir: bool, n: int)
    requires
        m.base.is_prefix_of(p),
        m.base.len() < n < p.len(),
        !decision(m, w, p.subrange(0, n), true),
    ensures
        !decision(m, w, p, is_dir),
{
    let d = p.subrange(0, n);
    let b = m.base;
    let c = container_of(p, is_dir);
    assert(b.is_prefix_of(d)) by {
        assert(d.subrange(0, b.len() as int) =~= b);
    }
    assert(c.len() >= n);
    assert(b.is_prefix_of(c)) by {
        assert(c.subrange(0, b.len() as int) =~= b);
    }
    if !m.include_hidden && hidden_under(d, b) {
        let i = choose|i: int| b.len() <= i < d.len() && is_hidden_name(#[trigger] d[i]);
        assert(p[i] == d[i]);
        assert(hidden_under(p, b));
    } else if !walkable_to(m, w, d, true) {
        let k = choose|k: int| b.len() < k <= d.len() && !dir_walkable(m, w, #[trigger] d.subrange(0, k));
        assert(d.subrange(0, k) =~= c.subrange(0, k));
        assert(!walkable_to(m, w, p, is_dir));
    } else {
        assert(m.ignore_enabled);
        assert(!dir_walkable(m, w, d));
        assert(d =~= c.subrange(0, n));
        assert(!walkable_to(m, w, p, is_dir));
    }
}

/// A candidate equal to the search base: nothing is hidden below it and its
/// walkability holds trivially.
pub proof fn lemma_base_candidate(m: FilterModel, w: World, is_dir: bool)
    ensures
        !hidden_under(m.base, m.base),
        walkable_to(m, w, m.base, is_dir),
{
    assert(m.base.is_prefix_of(m.base)) by {
        assert(m.base.subrange(0, m.base.len() as int) =~= m.base);
    }
    let c = container_of(m.base, is_dir);
    if !is_dir && m.base.len() > 0 {
        assert(!m.base.is_prefix_of(c));
    }
}

/// A candidate outside the search base: walkability holds by default, every
/// component counts for the hidden predicate, and the ignore layers still
/// apply.
pub proof fn lemma_outside_base(m: FilterModel, w: World, p: Comps, is_dir: bool)
    requires
        !m.base.is_prefix_of(p),
    ensures
        walkable_to(m, w, p, is_dir),
        decision(m, w, p, is_dir) == (!(!m.include_hidden && hidden_from(p, 0)) && (
        !m.ignore_enabled || entry_included(m, w, parent_of(p), p, is_dir))),
{
    let c = container_of(p, is_dir);
    if m.base.is_prefix_of(c) {
        assert(m.base.is_prefix_of(p)) by {
            assert(p.subrange(0, m.base.len() as int) =~= c.subrange(0, m.base.len() as int));
        }
    }
}

} // verus!
