use vstd::prelude::*;

use crate::matcher::{lemma_without_bom_idempotent, without_bom, IgnoreDecision, IgnoreMatcher};
use crate::model::{
    ancestors_verdict, container_of, decision, dir_walkable, entry_included, file_verdict,
    layer_exclude, layer_global_vcs, layer_vcs, matcher_says, or_else, repo_len, vcs_walk,
    walkable_within, FilterModel, IgnoreKind, World,
};
use crate::pathname::{
    any_hidden_between, chars_equal, comps_start_with, comps_view, hidden_below, parent_of,
    path_comps, path_text, prefix_text, split_path, Comps,
};

verus! {

/// The settings of one search.
pub struct FilterConfig {
    /// Working directory of the invocation (absolute).
    pub cwd: String,
    /// Search root; every candidate is expected under it.
    pub search_base: String,
    /// If false, a candidate with a hidden component below the base is excluded.
    pub include_hidden: bool,
    /// If false, ignore files are not read at all (hidden filtering still applies).
    pub ignore_enabled: bool,
}

/// A fact about the filesystem that a decision is waiting for. `node` names
/// the directory inside the filter; hand it back with the answer.
pub enum Probe {
    /// The text of `<dir>/<kind's file name>`, if it is a readable regular file.
    IgnoreFile { dir: String, kind: IgnoreKind, node: usize },
    /// Whether `<dir>/.git/HEAD` is a regular file.
    RepoMarker { dir: String, node: usize },
    /// The text of `<dir>/.git/info/exclude`, if it is a readable regular file.
    InfoExclude { dir: String, node: usize },
}

/// The answer of one decision step.
pub enum Outcome {
    /// The candidate is shown (`true`) or not.
    Decided(bool),
    /// The decision needs this fact first.
    Needs(Probe),
}

/// One directory that the filter has met, with what it knows of it.
struct DirNode {
    name: Vec<char>,
    parent: usize,
    children: Vec<usize>,
    walkable: Option<bool>,
    repo: Option<Option<usize>>,
    head: Option<bool>,
    fd: Option<Option<IgnoreMatcher>>,
    dot: Option<Option<IgnoreMatcher>>,
    vcs: Option<Option<IgnoreMatcher>>,
    exclude: Option<Option<IgnoreMatcher>>,
}

/// The fd-like visibility filter over a flat stream of absolute paths.
///
/// It does not walk the filesystem: it asks for facts (`Probe`) and keeps them,
/// and emulates a walker's pruning by judging every directory between the base
/// and the candidate, caching each judgement.
pub struct Filter {
    cfg: FilterConfig,
    base: Vec<Vec<char>>,
    nodes: Vec<DirNode>,
    global_vcs: IgnoreMatcher,
    global_fd: Option<IgnoreMatcher>,
}

/// The path of node `i`: its parent's path and its name; node 0 is the root.
closed spec fn node_path(nodes: Seq<DirNode>, i: int) -> Comps
    decreases i,
{
    if i <= 0 || i >= nodes.len() {
        seq![]
    } else {
        let par = nodes[i].parent as int;
        if par < i {
            node_path(nodes, par).push(nodes[i].name@)
        } else {
            seq![]
        }
    }
}

/// `b` keeps the names and parents of the nodes of `a`.
closed spec fn same_shape(a: Seq<DirNode>, b: Seq<DirNode>) -> bool {
    &&& a.len() <= b.len()
    &&& forall|j: int|
        #![trigger b[j]]
        0 <= j < a.len() ==> b[j].name@ == a[j].name@ && b[j].parent == a[j].parent
}

proof fn lemma_same_shape_path(a: Seq<DirNode>, b: Seq<DirNode>, i: int)
    requires
        same_shape(a, b),
        0 <= i < a.len(),
    ensures
        node_path(b, i) == node_path(a, i),
    decreases i,
{
    if i > 0 {
        let par = a[i].parent as int;
        assert(b[i].name@ == a[i].name@ && b[i].parent == a[i].parent);
        if par < i {
            lemma_same_shape_path(a, b, par);
        }
    }
}

spec fn matcher_agrees(o: Option<IgnoreMatcher>, text: Option<Seq<char>>, d: Comps) -> bool {
    match o {
        None => text is None,
        Some(m) => text is Some && m.root_text() == path_text(d) && m.pattern_text()
            == without_bom(text->0),
    }
}

spec fn ignore_fact(n: DirNode, k: IgnoreKind) -> Option<Option<IgnoreMatcher>> {
    match k {
        IgnoreKind::FdIgnore => n.fd,
        IgnoreKind::DotIgnore => n.dot,
        IgnoreKind::GitIgnore => n.vcs,
    }
}

spec fn fact_agrees(f: Option<Option<IgnoreMatcher>>, text: Option<Seq<char>>, d: Comps) -> bool {
    f matches Some(o) ==> matcher_agrees(o, text, d)
}

/// What node `n`, at path `d`, knows agrees with the world `w`.
spec fn node_agrees(n: DirNode, d: Comps, w: World) -> bool {
    &&& fact_agrees(n.fd, (w.ignore_text)(IgnoreKind::FdIgnore, d), d)
    &&& fact_agrees(n.dot, (w.ignore_text)(IgnoreKind::DotIgnore, d), d)
    &&& fact_agrees(n.vcs, (w.ignore_text)(IgnoreKind::GitIgnore, d), d)
    &&& (n.head matches Some(b) ==> b == (w.has_head)(d))
    &&& fact_agrees(n.exclude, (w.exclude_text)(d), d)
}

spec fn repo_agrees(r: Option<usize>, x: Option<nat>) -> bool {
    match r {
        Some(n) => x == Some(n as nat),
        None => x is None,
    }
}

/// The cached judgements of node `n`, at path `d`, hold in the world `w`.
spec fn cache_ok(m: FilterModel, w: World, n: DirNode, d: Comps) -> bool {
    &&& (n.walkable matches Some(b) ==> b == dir_walkable(m, w, d))
    &&& (n.repo matches Some(r) ==> repo_agrees(r, repo_len(w, d)))
}

spec fn shape_ok(nodes: Seq<DirNode>) -> bool {
    &&& nodes.len() >= 1
    &&& forall|i: int| 1 <= i < nodes.len() ==> #[trigger] nodes[i].parent < i
    &&& forall|i: int, j: int|
        0 <= i < nodes.len() && 0 <= j < nodes[i].children@.len() ==> {
            let c = #[trigger] nodes[i].children@[j];
            i < c < nodes.len() && nodes[c as int].parent == i
        }
}

/// A cached repository root of node `n`, at path `d`, is `d` or above it.
spec fn repo_fits(n: DirNode, d: Comps) -> bool {
    n.repo matches Some(Some(x)) ==> x <= d.len()
}

spec fn repo_bounded(nodes: Seq<DirNode>) -> bool {
    forall|i: int| 0 <= i < nodes.len() ==> repo_fits(#[trigger] nodes[i], node_path(nodes, i))
}

/// Distinct nodes name distinct directories: each node is listed among its
/// parent's children, and the children of one node have distinct names.
#[verifier::opaque]
spec fn unique_ok(nodes: Seq<DirNode>) -> bool {
    &&& forall|j: int|
        1 <= j < nodes.len() ==> lists_child(nodes[(#[trigger] nodes[j]).parent as int], j)
    &&& forall|i: int| 0 <= i < nodes.len() ==> #[trigger] kids_distinct(nodes, i)
}

/// Node `n` lists node `j` among its children.
spec fn lists_child(n: DirNode, j: int) -> bool {
    exists|k: int| 0 <= k < n.children@.len() && n.children@[k] as int == j
}

/// The children of node `i` have distinct names.
spec fn kids_distinct(nodes: Seq<DirNode>, i: int) -> bool {
    forall|x: int, y: int|
        0 <= x < nodes[i].children@.len() && 0 <= y < nodes[i].children@.len() && x != y
            ==> nodes[(#[trigger] nodes[i].children@[x]) as int].name@ != nodes[(
        #[trigger] nodes[i].children@[y]) as int].name@
}

/// A known matcher of a directory is rooted there and holds its text without
/// byte order marks.
spec fn matcher_fits(f: Option<Option<IgnoreMatcher>>, d: Comps) -> bool {
    f matches Some(Some(m)) ==> m.root_text() == path_text(d) && without_bom(m.pattern_text())
        == m.pattern_text()
}

spec fn node_matchers_fit(n: DirNode, d: Comps) -> bool {
    &&& matcher_fits(n.fd, d)
    &&& matcher_fits(n.dot, d)
    &&& matcher_fits(n.vcs, d)
    &&& matcher_fits(n.exclude, d)
}

#[verifier::opaque]
spec fn matchers_fit(nodes: Seq<DirNode>) -> bool {
    forall|i: int| 0 <= i < nodes.len() ==> node_matchers_fit(#[trigger] nodes[i], node_path(nodes, i))
}

proof fn lemma_unique_kept(a: Seq<DirNode>, b: Seq<DirNode>)
    requires
        unique_ok(a),
        shape_ok(a),
        a.len() == b.len(),
        forall|i: int|
            #![trigger b[i]]
            0 <= i < a.len() ==> b[i].children == a[i].children && b[i].name@ == a[i].name@
                && b[i].parent == a[i].parent,
    ensures
        unique_ok(b),
{
    reveal(unique_ok);
    lemma_unique_parents_kept(a, b);
    lemma_unique_names_kept(a, b);
}

proof fn lemma_unique_parents_kept(a: Seq<DirNode>, b: Seq<DirNode>)
    requires
        unique_ok(a),
        shape_ok(a),
        a.len() == b.len(),
        forall|i: int|
            #![trigger b[i]]
            0 <= i < a.len() ==> b[i].children == a[i].children && b[i].name@ == a[i].name@
                && b[i].parent == a[i].parent,
    ensures
        forall|j: int|
            1 <= j < b.len() ==> lists_child(b[(#[trigger] b[j]).parent as int], j),
{
    reveal(unique_ok);
    assert forall|j: int| 1 <= j < b.len() implies lists_child(b[(#[trigger] b[j]).parent as int], j) by {
        let par = a[j].parent as int;
        assert(b[j].parent == a[j].parent);
        assert(par < j);
        assert(lists_child(a[par], j));
        assert(b[par].children == a[par].children);
    }
}

proof fn lemma_unique_names_kept(a: Seq<DirNode>, b: Seq<DirNode>)
    requires
        unique_ok(a),
        shape_ok(a),
        a.len() == b.len(),
        forall|i: int|
            #![trigger b[i]]
            0 <= i < a.len() ==> b[i].children == a[i].children && b[i].name@ == a[i].name@
                && b[i].parent == a[i].parent,
    ensures
        forall|i: int| 0 <= i < b.len() ==> #[trigger] kids_distinct(b, i),
{
    reveal(unique_ok);
    assert forall|i: int| 0 <= i < b.len() implies #[trigger] kids_distinct(b, i) by {
        assert(kids_distinct(a, i));
        assert(b[i].children == a[i].children);
        assert forall|x: int, y: int|
            0 <= x < b[i].children@.len() && 0 <= y < b[i].children@.len() && x != y implies b[(
            #[trigger] b[i].children@[x]) as int].name@ != b[(
        #[trigger] b[i].children@[y]) as int].name@ by {
            let cx = a[i].children@[x] as int;
            let cy = a[i].children@[y] as int;
            assert(a[cx].name@ != a[cy].name@);
            assert(i < cx < a.len());
            assert(i < cy < a.len());
            assert(b[cx].name@ == a[cx].name@);
            assert(b[cy].name@ == a[cy].name@);
        }
    }
}

/// Adding a child of `cur` whose name no child of `cur` has keeps node paths
/// distinct.
proof fn lemma_unique_grown(before: Seq<DirNode>, now: Seq<DirNode>, cur: int, name: Seq<char>)
    requires
        unique_ok(before),
        shape_ok(before),
        0 <= cur < before.len(),
        before.len() <= usize::MAX,
        now.len() == before.len() + 1,
        forall|i: int| #![trigger now[i]] 0 <= i < before.len() && i != cur ==> now[i] == before[i],
        now[cur].name@ == before[cur].name@,
        now[cur].parent == before[cur].parent,
        now[cur].children@ == before[cur].children@.push(before.len() as usize),
        now[before.len() as int].parent == cur,
        now[before.len() as int].name@ == name,
        now[before.len() as int].children@.len() == 0,
        forall|j: int|
            0 <= j < before[cur].children@.len() ==> before[(
            #[trigger] before[cur].children@[j]) as int].name@ != name,
    ensures
        unique_ok(now),
{
    reveal(unique_ok);
    lemma_grown_parents(before, now, cur, name);
    lemma_grown_names(before, now, cur, name);
}

proof fn lemma_grown_parents(before: Seq<DirNode>, now: Seq<DirNode>, cur: int, name: Seq<char>)
    requires
        unique_ok(before),
        shape_ok(before),
        0 <= cur < before.len(),
        before.len() <= usize::MAX,
        now.len() == before.len() + 1,
        forall|i: int| #![trigger now[i]] 0 <= i < before.len() && i != cur ==> now[i] == before[i],
        now[cur].name@ == before[cur].name@,
        now[cur].parent == before[cur].parent,
        now[cur].children@ == before[cur].children@.push(before.len() as usize),
        now[before.len() as int].parent == cur,
        now[before.len() as int].name@ == name,
        now[before.len() as int].children@.len() == 0,
        forall|j: int|
            0 <= j < before[cur].children@.len() ==> before[(
            #[trigger] before[cur].children@[j]) as int].name@ != name,
    ensures
        forall|j: int|
            1 <= j < now.len() ==> lists_child(now[(#[trigger] now[j]).parent as int], j),
{
    reveal(unique_ok);
    let id = before.len() as int;
    assert forall|j: int| 1 <= j < now.len() implies lists_child(now[(#[trigger] now[j]).parent as int], j) by {
        if j == id {
            assert(now[cur].children@[now[cur].children@.len() - 1] == j as usize);
        } else {
            let par = before[j].parent as int;
            assert(now[j] == before[j] || j == cur);
            assert(lists_child(before[par], j));
            let x = choose|x: int|
                0 <= x < before[par].children@.len() && before[par].children@[x] == j as usize;
            if par == cur {
                assert(now[cur].children@[x] == j as usize);
            } else {
                assert(now[par] == before[par]);
            }
        }
    }
}

proof fn lemma_grown_names(before: Seq<DirNode>, now: Seq<DirNode>, cur: int, name: Seq<char>)
    requires
        unique_ok(before),
        shape_ok(before),
        0 <= cur < before.len(),
        before.len() <= usize::MAX,
        now.len() == before.len() + 1,
        forall|i: int| #![trigger now[i]] 0 <= i < before.len() && i != cur ==> now[i] == before[i],
        now[cur].name@ == before[cur].name@,
        now[cur].parent == before[cur].parent,
        now[cur].children@ == before[cur].children@.push(before.len() as usize),
        now[before.len() as int].parent == cur,
        now[before.len() as int].name@ == name,
        now[before.len() as int].children@.len() == 0,
        forall|j: int|
            0 <= j < before[cur].children@.len() ==> before[(
            #[trigger] before[cur].children@[j]) as int].name@ != name,
    ensures
        forall|i: int| 0 <= i < now.len() ==> #[trigger] kids_distinct(now, i),
{
    reveal(unique_ok);
    let id = before.len() as int;
    assert forall|i: int| 0 <= i < now.len() implies #[trigger] kids_distinct(now, i) by {
        if i == id {
        } else if i == cur {
            assert(kids_distinct(before, cur));
            lemma_grown_names_cur(before, now, cur, name);
        } else {
            assert(now[i] == before[i]);
            assert(kids_distinct(before, i));
            assert forall|x: int, y: int|
                0 <= x < now[i].children@.len() && 0 <= y < now[i].children@.len() && x != y implies now[(
                #[trigger] now[i].children@[x]) as int].name@ != now[(
            #[trigger] now[i].children@[y]) as int].name@ by {
                let cx = before[i].children@[x] as int;
                let cy = before[i].children@[y] as int;
                assert(i < cx < before.len() && i < cy < before.len());
                assert(before[cx].name@ != before[cy].name@);
                if cx != cur {
                    assert(now[cx] == before[cx]);
                }
                if cy != cur {
                    assert(now[cy] == before[cy]);
                }
            }
        }
    }
}

proof fn lemma_grown_names_cur(before: Seq<DirNode>, now: Seq<DirNode>, cur: int, name: Seq<char>)
    requires
        0 <= cur < before.len(),
        before.len() <= usize::MAX,
        now.len() == before.len() + 1,
        kids_distinct(before, cur),
        forall|x: int|
            0 <= x < before[cur].children@.len() ==> cur < #[trigger] before[cur].children@[x]
                < before.len(),
        forall|i: int| #![trigger now[i]] 0 <= i < before.len() && i != cur ==> now[i] == before[i],
        now[cur].children@ == before[cur].children@.push(before.len() as usize),
        now[before.len() as int].name@ == name,
        forall|j: int|
            0 <= j < before[cur].children@.len() ==> before[(
            #[trigger] before[cur].children@[j]) as int].name@ != name,
    ensures
        kids_distinct(now, cur),
{
    let id = before.len() as int;
    let last = before[cur].children@.len() as int;
    assert(kids_distinct(before, cur));
    assert forall|x: int, y: int|
        0 <= x < now[cur].children@.len() && 0 <= y < now[cur].children@.len() && x != y implies now[(
        #[trigger] now[cur].children@[x]) as int].name@ != now[(
    #[trigger] now[cur].children@[y]) as int].name@ by {
        let cx = now[cur].children@[x] as int;
        let cy = now[cur].children@[y] as int;
        if x < last {
            assert(cx == before[cur].children@[x]);
            assert(cur < cx < before.len());
            assert(now[cx] == before[cx]);
        } else {
            assert(x == last);
            assert(before[cur].children@.push(before.len() as usize)[last] == before.len() as usize);
            assert(cx == id);
        }
        if y < last {
            assert(cy == before[cur].children@[y]);
            assert(cur < cy < before.len());
            assert(now[cy] == before[cy]);
        } else {
            assert(y == last);
            assert(before[cur].children@.push(before.len() as usize)[last] == before.len() as usize);
            assert(cy == id);
        }
        if x < last && y < last {
            assert(before[before[cur].children@[x] as int].name@ != before[before[cur].children@[y]
                as int].name@);
        }
    }
}

impl Filter {
    /// The settings and global matchers the decisions depend on.
    pub closed spec fn model(&self) -> FilterModel {
        FilterModel {
            base: path_comps(self.cfg.search_base@),
            include_hidden: self.cfg.include_hidden,
            ignore_enabled: self.cfg.ignore_enabled,
            global_vcs: self.global_vcs,
            global_fd: self.global_fd,
        }
    }

    /// The filesystem facts the filter has been told agree with `w`.
    pub closed spec fn agrees(&self, w: World) -> bool {
        forall|i: int|
            0 <= i < self.nodes@.len() ==> node_agrees(
                #[trigger] self.nodes@[i],
                node_path(self.nodes@, i),
                w,
            )
    }

    closed spec fn caches_hold(&self, w: World) -> bool {
        forall|i: int|
            0 <= i < self.nodes@.len() ==> cache_ok(
                self.model(),
                w,
                #[trigger] self.nodes@[i],
                node_path(self.nodes@, i),
            )
    }

    /// The filter's internal consistency.
    pub closed spec fn wf(&self) -> bool {
        &&& comps_view(self.base@) == path_comps(self.cfg.search_base@)
        &&& shape_ok(self.nodes@)
        &&& repo_bounded(self.nodes@)
        &&& unique_ok(self.nodes@)
        &&& matchers_fit(self.nodes@)
        &&& forall|w: World| #[trigger] self.agrees(w) ==> self.caches_hold(w)
    }

    /// Node `node` names a directory, whose path is `dir`.
    pub closed spec fn names_dir(&self, node: usize, dir: Comps) -> bool {
        &&& node < self.nodes@.len()
        &&& node_path(self.nodes@, node as int) == dir
    }

    /// The fact that `p` asks for is not known yet, and `p` names its directory
    /// and that directory's text.
    pub closed spec fn asks_unknown(&self, p: Probe) -> bool {
        match p {
            Probe::IgnoreFile { dir, kind, node } => node < self.nodes@.len() && ignore_fact(
                self.nodes@[node as int],
                kind,
            ) is None && dir@ == path_text(node_path(self.nodes@, node as int)),
            Probe::RepoMarker { dir, node } => node < self.nodes@.len()
                && self.nodes@[node as int].head is None && dir@ == path_text(
                node_path(self.nodes@, node as int),
            ),
            Probe::InfoExclude { dir, node } => node < self.nodes@.len()
                && self.nodes@[node as int].exclude is None && dir@ == path_text(
                node_path(self.nodes@, node as int),
            ),
        }
    }

    /// A filter that knows nothing of the filesystem yet.
    pub fn new(
        cfg: FilterConfig,
        global_gitignore: IgnoreMatcher,
        global_fd_ignore: Option<IgnoreMatcher>,
    ) -> (r: Filter)
        ensures
            r.wf(),
            r.model() == (FilterModel {
                base: path_comps(cfg.search_base@),
                include_hidden: cfg.include_hidden,
                ignore_enabled: cfg.ignore_enabled,
                global_vcs: global_gitignore,
                global_fd: global_fd_ignore,
            }),
            forall|w: World| #[trigger] r.agrees(w),
    {
        let base = split_path(cfg.search_base.as_str());
        let mut nodes: Vec<DirNode> = Vec::new();
        nodes.push(DirNode::fresh(Vec::new(), 0));
        let r = Filter { cfg, base, nodes, global_vcs: global_gitignore, global_fd: global_fd_ignore };
        assert(unique_ok(r.nodes@) && matchers_fit(r.nodes@)) by {
            reveal(unique_ok);
            reveal(matchers_fit);
            assert(r.nodes@.len() == 1);
        }
        assert forall|w: World| #[trigger] r.agrees(w) && r.caches_hold(w) by {
            assert(r.nodes@.len() == 1);
            assert(node_path(r.nodes@, 0) == Seq::<Seq<char>>::empty());
        }
        r
    }
}

/// `b` keeps the facts and judgements of the nodes of `a`, and its further
/// nodes know nothing yet.
closed spec fn facts_kept(a: Seq<DirNode>, b: Seq<DirNode>) -> bool {
    &&& same_shape(a, b)
    &&& forall|j: int|
        #![trigger b[j]]
        0 <= j < a.len() ==> b[j].walkable == a[j].walkable && b[j].repo == a[j].repo
            && b[j].head == a[j].head && b[j].fd == a[j].fd && b[j].dot == a[j].dot && b[j].vcs
            == a[j].vcs && b[j].exclude == a[j].exclude
    &&& forall|j: int| #![trigger b[j]] a.len() <= j < b.len() ==> knows_nothing(b[j])
}

closed spec fn knows_nothing(n: DirNode) -> bool {
    &&& n.walkable is None
    &&& n.repo is None
    &&& n.head is None
    &&& n.fd is None
    &&& n.dot is None
    &&& n.vcs is None
    &&& n.exclude is None
}

impl Filter {
    proof fn lemma_facts_kept(old_f: &Filter, new_f: &Filter)
        requires
            facts_kept(old_f.nodes@, new_f.nodes@),
            old_f.model() == new_f.model(),
        ensures
            forall|w: World| #[trigger] new_f.agrees(w) == old_f.agrees(w),
            forall|w: World| old_f.caches_hold(w) ==> #[trigger] new_f.caches_hold(w),
            repo_bounded(old_f.nodes@) ==> repo_bounded(new_f.nodes@),
            matchers_fit(old_f.nodes@) ==> matchers_fit(new_f.nodes@),
    {
        assert forall|i: int| 0 <= i < old_f.nodes@.len() implies node_path(new_f.nodes@, i)
            == node_path(old_f.nodes@, i) by {
            lemma_same_shape_path(old_f.nodes@, new_f.nodes@, i);
        }
        if matchers_fit(old_f.nodes@) {
            reveal(matchers_fit);
            assert forall|i: int| 0 <= i < new_f.nodes@.len() implies node_matchers_fit(
                #[trigger] new_f.nodes@[i],
                node_path(new_f.nodes@, i),
            ) by {
                if i < old_f.nodes@.len() {
                    assert(node_matchers_fit(old_f.nodes@[i], node_path(old_f.nodes@, i)));
                } else {
                    assert(knows_nothing(new_f.nodes@[i]));
                }
            }
        }
        if repo_bounded(old_f.nodes@) {
            assert forall|i: int| 0 <= i < new_f.nodes@.len() implies repo_fits(
                #[trigger] new_f.nodes@[i],
                node_path(new_f.nodes@, i),
            ) by {
                if i < old_f.nodes@.len() {
                    assert(old_f.nodes@[i].repo == new_f.nodes@[i].repo);
                } else {
                    assert(knows_nothing(new_f.nodes@[i]));
                }
            }
        }
        assert forall|w: World| #[trigger] new_f.agrees(w) == old_f.agrees(w) by {
            if old_f.agrees(w) {
                assert forall|i: int| 0 <= i < new_f.nodes@.len() implies node_agrees(
                    #[trigger] new_f.nodes@[i],
                    node_path(new_f.nodes@, i),
                    w,
                ) by {
                    if i < old_f.nodes@.len() {
                        assert(node_agrees(old_f.nodes@[i], node_path(old_f.nodes@, i), w));
                    }
                }
            }
            if new_f.agrees(w) {
                assert forall|i: int| 0 <= i < old_f.nodes@.len() implies node_agrees(
                    #[trigger] old_f.nodes@[i],
                    node_path(old_f.nodes@, i),
                    w,
                ) by {
                    assert(node_agrees(new_f.nodes@[i], node_path(new_f.nodes@, i), w));
                }
            }
        }
        assert forall|w: World| old_f.caches_hold(w) implies #[trigger] new_f.caches_hold(w) by {
            assert forall|i: int| 0 <= i < new_f.nodes@.len() implies cache_ok(
                new_f.model(),
                w,
                #[trigger] new_f.nodes@[i],
                node_path(new_f.nodes@, i),
            ) by {
                if i < old_f.nodes@.len() {
                    assert(cache_ok(old_f.model(), w, old_f.nodes@[i], node_path(old_f.nodes@, i)));
                }
            }
        }
    }

    /// The child of `parent` named `name`, if the filter has met it.
    fn find_child(&self, parent: usize, name: &Vec<char>) -> (r: Option<usize>)
        requires
            shape_ok(self.nodes@),
            parent < self.nodes@.len(),
        ensures
            r matches Some(c) ==> c < self.nodes@.len() && node_path(self.nodes@, c as int)
                == node_path(self.nodes@, parent as int).push(name@),
            r is None ==> forall|j: int|
                0 <= j < self.nodes@[parent as int].children@.len() ==> self.nodes@[(
                #[trigger] self.nodes@[parent as int].children@[j]) as int].name@ != name@,
    {
        let kids = &self.nodes[parent].children;
        let mut j: usize = 0;
        while j < kids.len()
            invariant
                shape_ok(self.nodes@),
                parent < self.nodes@.len(),
                *kids == self.nodes@[parent as int].children,
                forall|x: int|
                    0 <= x < j ==> self.nodes@[(#[trigger] self.nodes@[parent as int].children@[x]) as int].name@
                        != name@,
            decreases kids.len() - j,
        {
            let c = kids[j];
            assert(parent < c < self.nodes@.len() && self.nodes@[c as int].parent == parent) by {
                assert(self.nodes@[parent as int].children@[j as int] == c);
            }
            if chars_equal(&self.nodes[c].name, name) {
                return Some(c);
            }
            j += 1;
        }
        None
    }

    /// The nodes of the first `len` prefixes of `p`, from the root down; the
    /// directories not met before are added, knowing nothing.
    fn locate(&mut self, p: &Vec<Vec<char>>, len: usize) -> (chain: Vec<usize>)
        requires
            old(self).wf(),
            len <= p@.len(),
        ensures
            final(self).wf(),
            final(self).model() == old(self).model(),
            final(self).cfg == old(self).cfg,
            facts_kept(old(self).nodes@, final(self).nodes@),
            forall|w: World| #[trigger] final(self).agrees(w) == old(self).agrees(w),
            chain@.len() == len + 1,
            forall|k: int|
                0 <= k <= len ==> final(self).names_dir(
                    #[trigger] chain@[k],
                    comps_view(p@).subrange(0, k),
                ),
    {
        let ghost start = *self;
        let mut chain: Vec<usize> = Vec::new();
        chain.push(0);
        let mut cur: usize = 0;
        let mut k: usize = 0;
        assert(node_path(self.nodes@, 0) =~= comps_view(p@).subrange(0, 0));
        while k < len
            invariant
                len <= p@.len(),
                k <= len,
                shape_ok(self.nodes@),
                self.cfg == start.cfg,
                self.base == start.base,
                self.global_vcs == start.global_vcs,
                self.global_fd == start.global_fd,
                facts_kept(start.nodes@, self.nodes@),
                unique_ok(self.nodes@),
                chain@.len() == k + 1,
                cur == chain@[k as int],
                forall|i: int|
                    0 <= i <= k ==> self.names_dir(
                        #[trigger] chain@[i],
                        comps_view(p@).subrange(0, i),
                    ),
            decreases len - k,
        {
            let ghost before = self.nodes@;
            let ghost want = comps_view(p@).subrange(0, k as int + 1);
            assert(want == comps_view(p@).subrange(0, k as int).push(p@[k as int]@)) by {
                assert(want =~= comps_view(p@).subrange(0, k as int).push(p@[k as int]@));
            }
            let next = match self.find_child(cur, &p[k]) {
                Some(c) => c,
                None => {
                    let id = self.nodes.len();
                    let name = copy_chars(&p[k]);
                    self.nodes.push(DirNode::fresh(name, cur));
                    self.nodes[cur].children.push(id);
                    proof {
                        let now = self.nodes@;
                        assert(same_shape(before, now));
                        assert forall|i: int| 0 <= i < before.len() implies node_path(now, i)
                            == node_path(before, i) by {
                            lemma_same_shape_path(before, now, i);
                        }
                        assert(shape_ok(now)) by {
                            assert forall|i: int, j: int|
                                0 <= i < now.len() && 0 <= j < now[i].children@.len() implies {
                                let c = #[trigger] now[i].children@[j];
                                i < c < now.len() && now[c as int].parent == i
                            } by {
                                if i == cur && j == now[i].children@.len() - 1 {
                                } else {
                                    assert(now[i].children@[j] == before[i].children@[j]);
                                }
                            }
                        }
                        assert(node_path(now, id as int) == node_path(now, cur as int).push(
                            p@[k as int]@,
                        ));
                        assert(unique_ok(now)) by {
                            lemma_unique_grown(before, now, cur as int, p@[k as int]@);
                        }
                        assert(facts_kept(start.nodes@, now)) by {
                            assert forall|j: int|
                                #![trigger now[j]]
                                start.nodes@.len() <= j < now.len() implies knows_nothing(now[j]) by {
                                if j < before.len() {
                                    assert(knows_nothing(before[j]));
                                }
                            }
                        }
                    }
                    id
                },
            };
            chain.push(next);
            cur = next;
            k += 1;
        }
        proof {
            Filter::lemma_facts_kept(&start, self);
        }
        chain
    }
}

/// The view of an optional text.
pub open spec fn text_view(t: Option<String>) -> Option<Seq<char>> {
    match t {
        Some(s) => Some(s@),
        None => None,
    }
}

impl Filter {
    /// `node` names a directory of this filter.
    pub closed spec fn has_node(&self, node: usize) -> bool {
        node < self.nodes@.len()
    }

    /// The path of the directory that `node` names.
    pub closed spec fn dir_of(&self, node: usize) -> Comps {
        node_path(self.nodes@, node as int)
    }

    proof fn lemma_one_node(old_f: &Filter, new_f: &Filter, node: int)
        requires
            old_f.model() == new_f.model(),
            old_f.nodes@.len() == new_f.nodes@.len(),
            0 <= node < old_f.nodes@.len(),
            same_shape(old_f.nodes@, new_f.nodes@),
            forall|j: int|
                0 <= j < old_f.nodes@.len() && j != node ==> #[trigger] new_f.nodes@[j]
                    == old_f.nodes@[j],
            new_f.nodes@[node].children == old_f.nodes@[node].children,
            forall|w: World|
                #[trigger] node_agrees(new_f.nodes@[node], node_path(old_f.nodes@, node), w)
                    ==> node_agrees(old_f.nodes@[node], node_path(old_f.nodes@, node), w),
        ensures
            shape_ok(old_f.nodes@) ==> shape_ok(new_f.nodes@),
            forall|w: World| #[trigger] new_f.agrees(w) ==> old_f.agrees(w),
            forall|w: World|
                old_f.agrees(w) && node_agrees(
                    new_f.nodes@[node],
                    node_path(old_f.nodes@, node),
                    w,
                ) ==> #[trigger] new_f.agrees(w),
            forall|w: World|
                new_f.nodes@[node].walkable == old_f.nodes@[node].walkable
                    && new_f.nodes@[node].repo == old_f.nodes@[node].repo ==> #[trigger] new_f.caches_hold(w)
                    == old_f.caches_hold(w),
            forall|w: World|
                old_f.caches_hold(w) && cache_ok(
                    new_f.model(),
                    w,
                    new_f.nodes@[node],
                    node_path(old_f.nodes@, node),
                ) ==> #[trigger] new_f.caches_hold(w),
            repo_bounded(old_f.nodes@) && repo_fits(new_f.nodes@[node], node_path(old_f.nodes@, node))
                ==> repo_bounded(new_f.nodes@),
            forall|i: int| 0 <= i < old_f.nodes@.len() ==> #[trigger] node_path(new_f.nodes@, i) == node_path(old_f.nodes@, i),
            unique_ok(old_f.nodes@) && shape_ok(old_f.nodes@) ==> unique_ok(new_f.nodes@),
            matchers_fit(old_f.nodes@) && (node_matchers_fit(
                new_f.nodes@[node],
                node_path(old_f.nodes@, node),
            ) || (new_f.nodes@[node].fd == old_f.nodes@[node].fd && new_f.nodes@[node].dot
                == old_f.nodes@[node].dot && new_f.nodes@[node].vcs == old_f.nodes@[node].vcs
                && new_f.nodes@[node].exclude == old_f.nodes@[node].exclude)) ==> matchers_fit(
                new_f.nodes@,
            ),
    {
        let a = old_f.nodes@;
        let b = new_f.nodes@;
        assert forall|i: int| 0 <= i < a.len() implies #[trigger] b[i].children == a[i].children && b[i].name@ == a[i].name@ by {
            if i != node {
                assert(b[i] == a[i]);
            }
        }
        if unique_ok(a) && shape_ok(a) {
            lemma_unique_kept(a, b);
        }
        if matchers_fit(a) && (node_matchers_fit(b[node], node_path(a, node)) || (b[node].fd
            == a[node].fd && b[node].dot == a[node].dot && b[node].vcs == a[node].vcs
            && b[node].exclude == a[node].exclude)) {
            reveal(matchers_fit);
            assert(node_matchers_fit(a[node], node_path(a, node)));
            assert forall|i: int| 0 <= i < b.len() implies node_matchers_fit(
                #[trigger] b[i],
                node_path(b, i),
            ) by {
                lemma_same_shape_path(a, b, i);
                if i != node {
                    assert(a[i] == b[i]);
                }
            }
        }
        if repo_bounded(a) && repo_fits(b[node], node_path(a, node)) {
            assert forall|i: int| 0 <= i < b.len() implies repo_fits(
                #[trigger] b[i],
                node_path(b, i),
            ) by {
                lemma_same_shape_path(a, b, i);
                if i != node {
                    assert(a[i] == b[i]);
                }
            }
        }
        assert forall|i: int| 0 <= i < a.len() implies node_path(b, i) == node_path(a, i) by {
            lemma_same_shape_path(a, b, i);
        }
        if shape_ok(a) {
            assert forall|i: int, j: int|
                0 <= i < b.len() && 0 <= j < b[i].children@.len() implies {
                let c = #[trigger] b[i].children@[j];
                i < c < b.len() && b[c as int].parent == i
            } by {
                assert(b[i].children == a[i].children);
                let c = a[i].children@[j];
                assert(b[c as int].parent == a[c as int].parent);
            }
            assert forall|i: int| 1 <= i < b.len() implies #[trigger] b[i].parent < i by {
                assert(b[i].parent == a[i].parent);
            }
        }
        assert forall|w: World| #[trigger] new_f.agrees(w) implies old_f.agrees(w) by {
            assert forall|i: int| 0 <= i < a.len() implies node_agrees(
                #[trigger] a[i],
                node_path(a, i),
                w,
            ) by {
                assert(node_agrees(b[i], node_path(b, i), w));
            }
        }
        assert forall|w: World|
            old_f.agrees(w) && node_agrees(
                b[node],
                node_path(a, node),
                w,
            ) implies #[trigger] new_f.agrees(w) by {
            assert forall|i: int| 0 <= i < b.len() implies node_agrees(
                #[trigger] b[i],
                node_path(b, i),
                w,
            ) by {
                if i != node {
                    assert(node_agrees(a[i], node_path(a, i), w));
                }
            }
        }
        assert forall|w: World|
            b[node].walkable == a[node].walkable && b[node].repo == a[node].repo implies #[trigger] new_f.caches_hold(w)
            == old_f.caches_hold(w) by {
            if new_f.caches_hold(w) {
                assert forall|i: int| 0 <= i < a.len() implies cache_ok(
                    old_f.model(),
                    w,
                    #[trigger] a[i],
                    node_path(a, i),
                ) by {
                    assert(cache_ok(new_f.model(), w, b[i], node_path(b, i)));
                }
            }
            if old_f.caches_hold(w) {
                assert forall|i: int| 0 <= i < b.len() implies cache_ok(
                    new_f.model(),
                    w,
                    #[trigger] b[i],
                    node_path(b, i),
                ) by {
                    assert(cache_ok(old_f.model(), w, a[i], node_path(a, i)));
                }
            }
        }
        assert forall|w: World|
            old_f.caches_hold(w) && cache_ok(
                new_f.model(),
                w,
                b[node],
                node_path(a, node),
            ) implies #[trigger] new_f.caches_hold(w) by {
            assert forall|i: int| 0 <= i < b.len() implies cache_ok(
                new_f.model(),
                w,
                #[trigger] b[i],
                node_path(b, i),
            ) by {
                if i != node {
                    assert(cache_ok(old_f.model(), w, a[i], node_path(a, i)));
                }
            }
        }
    }

    /// The components of the directory that `node` names.
    fn node_comps(&self, node: usize) -> (r: Vec<Vec<char>>)
        requires
            shape_ok(self.nodes@),
            node < self.nodes@.len(),
        ensures
            comps_view(r@) == node_path(self.nodes@, node as int),
        decreases node,
    {
        if node == 0 {
            let r: Vec<Vec<char>> = Vec::new();
            assert(comps_view(r@) =~= Seq::<Seq<char>>::empty());
            return r;
        }
        let par = self.nodes[node].parent;
        let mut r = self.node_comps(par);
        let name = copy_chars(&self.nodes[node].name);
        proof {
            assert(comps_view(r@.push(name)) =~= comps_view(r@).push(name@));
        }
        r.push(name);
        r
    }

    /// The absolute text of the directory that `node` names.
    fn node_text(&self, node: usize) -> (r: String)
        requires
            shape_ok(self.nodes@),
            node < self.nodes@.len(),
        ensures
            r@ == path_text(node_path(self.nodes@, node as int)),
    {
        let comps = self.node_comps(node);
        assert(comps_view(comps@).subrange(0, comps@.len() as int) =~= comps_view(comps@));
        prefix_text(&comps, comps.len())
    }

    /// Records the text of the ignore file of `kind` in the directory that
    /// `node` names (`None`: no readable regular file there). A fact already
    /// known, or a node the filter does not have, leaves the filter unchanged.
    pub fn learn_ignore_file(&mut self, node: usize, kind: IgnoreKind, text: Option<String>)
        requires
            old(self).wf(),
        ensures
            final(self).wf(),
            final(self).model() == old(self).model(),
            forall|w: World| #[trigger] final(self).agrees(w) ==> old(self).agrees(w),
            forall|w: World|
                old(self).agrees(w) && (old(self).has_node(node) ==> (w.ignore_text)(
                    kind,
                    old(self).dir_of(node),
                ) == text_view(text)) ==> #[trigger] final(self).agrees(w),
            old(self).has_node(node) ==> forall|dir: String|
                !#[trigger] final(self).asks_unknown(Probe::IgnoreFile { dir, kind, node }),
            forall|n: usize|
                #[trigger] final(self).has_node(n) == old(self).has_node(n) && final(self).dir_of(n)
                    == old(self).dir_of(n),
    {
        if node >= self.nodes.len() {
            return;
        }
        let known = match kind {
            IgnoreKind::FdIgnore => self.nodes[node].fd.is_some(),
            IgnoreKind::DotIgnore => self.nodes[node].dot.is_some(),
            IgnoreKind::GitIgnore => self.nodes[node].vcs.is_some(),
        };
        if known {
            return;
        }
        let ghost old_f = *self;
        let ghost d = node_path(self.nodes@, node as int);
        let ghost tv = text_view(text);
        let compiled = match text {
            Some(t) => {
                let root = self.node_text(node);
                Some(IgnoreMatcher::from_text(root.as_str(), t.as_str()))
            },
            None => None,
        };
        assert(matcher_agrees(compiled, tv, d));
        match kind {
            IgnoreKind::FdIgnore => self.nodes[node].fd = Some(compiled),
            IgnoreKind::DotIgnore => self.nodes[node].dot = Some(compiled),
            IgnoreKind::GitIgnore => self.nodes[node].vcs = Some(compiled),
        }
        proof {
            assert(node_matchers_fit(self.nodes@[node as int], d)) by {
                reveal(matchers_fit);
                assert(node_matchers_fit(old_f.nodes@[node as int], d));
                if tv is Some {
                    lemma_without_bom_idempotent(tv->0);
                }
            }
            Filter::lemma_one_node(&old_f, self, node as int);
        }
    }

    /// Records whether `<dir>/.git/HEAD` is a regular file, for the directory
    /// that `node` names. A fact already known, or a node the filter does not
    /// have, leaves the filter unchanged.
    pub fn learn_repo_marker(&mut self, node: usize, present: bool)
        requires
            old(self).wf(),
        ensures
            final(self).wf(),
            final(self).model() == old(self).model(),
            forall|w: World| #[trigger] final(self).agrees(w) ==> old(self).agrees(w),
            forall|w: World|
                old(self).agrees(w) && (old(self).has_node(node) ==> (w.has_head)(
                    old(self).dir_of(node),
                ) == present) ==> #[trigger] final(self).agrees(w),
            old(self).has_node(node) ==> forall|dir: String|
                !#[trigger] final(self).asks_unknown(Probe::RepoMarker { dir, node }),
            forall|n: usize|
                #[trigger] final(self).has_node(n) == old(self).has_node(n) && final(self).dir_of(n)
                    == old(self).dir_of(n),
    {
        if node >= self.nodes.len() || self.nodes[node].head.is_some() {
            return;
        }
        let ghost old_f = *self;
        self.nodes[node].head = Some(present);
        proof {
            Filter::lemma_one_node(&old_f, self, node as int);
        }
    }

    /// Records the text of `<dir>/.git/info/exclude` (`None`: no readable
    /// regular file there), for the directory that `node` names. A fact already
    /// known, or a node the filter does not have, leaves the filter unchanged.
    pub fn learn_info_exclude(&mut self, node: usize, text: Option<String>)
        requires
            old(self).wf(),
        ensures
            final(self).wf(),
            final(self).model() == old(self).model(),
            forall|w: World| #[trigger] final(self).agrees(w) ==> old(self).agrees(w),
            forall|w: World|
                old(self).agrees(w) && (old(self).has_node(node) ==> (w.exclude_text)(
                    old(self).dir_of(node),
                ) == text_view(text)) ==> #[trigger] final(self).agrees(w),
            old(self).has_node(node) ==> forall|dir: String|
                !#[trigger] final(self).asks_unknown(Probe::InfoExclude { dir, node }),
            forall|n: usize|
                #[trigger] final(self).has_node(n) == old(self).has_node(n) && final(self).dir_of(n)
                    == old(self).dir_of(n),
    {
        if node >= self.nodes.len() || self.nodes[node].exclude.is_some() {
            return;
        }
        let ghost old_f = *self;
        let ghost d = node_path(self.nodes@, node as int);
        let ghost tv = text_view(text);
        let compiled = match text {
            Some(t) => {
                let root = self.node_text(node);
                Some(IgnoreMatcher::from_text(root.as_str(), t.as_str()))
            },
            None => None,
        };
        assert(matcher_agrees(compiled, tv, d));
        self.nodes[node].exclude = Some(compiled);
        proof {
            assert(node_matchers_fit(self.nodes@[node as int], d)) by {
                reveal(matchers_fit);
                assert(node_matchers_fit(old_f.nodes@[node as int], d));
                if tv is Some {
                    lemma_without_bom_idempotent(tv->0);
                }
            }
            Filter::lemma_one_node(&old_f, self, node as int);
        }
    }
}

/// The first `n` components of `p`.
spec fn pre(p: Seq<Vec<char>>, n: int) -> Comps {
    comps_view(p).subrange(0, n)
}

/// `b` differs from `a` in cached judgements at most.
closed spec fn caches_only(a: Seq<DirNode>, b: Seq<DirNode>) -> bool {
    &&& a.len() == b.len()
    &&& forall|j: int|
        #![trigger b[j]]
        0 <= j < a.len() ==> b[j].name@ == a[j].name@ && b[j].parent == a[j].parent
            && b[j].children == a[j].children && b[j].head == a[j].head && b[j].fd == a[j].fd
            && b[j].dot == a[j].dot && b[j].vcs == a[j].vcs && b[j].exclude == a[j].exclude
}

impl Filter {
    /// `chain` holds the nodes of the prefixes of `p` up to length `upto`.
    closed spec fn chain_ok(&self, p: Seq<Vec<char>>, chain: Seq<usize>, upto: int) -> bool {
        &&& 0 <= upto < chain.len()
        &&& upto <= p.len()
        &&& forall|k: int| 0 <= k <= upto ==> self.names_dir(#[trigger] chain[k], pre(p, k))
    }

    proof fn lemma_caches_only(old_f: &Filter, new_f: &Filter)
        requires
            caches_only(old_f.nodes@, new_f.nodes@),
            old_f.model() == new_f.model(),
        ensures
            forall|w: World| #[trigger] new_f.agrees(w) == old_f.agrees(w),
            forall|node: usize, d: Comps| #[trigger] new_f.names_dir(node, d) == old_f.names_dir(node, d),
            forall|q: Probe| #[trigger] new_f.asks_unknown(q) == old_f.asks_unknown(q),
            forall|p: Seq<Vec<char>>, chain: Seq<usize>, upto: int| #[trigger] new_f.chain_ok(p, chain, upto) == old_f.chain_ok(p, chain, upto),
            shape_ok(old_f.nodes@) == shape_ok(new_f.nodes@),
    {
        let a = old_f.nodes@;
        let b = new_f.nodes@;
        assert(same_shape(a, b));
        assert(same_shape(b, a));
        assert forall|i: int| 0 <= i < a.len() implies node_path(b, i) == node_path(a, i) by {
            lemma_same_shape_path(a, b, i);
        }
        assert forall|w: World| #[trigger] new_f.agrees(w) == old_f.agrees(w) by {
            if old_f.agrees(w) {
                assert forall|i: int| 0 <= i < b.len() implies node_agrees(
                    #[trigger] b[i],
                    node_path(b, i),
                    w,
                ) by {
                    assert(node_agrees(a[i], node_path(a, i), w));
                }
            }
            if new_f.agrees(w) {
                assert forall|i: int| 0 <= i < a.len() implies node_agrees(
                    #[trigger] a[i],
                    node_path(a, i),
                    w,
                ) by {
                    assert(node_agrees(b[i], node_path(b, i), w));
                }
            }
        }
        assert forall|p: Seq<Vec<char>>, chain: Seq<usize>, upto: int| #[trigger] new_f.chain_ok(p, chain, upto) == old_f.chain_ok(p, chain, upto) by {
            if old_f.chain_ok(p, chain, upto) {
                assert forall|k: int| 0 <= k <= upto implies new_f.names_dir(#[trigger] chain[k], pre(p, k)) by {
                    assert(old_f.names_dir(chain[k], pre(p, k)));
                }
            }
            if new_f.chain_ok(p, chain, upto) {
                assert forall|k: int| 0 <= k <= upto implies old_f.names_dir(#[trigger] chain[k], pre(p, k)) by {
                    assert(new_f.names_dir(chain[k], pre(p, k)));
                }
            }
        }
        assert forall|q: Probe| #[trigger] new_f.asks_unknown(q) == old_f.asks_unknown(q) by {
            match q {
                Probe::IgnoreFile { dir, kind, node } => {
                    if node < a.len() {
                        assert(b[node as int].fd == a[node as int].fd);
                    }
                },
                Probe::RepoMarker { dir, node } => {
                    if node < a.len() {
                        assert(b[node as int].head == a[node as int].head);
                    }
                },
                Probe::InfoExclude { dir, node } => {
                    if node < a.len() {
                        assert(b[node as int].exclude == a[node as int].exclude);
                    }
                },
            }
        }
        if shape_ok(a) {
            assert forall|i: int, j: int|
                0 <= i < b.len() && 0 <= j < b[i].children@.len() implies {
                let c = #[trigger] b[i].children@[j];
                i < c < b.len() && b[c as int].parent == i
            } by {
                assert(b[i].children == a[i].children);
                let c = a[i].children@[j];
                assert(b[c as int].parent == a[c as int].parent);
            }
            assert forall|i: int| 1 <= i < b.len() implies #[trigger] b[i].parent < i by {
                assert(b[i].parent == a[i].parent);
            }
        }
        if shape_ok(b) {
            assert forall|i: int, j: int|
                0 <= i < a.len() && 0 <= j < a[i].children@.len() implies {
                let c = #[trigger] a[i].children@[j];
                i < c < a.len() && a[c as int].parent == i
            } by {
                assert(b[i].children == a[i].children);
                let c = a[i].children@[j];
                assert(b[c as int].parent == a[c as int].parent);
            }
            assert forall|i: int| 1 <= i < a.len() implies #[trigger] a[i].parent < i by {
                assert(b[i].parent == a[i].parent);
            }
        }
    }

    proof fn lemma_known_fact(&self, w: World, node: int, kind: IgnoreKind, t: Comps, is_dir: bool)
        requires
            self.agrees(w),
            0 <= node < self.nodes@.len(),
            ignore_fact(self.nodes@[node], kind) is Some,
        ensures
            file_verdict(w, kind, node_path(self.nodes@, node), t, is_dir) == match ignore_fact(
                self.nodes@[node],
                kind,
            )->0 {
                Some(m) => matcher_says(m, t, is_dir),
                None => None,
            },
    {
        assert(node_agrees(self.nodes@[node], node_path(self.nodes@, node), w));
    }

    fn fact(&self, node: usize, kind: IgnoreKind) -> (r: &Option<Option<IgnoreMatcher>>)
        requires
            node < self.nodes@.len(),
        ensures
            *r == ignore_fact(self.nodes@[node as int], kind),
    {
        match kind {
            IgnoreKind::FdIgnore => &self.nodes[node].fd,
            IgnoreKind::DotIgnore => &self.nodes[node].dot,
            IgnoreKind::GitIgnore => &self.nodes[node].vcs,
        }
    }

    /// The first verdict of `kind` from the directory of length `s_len` up to
    /// the directory of length `stop` (the root for `.fdignore` and `.ignore`,
    /// the repository root for `.gitignore`).
    fn walk_layer(
        &self,
        kind: IgnoreKind,
        p: &Vec<Vec<char>>,
        chain: &Vec<usize>,
        s_len: usize,
        stop: usize,
        t_text: &String,
        Ghost(t): Ghost<Comps>,
        is_dir: bool,
    ) -> (r: Result<Option<IgnoreDecision>, Probe>)
        requires
            self.wf(),
            self.chain_ok(p@, chain@, s_len as int),
            stop <= s_len,
            t_text@ == path_text(t),
        ensures
            r matches Ok(v) ==> forall|w: World|
                #[trigger] self.agrees(w) ==> (kind == IgnoreKind::GitIgnore ==> v == vcs_walk(
                    w,
                    pre(p@, s_len as int),
                    stop as nat,
                    t,
                    is_dir,
                )) && (stop == 0 ==> v == ancestors_verdict(
                    w,
                    kind,
                    pre(p@, s_len as int),
                    t,
                    is_dir,
                )),
            r matches Err(q) ==> self.asks_unknown(q),
    {
        let mut k = s_len;
        loop
            invariant
                self.wf(),
                self.chain_ok(p@, chain@, s_len as int),
                t_text@ == path_text(t),
                stop <= k <= s_len,
                forall|w: World|
                    #[trigger] self.agrees(w) ==> (kind == IgnoreKind::GitIgnore ==> vcs_walk(
                        w,
                        pre(p@, s_len as int),
                        stop as nat,
                        t,
                        is_dir,
                    ) == vcs_walk(w, pre(p@, k as int), stop as nat, t, is_dir))
                        && ancestors_verdict(w, kind, pre(p@, s_len as int), t, is_dir)
                        == ancestors_verdict(w, kind, pre(p@, k as int), t, is_dir),
            decreases k,
        {
            let node = chain[k];
            assert(self.names_dir(chain@[k as int], pre(p@, k as int)));
            match self.fact(node, kind) {
                None => {
                    let dir = prefix_text(p, k);
                    return Err(Probe::IgnoreFile { dir, kind, node });
                },
                Some(known) => {
                    let v = match known {
                        Some(m) => m.verdict(t_text.as_str(), is_dir),
                        None => None,
                    };
                    proof {
                        assert forall|w: World| #[trigger] self.agrees(w) implies file_verdict(
                            w,
                            kind,
                            pre(p@, k as int),
                            t,
                            is_dir,
                        ) == v by {
                            self.lemma_known_fact(w, node as int, kind, t, is_dir);
                        }
                    }
                    if v.is_some() || k == stop {
                        return Ok(v);
                    }
                    proof {
                        assert(pre(p@, k as int).drop_last() =~= pre(p@, k as int - 1));
                    }
                    k -= 1;
                }
            }
        }
    }

    /// Looks upward from the directory of length `s_len` for the nearest one
    /// whose `.git/HEAD` is known present, or a cached answer; yields the answer
    /// and the length where the search stopped.
    fn find_repo(&self, p: &Vec<Vec<char>>, chain: &Vec<usize>, s_len: usize) -> (r: Result<
        (Option<usize>, usize),
        Probe,
    >)
        requires
            self.wf(),
            self.chain_ok(p@, chain@, s_len as int),
        ensures
            r matches Ok((ans, k)) ==> k <= s_len && (ans matches Some(n) ==> n <= k) && forall|
                w: World,
            |
                #[trigger] self.agrees(w) ==> forall|j: int|
                    k <= j <= s_len ==> repo_agrees(ans, #[trigger] repo_len(w, pre(p@, j))),
            r matches Err(q) ==> self.asks_unknown(q),
    {
        let mut k = s_len;
        loop
            invariant
                self.wf(),
                self.chain_ok(p@, chain@, s_len as int),
                k <= s_len,
                forall|w: World|
                    #[trigger] self.agrees(w) ==> forall|j: int|
                        k <= j <= s_len ==> #[trigger] repo_len(w, pre(p@, j)) == repo_len(
                            w,
                            pre(p@, k as int),
                        ),
            decreases k,
        {
            let node = chain[k];
            assert(self.names_dir(chain@[k as int], pre(p@, k as int)));
            if let Some(x) = self.nodes[node].repo {
                proof {
                    assert(repo_fits(self.nodes@[node as int], node_path(self.nodes@, node as int)));
                    assert forall|w: World| #[trigger] self.agrees(w) implies repo_agrees(
                        x,
                        repo_len(w, pre(p@, k as int)),
                    ) by {
                        assert(self.caches_hold(w));
                        assert(cache_ok(
                            self.model(),
                            w,
                            self.nodes@[node as int],
                            node_path(self.nodes@, node as int),
                        ));
                    }
                }
                return Ok((x, k));
            }
            match self.nodes[node].head {
                None => {
                    let dir = prefix_text(p, k);
                    return Err(Probe::RepoMarker { dir, node });
                },
                Some(present) => {
                    proof {
                        assert forall|w: World| #[trigger] self.agrees(w) implies (w.has_head)(
                            pre(p@, k as int),
                        ) == present by {
                            assert(node_agrees(
                                self.nodes@[node as int],
                                node_path(self.nodes@, node as int),
                                w,
                            ));
                        }
                    }
                    if present {
                        return Ok((Some(k), k));
                    }
                    if k == 0 {
                        return Ok((None, 0));
                    }
                    proof {
                        assert(pre(p@, k as int).drop_last() =~= pre(p@, k as int - 1));
                    }
                    k -= 1;
                },
            }
        }
    }

    /// The length of the repository root of the directory of length `s_len`,
    /// if it is in a repository; every directory the search passed is cached.
    fn repo_root_for_dir(&mut self, p: &Vec<Vec<char>>, chain: &Vec<usize>, s_len: usize) -> (r: Result<
        Option<usize>,
        Probe,
    >)
        requires
            old(self).wf(),
            old(self).chain_ok(p@, chain@, s_len as int),
        ensures
            final(self).wf(),
            final(self).model() == old(self).model(),
            caches_only(old(self).nodes@, final(self).nodes@),
            r matches Ok(x) ==> (x matches Some(n) ==> n <= s_len) && forall|w: World|
                #[trigger] final(self).agrees(w) ==> repo_agrees(
                    x,
                    repo_len(w, pre(p@, s_len as int)),
                ),
            r matches Err(q) ==> final(self).asks_unknown(q),
    {
        let (ans, k) = match self.find_repo(p, chain, s_len) {
            Ok(found) => found,
            Err(q) => return Err(q),
        };
        let ghost start = *self;
        let mut j = k;
        let clen = chain.len();
        while j <= s_len
            invariant
                k <= s_len,
                k <= j <= s_len + 1,
                ans matches Some(n) ==> n <= k,
                s_len < clen,
                clen == chain@.len(),
                self.wf(),
                self.model() == start.model(),
                caches_only(start.nodes@, self.nodes@),
                self.chain_ok(p@, chain@, s_len as int),
                forall|w: World|
                    #[trigger] self.agrees(w) ==> forall|i: int|
                        k <= i <= s_len ==> repo_agrees(ans, #[trigger] repo_len(w, pre(p@, i))),
            decreases s_len + 1 - j,
        {
            let node = chain[j];
            let ghost before = *self;
            assert(self.names_dir(chain@[j as int], pre(p@, j as int)));
            self.nodes[node].repo = Some(ans);
            proof {
                assert(repo_fits(self.nodes@[node as int], node_path(before.nodes@, node as int)));
                Filter::lemma_one_node(&before, self, node as int);
                assert(caches_only(before.nodes@, self.nodes@));
                Filter::lemma_caches_only(&before, self);
                assert(caches_only(start.nodes@, self.nodes@));
                assert forall|w: World| #[trigger] self.agrees(w) implies self.caches_hold(w) by {
                    assert(before.agrees(w));
                    assert(before.caches_hold(w));
                    assert(cache_ok(
                        self.model(),
                        w,
                        self.nodes@[node as int],
                        node_path(before.nodes@, node as int),
                    ));
                }
            }
            j += 1;
        }
        proof {
            Filter::lemma_caches_only(&start, self);
        }
        Ok(ans)
    }
}

impl Filter {
    /// The VCS layers for target `t`, looking from the directory of length
    /// `s_len`: inside a repository, its `.gitignore` files closest first, then
    /// its info-exclude file, then the global VCS matcher; outside, none.
    fn match_git_ignores(
        &mut self,
        p: &Vec<Vec<char>>,
        chain: &Vec<usize>,
        s_len: usize,
        t_text: &String,
        Ghost(t): Ghost<Comps>,
        is_dir: bool,
    ) -> (r: Result<Option<IgnoreDecision>, Probe>)
        requires
            old(self).wf(),
            old(self).chain_ok(p@, chain@, s_len as int),
            t_text@ == path_text(t),
        ensures
            final(self).wf(),
            final(self).model() == old(self).model(),
            caches_only(old(self).nodes@, final(self).nodes@),
            r matches Ok(v) ==> forall|w: World|
                #[trigger] final(self).agrees(w) ==> v == {
                    let s = pre(p@, s_len as int);
                    or_else(
                        layer_vcs(w, s, t, is_dir),
                        or_else(
                            layer_exclude(w, s, t, is_dir),
                            layer_global_vcs(final(self).model(), w, s, t, is_dir),
                        ),
                    )
                },
            r matches Err(q) ==> final(self).asks_unknown(q),
    {
        let ghost s = pre(p@, s_len as int);
        let ghost start = *self;
        let repo = self.repo_root_for_dir(p, chain, s_len);
        proof {
            Filter::lemma_caches_only(&start, self);
        }
        let n = match repo {
            Ok(Some(n)) => n,
            Ok(None) => return Ok(None),
            Err(q) => return Err(q),
        };
        let vcs = match self.walk_layer(
            IgnoreKind::GitIgnore,
            p,
            chain,
            s_len,
            n,
            t_text,
            Ghost(t),
            is_dir,
        ) {
            Ok(v) => v,
            Err(q) => return Err(q),
        };
        if vcs.is_some() {
            return Ok(vcs);
        }
        let node = chain[n];
        assert(self.names_dir(chain@[n as int], pre(p@, n as int)));
        assert(s.subrange(0, n as int) =~= pre(p@, n as int));
        let excl = match &self.nodes[node].exclude {
            None => {
                let dir = prefix_text(p, n);
                return Err(Probe::InfoExclude { dir, node });
            },
            Some(Some(mt)) => mt.verdict(t_text.as_str(), is_dir),
            Some(None) => None,
        };
        proof {
            assert forall|w: World| #[trigger] self.agrees(w) implies layer_exclude(
                w,
                s,
                t,
                is_dir,
            ) == excl by {
                assert(node_agrees(
                    self.nodes@[node as int],
                    node_path(self.nodes@, node as int),
                    w,
                ));
            }
        }
        if excl.is_some() {
            return Ok(excl);
        }
        Ok(self.global_vcs.verdict(t_text.as_str(), is_dir))
    }

    /// Whether the ignore layers let the target `t` in, looking from the
    /// directory of length `s_len`: the first layer that decides wins, and a
    /// path no layer decides on is in.
    fn is_entry_included(
        &mut self,
        p: &Vec<Vec<char>>,
        chain: &Vec<usize>,
        s_len: usize,
        t_text: &String,
        Ghost(t): Ghost<Comps>,
        is_dir: bool,
    ) -> (r: Result<bool, Probe>)
        requires
            old(self).wf(),
            old(self).chain_ok(p@, chain@, s_len as int),
            t_text@ == path_text(t),
        ensures
            final(self).wf(),
            final(self).model() == old(self).model(),
            caches_only(old(self).nodes@, final(self).nodes@),
            r matches Ok(b) ==> forall|w: World|
                #[trigger] final(self).agrees(w) ==> b == entry_included(
                    final(self).model(),
                    w,
                    pre(p@, s_len as int),
                    t,
                    is_dir,
                ),
            r matches Err(q) ==> final(self).asks_unknown(q),
    {
        proof {
            assert(caches_only(self.nodes@, self.nodes@));
        }
        let fd = match self.walk_layer(
            IgnoreKind::FdIgnore,
            p,
            chain,
            s_len,
            0,
            t_text,
            Ghost(t),
            is_dir,
        ) {
            Ok(v) => v,
            Err(q) => return Err(q),
        };
        if let Some(d) = fd {
            return Ok(d.includes());
        }
        let dot = match self.walk_layer(
            IgnoreKind::DotIgnore,
            p,
            chain,
            s_len,
            0,
            t_text,
            Ghost(t),
            is_dir,
        ) {
            Ok(v) => v,
            Err(q) => return Err(q),
        };
        if let Some(d) = dot {
            return Ok(d.includes());
        }
        let ghost start = *self;
        let vcs = self.match_git_ignores(p, chain, s_len, t_text, Ghost(t), is_dir);
        proof {
            Filter::lemma_caches_only(&start, self);
        }
        match vcs {
            Ok(Some(d)) => return Ok(d.includes()),
            Ok(None) => {},
            Err(q) => return Err(q),
        }
        let global_fd = match &self.global_fd {
            Some(g) => g.verdict(t_text.as_str(), is_dir),
            None => None,
        };
        if let Some(d) = global_fd {
            return Ok(d.includes());
        }
        Ok(true)
    }
}

impl Filter {
    /// Whether a walk would descend into the directory of length `n`, its
    /// ancestors aside; judged afresh.
    fn is_dir_walkable_uncached(&mut self, p: &Vec<Vec<char>>, chain: &Vec<usize>, n: usize) -> (r:
        Result<bool, Probe>)
        requires
            old(self).wf(),
            old(self).chain_ok(p@, chain@, n as int),
            old(self).model().base.len() < n,
            old(self).model().base.is_prefix_of(pre(p@, n as int)),
        ensures
            final(self).wf(),
            final(self).model() == old(self).model(),
            caches_only(old(self).nodes@, final(self).nodes@),
            r matches Ok(b) ==> forall|w: World|
                #[trigger] final(self).agrees(w) ==> b == dir_walkable(
                    final(self).model(),
                    w,
                    pre(p@, n as int),
                ),
            r matches Err(q) ==> final(self).asks_unknown(q),
    {
        proof {
            assert(caches_only(self.nodes@, self.nodes@));
            Filter::lemma_caches_only(self, self);
        }
        if !self.cfg.include_hidden && any_hidden_between(p, self.base.len(), n) {
            return Ok(false);
        }
        if !self.cfg.ignore_enabled {
            return Ok(true);
        }
        let t_text = prefix_text(p, n);
        assert(parent_of(pre(p@, n as int)) =~= pre(p@, n as int - 1));
        self.is_entry_included(p, chain, n - 1, &t_text, Ghost(pre(p@, n as int)), true)
    }

    /// Whether a walk reaches the directory of length `c_len`: every directory
    /// strictly below the base down to it is judged, root first, each judgement
    /// cached, and the first that is not walkable prunes.
    fn is_walkable_to(&mut self, p: &Vec<Vec<char>>, chain: &Vec<usize>, c_len: usize) -> (r:
        Result<bool, Probe>)
        requires
            old(self).wf(),
            old(self).chain_ok(p@, chain@, c_len as int),
        ensures
            final(self).wf(),
            final(self).model() == old(self).model(),
            caches_only(old(self).nodes@, final(self).nodes@),
            r matches Ok(b) ==> forall|w: World|
                #[trigger] final(self).agrees(w) ==> b == walkable_within(
                    final(self).model(),
                    w,
                    pre(p@, c_len as int),
                ),
            r matches Err(q) ==> final(self).asks_unknown(q),
    {
        let ghost m = self.model();
        let ghost start = *self;
        let ghost c = pre(p@, c_len as int);
        proof {
            assert(caches_only(start.nodes@, self.nodes@));
        }
        let blen = self.base.len();
        if !(blen < c_len && comps_start_with(&p, &self.base)) {
            proof {
                Filter::lemma_caches_only(&start, self);
                assert forall|w: World| #[trigger] self.agrees(w) implies walkable_within(m, w, c) by {
                    if m.base.is_prefix_of(c) && blen < c_len {
                        assert(m.base.is_prefix_of(comps_view(p@))) by {
                            assert(m.base =~= comps_view(p@).subrange(0, blen as int));
                        }
                    }
                }
            }
            return Ok(true);
        }
        let mut n = blen + 1;
        let clen = chain.len();
        while n <= c_len
            invariant
                self.wf(),
                self.model() == m,
                start.model() == m,
                start == *old(self),
                blen == m.base.len(),
                blen < n <= c_len + 1,
                c_len <= p@.len(),
                c_len < clen,
                clen == chain@.len(),
                c == pre(p@, c_len as int),
                m.base.is_prefix_of(comps_view(p@)),
                caches_only(start.nodes@, self.nodes@),
                self.chain_ok(p@, chain@, c_len as int),
                forall|w: World|
                    #[trigger] self.agrees(w) ==> forall|k: int|
                        blen < k < n ==> dir_walkable(m, w, #[trigger] pre(p@, k)),
            decreases c_len + 1 - n,
        {
            let node = chain[n];
            assert(self.names_dir(chain@[n as int], pre(p@, n as int)));
            assert(m.base.is_prefix_of(pre(p@, n as int))) by {
                assert(m.base == comps_view(p@).subrange(0, blen as int));
                assert(m.base =~= pre(p@, n as int).subrange(0, blen as int));
            }
            let ok = match self.nodes[node].walkable {
                Some(b) => {
                    proof {
                        assert forall|w: World| #[trigger] self.agrees(w) implies b
                            == dir_walkable(m, w, pre(p@, n as int)) by {
                            assert(self.caches_hold(w));
                            assert(cache_ok(
                                m,
                                w,
                                self.nodes@[node as int],
                                node_path(self.nodes@, node as int),
                            ));
                        }
                    }
                    b
                },
                None => {
                    let ghost before = *self;
                    let judged = self.is_dir_walkable_uncached(p, chain, n);
                    proof {
                        Filter::lemma_caches_only(&before, self);
                    }
                    let b = match judged {
                        Ok(b) => b,
                        Err(q) => {
                            proof {
                                assert(caches_only(start.nodes@, self.nodes@));
                                Filter::lemma_caches_only(&start, self);
                            }
                            return Err(q);
                        },
                    };
                    let ghost mid = *self;
                    assert(mid.names_dir(chain@[n as int], pre(p@, n as int)));
                    self.nodes[node].walkable = Some(b);
                    proof {
                        Filter::lemma_one_node(&mid, self, node as int);
                        assert(caches_only(mid.nodes@, self.nodes@));
                        Filter::lemma_caches_only(&mid, self);
                        assert(caches_only(start.nodes@, self.nodes@));
                        assert forall|w: World| #[trigger] self.agrees(w) implies self.caches_hold(
                            w,
                        ) by {
                            assert(mid.agrees(w));
                            assert(mid.caches_hold(w));
                            assert(cache_ok(
                                m,
                                w,
                                self.nodes@[node as int],
                                node_path(mid.nodes@, node as int),
                            ));
                        }
                    }
                    b
                },
            };
            if !ok {
                proof {
                    Filter::lemma_caches_only(&start, self);
                    assert forall|w: World| #[trigger] self.agrees(w) implies !walkable_within(
                        m,
                        w,
                        c,
                    ) by {
                        assert(c.subrange(0, n as int) =~= pre(p@, n as int));
                        assert(m.base.is_prefix_of(c)) by {
                            assert(m.base =~= c.subrange(0, blen as int));
                        }
                    }
                }
                return Ok(false);
            }
            n += 1;
        }
        proof {
            Filter::lemma_caches_only(&start, self);
            assert forall|w: World| #[trigger] self.agrees(w) implies walkable_within(m, w, c) by {
                assert forall|k: int| m.base.len() < k <= c.len() implies dir_walkable(
                    m,
                    w,
                    #[trigger] c.subrange(0, k),
                ) by {
                    assert(c.subrange(0, k) =~= pre(p@, k));
                }
            }
        }
        Ok(true)
    }

    /// One decision step for the absolute path `path`, a directory when
    /// `is_dir`. Either the decision, which then holds in every world that
    /// agrees with what the filter has been told, or the one fact it needs
    /// first; the filter learns nothing by itself, it only caches judgements.
    pub fn should_include(&mut self, path: &str, is_dir: bool) -> (r: Outcome)
        requires
            old(self).wf(),
        ensures
            final(self).wf(),
            final(self).model() == old(self).model(),
            forall|w: World| #[trigger] final(self).agrees(w) == old(self).agrees(w),
            r matches Outcome::Decided(b) ==> forall|w: World|
                #[trigger] final(self).agrees(w) ==> b == decision(
                    final(self).model(),
                    w,
                    path_comps(path@),
                    is_dir,
                ),
            r matches Outcome::Needs(q) ==> final(self).asks_unknown(q),
            Filter::decided_truly(*old(self), *final(self), path@, is_dir, r),
    {
        let p = split_path(path);
        let ghost pc = comps_view(p@);
        if !self.cfg.include_hidden && hidden_below(&p, &self.base) {
            return Outcome::Decided(false);
        }
        let plen = p.len();
        let s_len = if plen == 0 {
            0
        } else {
            plen - 1
        };
        let c_len = if is_dir {
            plen
        } else {
            s_len
        };
        let ghost start = *self;
        let chain = self.locate(&p, c_len);
        let ghost located = *self;
        proof {
            assert(pre(p@, plen as int) =~= pc);
            assert(container_of(pc, is_dir) =~= pre(p@, c_len as int));
            assert(parent_of(pc) =~= pre(p@, s_len as int));
        }
        let walk = self.is_walkable_to(&p, &chain, c_len);
        proof {
            Filter::lemma_caches_only(&located, self);
        }
        match walk {
            Ok(true) => {},
            Ok(false) => return Outcome::Decided(false),
            Err(q) => return Outcome::Needs(q),
        }
        if !self.cfg.ignore_enabled {
            return Outcome::Decided(true);
        }
        let t_text = prefix_text(&p, plen);
        let ghost before = *self;
        let judged = self.is_entry_included(&p, &chain, s_len, &t_text, Ghost(pc), is_dir);
        proof {
            Filter::lemma_caches_only(&before, self);
        }
        match judged {
            Ok(b) => Outcome::Decided(b),
            Err(q) => Outcome::Needs(q),
        }
    }
}

fn copy_chars(v: &Vec<char>) -> (r: Vec<char>)
    ensures
        r@ == v@,
{
    let mut r: Vec<char> = Vec::new();
    let mut i: usize = 0;
    while i < v.len()
        invariant
            i <= v@.len(),
            r@ == v@.subrange(0, i as int),
        decreases v.len() - i,
    {
        r.push(v[i]);
        assert(v@.subrange(0, i as int + 1) =~= v@.subrange(0, i as int).push(v@[i as int]));
        i += 1;
    }
    assert(v@.subrange(0, v@.len() as int) =~= v@);
    r
}

impl DirNode {
    fn fresh(name: Vec<char>, parent: usize) -> (r: DirNode)
        ensures
            r.name@ == name@,
            r.parent == parent,
            r.children@.len() == 0,
            r.walkable is None,
            r.repo is None,
            r.head is None,
            r.fd is None,
            r.dot is None,
            r.vcs is None,
            r.exclude is None,
    {
        DirNode {
            name,
            parent,
            children: Vec::new(),
            walkable: None,
            repo: None,
            head: None,
            fd: None,
            dot: None,
            vcs: None,
            exclude: None,
        }
    }
}

impl Filter {
    /// What a decision step promises: the settings stay, the filter is told
    /// nothing new, and a decision holds in every world that agrees with what
    /// the filter has been told.
    pub open spec fn decided_truly(
        before: Filter,
        after: Filter,
        path: Seq<char>,
        is_dir: bool,
        r: Outcome,
    ) -> bool {
        &&& after.model() == before.model()
        &&& forall|w: World| #[trigger] after.agrees(w) == before.agrees(w)
        &&& r matches Outcome::Decided(b) ==> forall|w: World|
            #[trigger] after.agrees(w) ==> b == decision(after.model(), w, path_comps(path), is_dir)
    }

    /// Cache transparency: two filters with the same settings, told only truths
    /// about the same filesystem, decide a path alike, whatever each has cached
    /// and in whatever order each was asked before.
    pub proof fn lemma_cache_transparency(
        f: Filter,
        f_after: Filter,
        g: Filter,
        g_after: Filter,
        path: Seq<char>,
        is_dir: bool,
        rf: Outcome,
        rg: Outcome,
        w: World,
    )
        requires
            f.model() == g.model(),
            f.agrees(w),
            g.agrees(w),
            Filter::decided_truly(f, f_after, path, is_dir, rf),
            Filter::decided_truly(g, g_after, path, is_dir, rg),
            rf is Decided,
            rg is Decided,
        ensures
            rf == rg,
    {
        assert(f_after.agrees(w));
        assert(g_after.agrees(w));
    }

    /// Asking twice about the same path gives the same answer.
    pub proof fn lemma_repeat_same_answer(
        f0: Filter,
        f1: Filter,
        f2: Filter,
        path: Seq<char>,
        is_dir: bool,
        r1: Outcome,
        r2: Outcome,
        w: World,
    )
        requires
            f0.agrees(w),
            Filter::decided_truly(f0, f1, path, is_dir, r1),
            Filter::decided_truly(f1, f2, path, is_dir, r2),
            r1 is Decided,
            r2 is Decided,
        ensures
            r1 == r2,
    {
        assert(f1.agrees(w));
        assert(f2.agrees(w));
    }
}

/// Distinct nodes of a well-shaped tree name distinct directories.
proof fn lemma_paths_unique(nodes: Seq<DirNode>, i: int, j: int)
    requires
        shape_ok(nodes),
        unique_ok(nodes),
        0 <= i < nodes.len(),
        0 <= j < nodes.len(),
        node_path(nodes, i) == node_path(nodes, j),
    ensures
        i == j,
    decreases i + j,
{
    if i == 0 && j == 0 {
    } else if i == 0 {
        assert(nodes[j].parent < j);
        assert(node_path(nodes, j).len() > 0);
    } else if j == 0 {
        assert(nodes[i].parent < i);
        assert(node_path(nodes, i).len() > 0);
    } else {
        let pi = nodes[i].parent as int;
        let pj = nodes[j].parent as int;
        assert(pi < i && pj < j);
        assert(node_path(nodes, i).drop_last() =~= node_path(nodes, pi));
        assert(node_path(nodes, j).drop_last() =~= node_path(nodes, pj));
        lemma_paths_unique(nodes, pi, pj);
        assert(nodes[i].name@ == node_path(nodes, i).last());
        assert(nodes[j].name@ == node_path(nodes, j).last());
        reveal(unique_ok);
        assert(lists_child(nodes[pi], i));
        assert(lists_child(nodes[pj], j));
        let x = choose|x: int| 0 <= x < nodes[pi].children@.len() && nodes[pi].children@[x] as int == i;
        let y = choose|y: int| 0 <= y < nodes[pi].children@.len() && nodes[pi].children@[y] as int == j;
        if x != y {
            assert(kids_distinct(nodes, pi));
            assert(nodes[nodes[pi].children@[x] as int].name@ != nodes[nodes[pi].children@[y] as int].name@);
        }
    }
}

/// The text that the filter was told for a directory in one of its matcher
/// slots, if any node of that directory holds a matcher there.
spec fn told_text(
    nodes: Seq<DirNode>,
    slot: spec_fn(DirNode) -> Option<Option<IgnoreMatcher>>,
    d: Comps,
) -> Option<Seq<char>> {
    if exists|i: int| 0 <= i < nodes.len() && node_path(nodes, i) == d && #[trigger] slot(nodes[i]) matches Some(Some(_)) {
        let i = choose|i: int| 0 <= i < nodes.len() && node_path(nodes, i) == d && #[trigger] slot(nodes[i]) matches Some(Some(_));
        Some(slot(nodes[i])->0->0.pattern_text())
    } else {
        None
    }
}

proof fn lemma_told_text_agrees(
    nodes: Seq<DirNode>,
    slot: spec_fn(DirNode) -> Option<Option<IgnoreMatcher>>,
    i: int,
)
    requires
        shape_ok(nodes),
        unique_ok(nodes),
        0 <= i < nodes.len(),
        matcher_fits(slot(nodes[i]), node_path(nodes, i)),
    ensures
        fact_agrees(slot(nodes[i]), told_text(nodes, slot, node_path(nodes, i)), node_path(nodes, i)),
{
    let d = node_path(nodes, i);
    if exists|i2: int| 0 <= i2 < nodes.len() && node_path(nodes, i2) == d && #[trigger] slot(nodes[i2]) matches Some(Some(_)) {
        let i2 = choose|i2: int| 0 <= i2 < nodes.len() && node_path(nodes, i2) == d && #[trigger] slot(nodes[i2]) matches Some(Some(_));
        lemma_paths_unique(nodes, i, i2);
    }
}

impl Filter {
    /// What a well-formed filter has been told is never contradictory: some
    /// filesystem agrees with all of it.
    pub proof fn lemma_some_world_agrees(&self)
        requires
            self.wf(),
        ensures
            exists|w: World| self.agrees(w),
    {
        let nodes = self.nodes@;
        let w = World {
            ignore_text: |k: IgnoreKind, d: Comps| told_text(nodes, |n: DirNode| ignore_fact(n, k), d),
            has_head: |d: Comps|
                exists|i: int| 0 <= i < nodes.len() && node_path(nodes, i) == d && #[trigger] nodes[i].head == Some(true),
            exclude_text: |d: Comps| told_text(nodes, |n: DirNode| n.exclude, d),
        };
        assert forall|i: int| 0 <= i < nodes.len() implies node_agrees(#[trigger] nodes[i], node_path(nodes, i), w) by {
            let d = node_path(nodes, i);
            reveal(matchers_fit);
            assert(node_matchers_fit(nodes[i], d));
            let fd = |n: DirNode| ignore_fact(n, IgnoreKind::FdIgnore);
            let dot = |n: DirNode| ignore_fact(n, IgnoreKind::DotIgnore);
            let vcs = |n: DirNode| ignore_fact(n, IgnoreKind::GitIgnore);
            let ex = |n: DirNode| n.exclude;
            lemma_told_text_agrees(nodes, fd, i);
            lemma_told_text_agrees(nodes, dot, i);
            lemma_told_text_agrees(nodes, vcs, i);
            lemma_told_text_agrees(nodes, ex, i);
            assert((w.ignore_text)(IgnoreKind::FdIgnore, d) == told_text(nodes, fd, d));
            assert((w.ignore_text)(IgnoreKind::DotIgnore, d) == told_text(nodes, dot, d));
            assert((w.ignore_text)(IgnoreKind::GitIgnore, d) == told_text(nodes, vcs, d));
            assert((w.exclude_text)(d) == told_text(nodes, ex, d));
            if nodes[i].head is Some {
                if (w.has_head)(d) {
                    let i2 = choose|i2: int| 0 <= i2 < nodes.len() && node_path(nodes, i2) == d && #[trigger] nodes[i2].head == Some(true);
                    lemma_paths_unique(nodes, i, i2);
                }
            }
        }
        assert(self.agrees(w));
    }
}

} // verus!
