use vstd::prelude::*;

use crate::pathname::{comps_start_with, path_comps, push_chars, split_path, Comps};
use crate::text::{chars_of, push_char};

verus! {

/// Whether `c` is an uppercase character (Unicode's `Uppercase` property).
pub uninterp spec fn is_upper(c: char) -> bool;

/// Relies on std's `char::is_uppercase`.
#[verifier::external_body]
fn char_is_uppercase(c: char) -> (r: bool)
    ensures
        r == is_upper(c),
{
    c.is_uppercase()
}

/// The arguments of one index query, and the matcher that the candidates it
/// yields must still pass.
pub struct QueryPlan {
    pub args: Vec<String>,
    /// Applied after filtering where the index query is looser than the
    /// pattern (its name query ignores case).
    pub rust_matcher: Option<RustMatcher>,
}

#[derive(Debug, Clone, PartialEq, Eq)]
pub enum RustMatcher {
    CaseSensitiveSubstring { needle: String },
}

pub open spec fn holds_at(h: Seq<char>, n: Seq<char>, i: int) -> bool {
    0 <= i && i + n.len() <= h.len() && h.subrange(i, i + n.len()) == n
}

/// `n` occurs in `h`.
pub open spec fn contains_text(h: Seq<char>, n: Seq<char>) -> bool {
    exists|i: int| holds_at(h, n, i)
}

/// The last component of `p`, unless there is none or it is `..`.
pub open spec fn file_name(p: Comps) -> Option<Seq<char>> {
    if p.len() == 0 || p.last() == seq!['.', '.'] {
        None
    } else {
        Some(p.last())
    }
}

pub open spec fn has_upper(s: Seq<char>) -> bool {
    exists|i: int| 0 <= i < s.len() && is_upper(#[trigger] s[i])
}

pub open spec fn is_glob_text(s: Seq<char>) -> bool {
    s.contains('*') || s.contains('?')
}

/// The character as written inside a quoted query string.
pub open spec fn escape_char(c: char) -> Seq<char> {
    if c == '\\' {
        seq!['\\', '\\']
    } else if c == '"' {
        seq!['\\', '"']
    } else {
        seq![c]
    }
}

pub open spec fn escaped(s: Seq<char>) -> Seq<char>
    decreases s.len(),
{
    if s.len() == 0 {
        seq![]
    } else {
        escaped(s.drop_last()) + escape_char(s.last())
    }
}

/// The name pattern a query searches for: everything, a glob as written, or
/// a substring anywhere.
pub open spec fn query_pattern(pattern: Option<Seq<char>>) -> Seq<char> {
    match pattern {
        None => seq!['*'],
        Some(p) => if is_glob_text(p) {
            p
        } else {
            seq!['*'] + p + seq!['*']
        },
    }
}

/// Smart case: a pattern without uppercase matches regardless of case.
pub open spec fn case_insensitive(pattern: Option<Seq<char>>) -> bool {
    pattern matches Some(p) && !has_upper(p)
}

pub open spec fn query_head() -> Seq<char> {
    "kMDItemFSName == \""@
}

/// The predicate query for `pattern`.
pub open spec fn query_text(pattern: Option<Seq<char>>) -> Seq<char> {
    query_head() + escaped(query_pattern(pattern)) + seq!['"'] + if case_insensitive(pattern) {
        seq!['c']
    } else {
        seq![]
    }
}

/// Bases under which the index's name query is known to miss results.
pub open spec fn avoids_name_query(base: Comps) -> bool {
    path_comps("/var/folders"@).is_prefix_of(base) || path_comps(
        "/private/var/folders"@,
    ).is_prefix_of(base) || path_comps("/tmp"@).is_prefix_of(base) || path_comps(
        "/private/tmp"@,
    ).is_prefix_of(base)
}

pub open spec fn opt_view(t: Option<&str>) -> Option<Seq<char>> {
    match t {
        Some(s) => Some(s@),
        None => None,
    }
}

impl RustMatcher {
    /// Whether the file name of `path` holds the needle, case included.
    pub fn matches(&self, path: &str) -> (r: bool)
        ensures
            r == match self {
                RustMatcher::CaseSensitiveSubstring { needle } => match file_name(
                    path_comps(path@),
                ) {
                    Some(name) => contains_text(name, needle@),
                    None => false,
                },
            },
    {
        match self {
            RustMatcher::CaseSensitiveSubstring { needle } => {
                let p = split_path(path);
                if p.len() == 0 {
                    return false;
                }
                let last = &p[p.len() - 1];
                if last.len() == 2 && last[0] == '.' && last[1] == '.' {
                    assert(last@ =~= seq!['.', '.']);
                    return false;
                }
                proof {
                    if last@ == seq!['.', '.'] {
                        assert(last@.len() == 2 && last@[0] == '.' && last@[1] == '.');
                    }
                }
                contains_chars(last, &chars_of(needle.as_str()))
            },
        }
    }
}

fn contains_chars(h: &Vec<char>, n: &Vec<char>) -> (r: bool)
    ensures
        r == contains_text(h@, n@),
{
    if n.len() > h.len() {
        assert(forall|i: int| !holds_at(h@, n@, i));
        return false;
    }
    let mut i: usize = 0;
    let hl = h.len();
    let last = hl - n.len();
    while i <= last
        invariant
            hl == h@.len(),
            n@.len() <= h@.len(),
            last == h@.len() - n@.len(),
            i <= last + 1,
            forall|j: int| 0 <= j < i ==> !holds_at(h@, n@, j),
        decreases h.len() - i,
    {
        let mut k: usize = 0;
        let mut same = true;
        while k < n.len()
            invariant
                hl == h@.len(),
                i + n@.len() <= hl,
                k <= n@.len(),
                same == (forall|x: int| 0 <= x < k ==> h@[i + x] == n@[x]),
            decreases n.len() - k,
        {
            if h[i + k] != n[k] {
                same = false;
            }
            k += 1;
        }
        if same {
            assert(h@.subrange(i as int, i + n@.len()) =~= n@);
            assert(holds_at(h@, n@, i as int));
            return true;
        }
        proof {
            if holds_at(h@, n@, i as int) {
                assert forall|x: int| 0 <= x < n@.len() implies h@[i + x] == n@[x] by {
                    assert(h@.subrange(i as int, i + n@.len())[x] == h@[i + x]);
                }
            }
        }
        i += 1;
    }
    assert forall|j: int| !holds_at(h@, n@, j) by {
        if 0 <= j && j + n@.len() <= h@.len() {
            assert(j < i);
        }
    }
    false
}

/// Whether `pattern` is a glob (it holds `*` or `?`).
pub fn is_glob(pattern: &str) -> (r: bool)
    ensures
        r == is_glob_text(pattern@),
{
    let v = chars_of(pattern);
    let mut i: usize = 0;
    while i < v.len()
        invariant
            v@ == pattern@,
            i <= v@.len(),
            forall|j: int| 0 <= j < i ==> v@[j] != '*' && v@[j] != '?',
        decreases v.len() - i,
    {
        if v[i] == '*' || v[i] == '?' {
            return true;
        }
        i += 1;
    }
    false
}

/// Whether `s` holds an uppercase character.
pub fn has_uppercase(s: &str) -> (r: bool)
    ensures
        r == has_upper(s@),
{
    let v = chars_of(s);
    let mut i: usize = 0;
    while i < v.len()
        invariant
            v@ == s@,
            i <= v@.len(),
            forall|j: int| 0 <= j < i ==> !is_upper(#[trigger] v@[j]),
        decreases v.len() - i,
    {
        if char_is_uppercase(v[i]) {
            return true;
        }
        i += 1;
    }
    false
}

fn push_escaped(out: &mut String, v: &Vec<char>)
    ensures
        final(out)@ == old(out)@ + escaped(v@),
{
    let ghost start = out@;
    let mut i: usize = 0;
    assert(v@.subrange(0, 0) =~= Seq::<char>::empty());
    while i < v.len()
        invariant
            i <= v@.len(),
            out@ == start + escaped(v@.subrange(0, i as int)),
        decreases v.len() - i,
    {
        let ghost before = out@;
        let c = v[i];
        if c == '\\' {
            push_char(out, '\\');
            push_char(out, '\\');
        } else if c == '"' {
            push_char(out, '\\');
            push_char(out, '"');
        } else {
            push_char(out, c);
        }
        proof {
            let q = v@.subrange(0, i as int + 1);
            assert(q.drop_last() =~= v@.subrange(0, i as int));
            assert(out@ =~= before + escape_char(c));
        }
        i += 1;
    }
    assert(v@.subrange(0, v@.len() as int) =~= v@);
}

/// `s` with `\` and `"` escaped by a backslash, for a quoted query string.
pub fn escape_query_string(s: &str) -> (r: String)
    ensures
        r@ == escaped(s@),
{
    let mut out = String::new();
    push_escaped(&mut out, &chars_of(s));
    out
}

/// The predicate query on file names for `pattern`: everything when absent,
/// a glob as written, otherwise the pattern as a substring; it ignores case
/// when the pattern has no uppercase character.
pub fn build_query(pattern: Option<&str>) -> (r: String)
    ensures
        r@ == query_text(opt_view(pattern)),
{
    let mut pat: Vec<char> = Vec::new();
    let mut insensitive = false;
    match pattern {
        None => {
            pat.push('*');
            assert(pat@ =~= seq!['*']);
        },
        Some(p) => {
            let v = chars_of(p);
            if is_glob(p) {
                pat = v;
            } else {
                pat.push('*');
                let mut i: usize = 0;
                while i < v.len()
                    invariant
                        v@ == p@,
                        i <= v@.len(),
                        pat@ == seq!['*'] + v@.subrange(0, i as int),
                    decreases v.len() - i,
                {
                    pat.push(v[i]);
                    assert(v@.subrange(0, i as int + 1) =~= v@.subrange(0, i as int).push(
                        v@[i as int],
                    ));
                    assert(pat@ =~= seq!['*'] + v@.subrange(0, i as int + 1));
                    i += 1;
                }
                pat.push('*');
                assert(v@.subrange(0, v@.len() as int) =~= v@);
                assert(pat@ =~= seq!['*'] + p@ + seq!['*']);
            }
            insensitive = !has_uppercase(p);
        },
    }
    let mut out = String::new();
    let head = "kMDItemFSName == \"";
    push_chars(&mut out, &chars_of(head));
    push_escaped(&mut out, &pat);
    push_char(&mut out, '"');
    if insensitive {
        push_char(&mut out, 'c');
    }
    assert(out@ =~= query_text(opt_view(pattern)));
    out
}

/// Whether `base` lies under one of the temporary locations where the
/// index's name query misses results.
pub fn should_avoid_name_fast_path(base: &str) -> (r: bool)
    ensures
        r == avoids_name_query(path_comps(base@)),
{
    let b = split_path(base);
    comps_start_with(&b, &split_path("/var/folders")) || comps_start_with(
        &b,
        &split_path("/private/var/folders"),
    ) || comps_start_with(&b, &split_path("/tmp")) || comps_start_with(
        &b,
        &split_path("/private/tmp"),
    )
}

/// The index query for `pattern` under `base`. A substring pattern uses the
/// index's name query, except under temporary locations; that query ignores
/// case, so an uppercase pattern adds a case-sensitive matcher.
pub fn build_mdfind_plan(base: &str, pattern: Option<&str>) -> (r: QueryPlan)
    ensures
        r.args@.len() >= 4,
        r.args@[0]@ == "-0"@,
        r.args@[1]@ == "-onlyin"@,
        r.args@[2]@ == base@,
        match pattern {
            Some(p) if !is_glob_text(p@) && !avoids_name_query(path_comps(base@)) => {
                &&& r.args@.len() == 5
                &&& r.args@[3]@ == "-name"@
                &&& r.args@[4]@ == p@
                &&& (r.rust_matcher is Some) == has_upper(p@)
                &&& (r.rust_matcher matches Some(RustMatcher::CaseSensitiveSubstring { needle })
                    ==> needle@ == p@)
            },
            _ => {
                &&& r.args@.len() == 4
                &&& r.args@[3]@ == query_text(opt_view(pattern))
                &&& r.rust_matcher is None
            },
        },
{
    let mut args: Vec<String> = Vec::new();
    args.push("-0".to_owned());
    args.push("-onlyin".to_owned());
    args.push(base.to_owned());
    let fast = match pattern {
        Some(p) => !is_glob(p) && !should_avoid_name_fast_path(base),
        None => false,
    };
    if !fast {
        args.push(build_query(pattern));
        return QueryPlan { args, rust_matcher: None };
    }
    let p = match pattern {
        Some(p) => p,
        None => "",
    };
    args.push("-name".to_owned());
    args.push(p.to_owned());
    let rust_matcher = if has_uppercase(p) {
        Some(RustMatcher::CaseSensitiveSubstring { needle: p.to_owned() })
    } else {
        None
    };
    QueryPlan { args, rust_matcher }
}

} // verus!
