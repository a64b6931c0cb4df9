use vstd::prelude::*;

use crate::pathname::{
    clean_comps, clean_name, comps_scan, comps_start_with, comps_view, lemma_comps_clean,
    lemma_comps_concat, lemma_comps_of_rel_text, lemma_comps_trailing_slash, path_comps,
    lemma_rel_text_first, push_chars, rel_text, split_path,
};
use crate::text::{chars_of, push_char};
use vstd::string::StringSliceAdditionalSpecFns;

verus! {

/// What follows each printed path.
#[derive(Clone, Copy, Debug, PartialEq, Eq, Structural)]
pub enum Delimiter {
    Newline,
    Nul,
}

/// The byte that ends a record.
pub open spec fn delimiter_byte(d: Delimiter) -> u8 {
    match d {
        Delimiter::Newline => 10u8,
        Delimiter::Nul => 0u8,
    }
}

/// How included paths are shown.
pub struct OutputStyle {
    cwd: String,
    search_base: String,
    path_arg: Option<String>,
}

/// A path text that starts at the filesystem root.
pub open spec fn is_absolute_text(p: Seq<char>) -> bool {
    p.len() > 0 && p[0] == '/'
}

/// `abs` relative to `base`, component-wise: `.` for `base` itself, `abs`
/// unchanged where it does not lie under `base`.
pub open spec fn relative_to(abs: Seq<char>, base: Seq<char>) -> Seq<char> {
    let p = path_comps(abs);
    let b = path_comps(base);
    if b.is_prefix_of(p) {
        if p.len() == b.len() {
            seq!['.']
        } else {
            rel_text(p.skip(b.len() as int))
        }
    } else {
        abs
    }
}

/// `r` joined onto `p` as a path: an absolute `r` replaces `p`; otherwise one
/// separator goes between them unless `p` is empty or already ends with one.
pub open spec fn join_text(p: Seq<char>, r: Seq<char>) -> Seq<char> {
    if is_absolute_text(r) {
        r
    } else if p.len() == 0 || p.last() == '/' {
        p + r
    } else {
        p + seq!['/'] + r
    }
}

/// The display text of `abs`: relative to the working directory when no path
/// argument was given; unchanged under an absolute path argument; under a
/// relative one, the argument joined with the part below the search base.
pub open spec fn render_text(
    cwd: Seq<char>,
    base: Seq<char>,
    path_arg: Option<Seq<char>>,
    abs: Seq<char>,
) -> Seq<char> {
    match path_arg {
        None => relative_to(abs, cwd),
        Some(a) => if is_absolute_text(a) {
            abs
        } else {
            let rel = relative_to(abs, base);
            if rel.len() == 0 || rel == seq!['.'] {
                a
            } else {
                join_text(a, rel)
            }
        },
    }
}

pub open spec fn opt_text(t: Option<&str>) -> Option<Seq<char>> {
    match t {
        Some(s) => Some(s@),
        None => None,
    }
}

impl OutputStyle {
    pub closed spec fn cwd_text(&self) -> Seq<char> {
        self.cwd@
    }

    pub closed spec fn base_text(&self) -> Seq<char> {
        self.search_base@
    }

    pub closed spec fn arg_text(&self) -> Option<Seq<char>> {
        match self.path_arg {
            Some(s) => Some(s@),
            None => None,
        }
    }

    /// A style for the working directory `cwd`, the search base and the
    /// user's literal path argument, if any.
    pub fn new(cwd: String, search_base: String, path_arg: Option<&str>) -> (r: OutputStyle)
        ensures
            r.cwd_text() == cwd@,
            r.base_text() == search_base@,
            r.arg_text() == opt_text(path_arg),
    {
        let path_arg = match path_arg {
            Some(p) => Some(p.to_owned()),
            None => None,
        };
        OutputStyle { cwd, search_base, path_arg }
    }

    /// The display text of the absolute path `abs_path`.
    pub fn render(&self, abs_path: &str) -> (r: String)
        ensures
            r@ == render_text(self.cwd_text(), self.base_text(), self.arg_text(), abs_path@),
    {
        match &self.path_arg {
            None => strip_prefix_or_abs(abs_path, self.cwd.as_str()),
            Some(a) => {
                let arg = chars_of(a.as_str());
                if arg.len() > 0 && arg[0] == '/' {
                    return abs_path.to_owned();
                }
                let rel = strip_prefix_or_abs(abs_path, self.search_base.as_str());
                let rel_chars = chars_of(rel.as_str());
                if rel_chars.len() == 0 || (rel_chars.len() == 1 && rel_chars[0] == '.') {
                    proof {
                        if rel_chars@.len() == 1 && rel_chars@[0] == '.' {
                            assert(rel_chars@ =~= seq!['.']);
                        }
                    }
                    return a.clone();
                }
                proof {
                    if rel_chars@ == seq!['.'] {
                        assert(rel_chars@.len() == 1);
                    }
                }
                join_chars(&arg, &rel_chars)
            },
        }
    }
}

/// `r` joined onto `p` as a path (see `join_text`).
fn join_chars(p: &Vec<char>, r: &Vec<char>) -> (out: String)
    ensures
        out@ == join_text(p@, r@),
{
    let mut out = String::new();
    if r.len() > 0 && r[0] == '/' {
        push_chars(&mut out, r);
        return out;
    }
    push_chars(&mut out, p);
    if p.len() > 0 && p[p.len() - 1] != '/' {
        push_char(&mut out, '/');
    }
    push_chars(&mut out, r);
    out
}

/// The join of two path texts (see `join_text`).
pub fn join_path(p: &str, r: &str) -> (out: String)
    ensures
        out@ == join_text(p@, r@),
{
    join_chars(&chars_of(p), &chars_of(r))
}

/// `path` relative to `base` (see `relative_to`).
pub fn strip_prefix_or_abs(path: &str, base: &str) -> (r: String)
    ensures
        r@ == relative_to(path@, base@),
{
    let p = split_path(path);
    let b = split_path(base);
    if !comps_start_with(&p, &b) {
        return path.to_owned();
    }
    let mut out = String::new();
    if p.len() == b.len() {
        push_char(&mut out, '.');
        return out;
    }
    let ghost rest = comps_view(p@).skip(b@.len() as int);
    let mut k = b.len();
    push_chars(&mut out, &p[k]);
    proof {
        assert(rest.subrange(0, 1) =~= seq![p@[k as int]@]);
        assert(out@ == rel_text(rest.subrange(0, 1)));
    }
    k += 1;
    while k < p.len()
        invariant
            b@.len() < k <= p@.len(),
            rest == comps_view(p@).skip(b@.len() as int),
            out@ == rel_text(rest.subrange(0, k - b@.len())),
        decreases p.len() - k,
    {
        let ghost before = out@;
        push_char(&mut out, '/');
        push_chars(&mut out, &p[k]);
        proof {
            let q = rest.subrange(0, k - b@.len() + 1);
            assert(q.drop_last() =~= rest.subrange(0, k - b@.len()));
            assert(q.last() == p@[k as int]@);
            assert(out@ =~= before + seq!['/'] + p@[k as int]@);
        }
        k += 1;
    }
    assert(rest.subrange(0, rest.len() as int) =~= rest);
    out
}

/// Appends `path` and the delimiter's byte to `out`.
pub fn write_path(out: &mut Vec<u8>, path: &str, delim: Delimiter)
    ensures
        final(out)@ == old(out)@ + path.spec_bytes() + seq![delimiter_byte(delim)],
{
    let bytes = path.as_bytes();
    let ghost start = out@;
    let mut i: usize = 0;
    while i < bytes.len()
        invariant
            bytes@ == path.spec_bytes(),
            i <= bytes@.len(),
            out@ == start + bytes@.subrange(0, i as int),
        decreases bytes.len() - i,
    {
        out.push(bytes[i]);
        assert(bytes@.subrange(0, i as int + 1) =~= bytes@.subrange(0, i as int).push(
            bytes@[i as int],
        ));
        i += 1;
    }
    assert(bytes@.subrange(0, bytes@.len() as int) =~= bytes@);
    let b: u8 = match delim {
        Delimiter::Newline => 10,
        Delimiter::Nul => 0,
    };
    out.push(b);
}

} // verus!

verus! {

/// Round trip of `render` under a relative path argument `a`: a path below the
/// search base is shown as `a` joined with its tail below the base; that tail
/// is what follows `a` in the shown text; joining the tail back onto the base
/// gives the same path, and rendering it gives the same text.
pub proof fn lemma_render_round_trip(cwd: Seq<char>, base: Seq<char>, a: Seq<char>, abs: Seq<char>)
    requires
        !is_absolute_text(a),
        path_comps(base).is_prefix_of(path_comps(abs)),
        path_comps(base).len() < path_comps(abs).len(),
    ensures
        ({
            let tail = path_comps(abs).skip(path_comps(base).len() as int);
            let x = render_text(cwd, base, Some(a), abs);
            let rebuilt = join_text(base, rel_text(tail));
            &&& x == join_text(a, rel_text(tail))
            &&& x.skip(x.len() - rel_text(tail).len()) == rel_text(tail)
            &&& path_comps(rebuilt) == path_comps(abs)
            &&& render_text(cwd, base, Some(a), rebuilt) == x
        }),
{
    let b = path_comps(base);
    let p = path_comps(abs);
    let tail = p.skip(b.len() as int);
    let rel = rel_text(tail);
    lemma_comps_clean(abs);
    assert(clean_comps(tail)) by {
        assert forall|i: int| 0 <= i < tail.len() implies clean_name(#[trigger] tail[i]) by {
            assert(tail[i] == p[i + b.len()]);
        }
    }
    lemma_comps_of_rel_text(tail);
    assert(clean_name(tail[0]));
    lemma_rel_text_first(tail);
    assert(!tail[0].contains('/'));
    assert(!is_absolute_text(rel)) by {
        assert(rel[0] == tail[0][0]);
        assert(tail[0][0] != '/') by {
            if tail[0][0] == '/' {
                assert(tail[0].contains('/'));
            }
        }
    }
    assert(rel != seq!['.']) by {
        if rel == seq!['.'] {
            assert(path_comps(seq!['.']) == comps_scan(seq!['.'], 1, seq!['.'], seq![]));
            assert(path_comps(seq!['.']).len() == 0);
        }
    }
    assert(relative_to(abs, base) == rel);
    let x = render_text(cwd, base, Some(a), abs);
    assert(x.skip(x.len() - rel.len()) =~= rel);
    let rebuilt = join_text(base, rel);
    assert(b + tail =~= p);
    if base.len() == 0 {
        assert(path_comps(base) =~= Seq::<Seq<char>>::empty());
        assert(rebuilt =~= rel);
        assert(b + tail =~= tail);
    } else if base.last() == '/' {
        lemma_comps_concat(base, rel);
    } else {
        let u = base + seq!['/'];
        assert(rebuilt =~= u + rel);
        lemma_comps_concat(u, rel);
        lemma_comps_trailing_slash(base);
    }
    assert(path_comps(rebuilt) == p);
    assert(b.is_prefix_of(path_comps(rebuilt)));
    assert(relative_to(rebuilt, base) == rel);
}

} // verus!
