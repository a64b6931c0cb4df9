use vstd::prelude::*;

use crate::text::{chars_of, push_char};

verus! {

/// A path as the sequence of its component names, read from the filesystem root.
pub type Comps = Seq<Seq<char>>;

/// The component names held by a vector of component buffers.
pub open spec fn comps_view(v: Seq<Vec<char>>) -> Comps {
    v.map_values(|c: Vec<char>| c@)
}

/// A run between separators becomes a component unless it is empty or `.`.
pub open spec fn keeps_name(cur: Seq<char>) -> bool {
    cur.len() > 0 && cur != seq!['.']
}

pub open spec fn flush_name(acc: Comps, cur: Seq<char>) -> Comps {
    if keeps_name(cur) {
        acc.push(cur)
    } else {
        acc
    }
}

/// Reads `s` from position `i` on, with `cur` the run read so far and `acc` the
/// components already closed.
pub open spec fn comps_scan(s: Seq<char>, i: int, cur: Seq<char>, acc: Comps) -> Comps
    decreases s.len() - i,
{
    if i >= s.len() {
        flush_name(acc, cur)
    } else if s[i] == '/' {
        comps_scan(s, i + 1, seq![], flush_name(acc, cur))
    } else {
        comps_scan(s, i + 1, cur.push(s[i]), acc)
    }
}

/// The components of a path text: the runs between `/` separators, without
/// empty runs and without `.`.
pub open spec fn path_comps(s: Seq<char>) -> Comps {
    comps_scan(s, 0, seq![], seq![])
}

/// Components joined by `/`, with no leading separator.
pub open spec fn rel_text(p: Comps) -> Seq<char>
    decreases p.len(),
{
    if p.len() == 0 {
        seq![]
    } else if p.len() == 1 {
        p[0]
    } else {
        rel_text(p.drop_last()) + seq!['/'] + p.last()
    }
}

/// Each component preceded by `/`.
pub open spec fn slash_join(p: Comps) -> Seq<char>
    decreases p.len(),
{
    if p.len() == 0 {
        seq![]
    } else {
        slash_join(p.drop_last()) + seq!['/'] + p.last()
    }
}

/// The absolute text of a component sequence; the filesystem root is `/`.
pub open spec fn path_text(p: Comps) -> Seq<char> {
    if p.len() == 0 {
        seq!['/']
    } else {
        slash_join(p)
    }
}

/// The directory that holds `p`; the root is its own parent.
pub open spec fn parent_of(p: Comps) -> Comps {
    if p.len() == 0 {
        p
    } else {
        p.drop_last()
    }
}

/// A hidden name starts with `.` and is neither `.` nor `..`.
pub open spec fn is_hidden_name(c: Seq<char>) -> bool {
    c.len() > 0 && c[0] == '.' && c != seq!['.'] && c != seq!['.', '.']
}

/// Some component of `p` at position `start` or later is hidden.
pub open spec fn hidden_from(p: Comps, start: int) -> bool {
    exists|i: int| start <= i < p.len() && is_hidden_name(#[trigger] p[i])
}

/// The hidden predicate: only the components below `base` count when `p` lies
/// under `base`; otherwise every component counts.
pub open spec fn hidden_under(p: Comps, base: Comps) -> bool {
    if base.is_prefix_of(p) {
        hidden_from(p, base.len() as int)
    } else {
        hidden_from(p, 0)
    }
}

/// Splits a path text into its components.
pub fn split_path(s: &str) -> (r: Vec<Vec<char>>)
    ensures
        comps_view(r@) == path_comps(s@),
{
    let v = chars_of(s);
    let mut acc: Vec<Vec<char>> = Vec::new();
    let mut cur: Vec<char> = Vec::new();
    let mut i: usize = 0;
    assert(comps_view(acc@) =~= Seq::<Seq<char>>::empty());
    assert(cur@ =~= Seq::<char>::empty());
    while i < v.len()
        invariant
            v@ == s@,
            i <= v.len(),
            path_comps(s@) == comps_scan(s@, i as int, cur@, comps_view(acc@)),
        decreases v.len() - i,
    {
        if v[i] == '/' {
            let keep = keeps(&cur);
            if keep {
                proof {
                    assert(comps_view(acc@.push(cur)) =~= comps_view(acc@).push(cur@));
                }
                acc.push(cur);
            }
            cur = Vec::new();
        } else {
            cur.push(v[i]);
        }
        i += 1;
    }
    if keeps(&cur) {
        proof {
            assert(comps_view(acc@.push(cur)) =~= comps_view(acc@).push(cur@));
        }
        acc.push(cur);
    }
    acc
}

fn keeps(cur: &Vec<char>) -> (r: bool)
    ensures
        r == keeps_name(cur@),
{
    if cur.len() == 0 {
        false
    } else if cur.len() == 1 && cur[0] == '.' {
        assert(cur@ =~= seq!['.']);
        false
    } else {
        assert(cur@.len() == 1 ==> cur@ != seq!['.']) by {
            if cur@.len() == 1 && cur@ == seq!['.'] {
                assert(cur@[0] == '.');
            }
        }
        true
    }
}

/// Whether a single component is hidden.
pub fn is_hidden_component(c: &Vec<char>) -> (r: bool)
    ensures
        r == is_hidden_name(c@),
{
    if c.len() == 0 || c[0] != '.' {
        return false;
    }
    if c.len() == 1 {
        assert(c@ =~= seq!['.']);
        return false;
    }
    if c.len() == 2 && c[1] == '.' {
        assert(c@ =~= seq!['.', '.']);
        return false;
    }
    assert(c@ != seq!['.']) by {
        assert(seq!['.'].len() == 1);
    }
    assert(c@ != seq!['.', '.']) by {
        if c@.len() == 2 {
            assert(c@[1] != seq!['.', '.'][1]);
        }
    }
    true
}

/// Whether some component of `p` at position `start` or later, and before
/// `end`, is hidden.
pub fn any_hidden_between(p: &Vec<Vec<char>>, start: usize, end: usize) -> (r: bool)
    requires
        end <= p@.len(),
    ensures
        r == hidden_from(comps_view(p@).subrange(0, end as int), start as int),
{
    let ghost q = comps_view(p@).subrange(0, end as int);
    let mut i = start;
    while i < end
        invariant
            end <= p@.len(),
            q == comps_view(p@).subrange(0, end as int),
            start <= i,
            forall|j: int| start <= j < i && j < end ==> !is_hidden_name(#[trigger] q[j]),
        decreases end - i,
    {
        assert(q[i as int] == p@[i as int]@);
        if is_hidden_component(&p[i]) {
            return true;
        }
        i += 1;
    }
    false
}

fn any_hidden_from(p: &Vec<Vec<char>>, start: usize) -> (r: bool)
    ensures
        r == hidden_from(comps_view(p@), start as int),
{
    assert(comps_view(p@).subrange(0, p@.len() as int) =~= comps_view(p@));
    any_hidden_between(p, start, p.len())
}

/// Whether `prefix` is a leading part of `p`, component by component.
pub fn comps_start_with(p: &Vec<Vec<char>>, prefix: &Vec<Vec<char>>) -> (r: bool)
    ensures
        r == comps_view(prefix@).is_prefix_of(comps_view(p@)),
{
    if prefix.len() > p.len() {
        return false;
    }
    let mut i: usize = 0;
    while i < prefix.len()
        invariant
            prefix@.len() <= p@.len(),
            i <= prefix@.len(),
            forall|j: int| 0 <= j < i ==> #[trigger] prefix@[j]@ == p@[j]@,
        decreases prefix.len() - i,
    {
        if !chars_equal(&prefix[i], &p[i]) {
            assert(comps_view(prefix@)[i as int] != comps_view(p@).subrange(
                0,
                prefix@.len() as int,
            )[i as int]);
            return false;
        }
        i += 1;
    }
    assert(comps_view(prefix@) =~= comps_view(p@).subrange(0, prefix@.len() as int));
    true
}

/// Whether two names hold the same characters.
pub fn chars_equal(a: &Vec<char>, b: &Vec<char>) -> (r: bool)
    ensures
        r == (a@ == b@),
{
    if a.len() != b.len() {
        return false;
    }
    let mut i: usize = 0;
    while i < a.len()
        invariant
            a@.len() == b@.len(),
            i <= a@.len(),
            forall|j: int| 0 <= j < i ==> a@[j] == b@[j],
        decreases a.len() - i,
    {
        if a[i] != b[i] {
            return false;
        }
        i += 1;
    }
    assert(a@ =~= b@);
    true
}

/// The hidden predicate on component sequences (see `hidden_under`).
pub fn hidden_below(p: &Vec<Vec<char>>, base: &Vec<Vec<char>>) -> (r: bool)
    ensures
        r == hidden_under(comps_view(p@), comps_view(base@)),
{
    if comps_start_with(p, base) {
        any_hidden_from(p, base.len())
    } else {
        any_hidden_from(p, 0)
    }
}

/// Whether the path text `path` has a hidden component.
pub fn is_hidden_path(path: &str) -> (r: bool)
    ensures
        r == hidden_from(path_comps(path@), 0),
{
    let p = split_path(path);
    any_hidden_from(&p, 0)
}

/// Whether `path` has a hidden component below `base`; where `path` does not
/// lie under `base`, every component counts.
pub fn is_hidden_under_base(path: &str, base: &str) -> (r: bool)
    ensures
        r == hidden_under(path_comps(path@), path_comps(base@)),
{
    let p = split_path(path);
    let b = split_path(base);
    hidden_below(&p, &b)
}

/// Appends each of the first `n` components, each preceded by `/`.
fn push_slash_joined(out: &mut String, p: &Vec<Vec<char>>, n: usize)
    requires
        n <= p@.len(),
    ensures
        final(out)@ == old(out)@ + slash_join(comps_view(p@).subrange(0, n as int)),
{
    let ghost start = out@;
    let mut k: usize = 0;
    assert(comps_view(p@).subrange(0, 0) =~= Seq::<Seq<char>>::empty());
    while k < n
        invariant
            n <= p@.len(),
            k <= n,
            out@ == start + slash_join(comps_view(p@).subrange(0, k as int)),
        decreases n - k,
    {
        let ghost before = out@;
        push_char(out, '/');
        push_chars(out, &p[k]);
        proof {
            let q = comps_view(p@).subrange(0, k as int + 1);
            assert(q.drop_last() =~= comps_view(p@).subrange(0, k as int));
            assert(q.last() == p@[k as int]@);
            assert(out@ =~= before + seq!['/'] + p@[k as int]@);
        }
        k += 1;
    }
}

/// Appends the characters of `c`.
pub fn push_chars(out: &mut String, c: &Vec<char>)
    ensures
        final(out)@ == old(out)@ + c@,
{
    let ghost start = out@;
    let mut i: usize = 0;
    while i < c.len()
        invariant
            i <= c@.len(),
            out@ == start + c@.subrange(0, i as int),
        decreases c.len() - i,
    {
        push_char(out, c[i]);
        assert(c@.subrange(0, i as int + 1) =~= c@.subrange(0, i as int).push(c@[i as int]));
        i += 1;
    }
    assert(c@.subrange(0, c@.len() as int) =~= c@);
}

/// The absolute text of the first `n` components of `p`.
pub fn prefix_text(p: &Vec<Vec<char>>, n: usize) -> (r: String)
    requires
        n <= p@.len(),
    ensures
        r@ == path_text(comps_view(p@).subrange(0, n as int)),
{
    let mut out = String::new();
    if n == 0 {
        push_char(&mut out, '/');
        return out;
    }
    push_slash_joined(&mut out, p, n);
    out
}

} // verus!

verus! {

/// Hidden locality: the hidden predicate reads only the components below the
/// base. Two paths with the same components below their bases are judged
/// alike, whatever the bases themselves hold.
pub proof fn lemma_hidden_locality(b1: Comps, b2: Comps, tail: Comps)
    ensures
        hidden_under(b1 + tail, b1) == hidden_under(b2 + tail, b2),
        hidden_under(b1 + tail, b1) == hidden_from(tail, 0),
{
    lemma_hidden_below_base(b1, tail);
    lemma_hidden_below_base(b2, tail);
}

proof fn lemma_hidden_below_base(b: Comps, tail: Comps)
    ensures
        hidden_under(b + tail, b) == hidden_from(tail, 0),
{
    let p = b + tail;
    assert(b.is_prefix_of(p)) by {
        assert(p.subrange(0, b.len() as int) =~= b);
    }
    if hidden_from(p, b.len() as int) {
        let i = choose|i: int| b.len() <= i < p.len() && is_hidden_name(#[trigger] p[i]);
        assert(tail[i - b.len()] == p[i]);
    }
    if hidden_from(tail, 0) {
        let j = choose|j: int| 0 <= j < tail.len() && is_hidden_name(#[trigger] tail[j]);
        assert(p[j + b.len()] == tail[j]);
    }
}

/// `.` and `..` are never hidden.
pub proof fn lemma_dot_names_not_hidden()
    ensures
        !is_hidden_name(seq!['.']),
        !is_hidden_name(seq!['.', '.']),
{
}

} // verus!

verus! {

/// The run being read once `s` is consumed from position `i`.
spec fn scan_cur(s: Seq<char>, i: int, cur: Seq<char>) -> Seq<char>
    decreases s.len() - i,
{
    if i >= s.len() {
        cur
    } else if s[i] == '/' {
        scan_cur(s, i + 1, seq![])
    } else {
        scan_cur(s, i + 1, cur.push(s[i]))
    }
}

/// The components closed once `s` is consumed from position `i`.
spec fn scan_acc(s: Seq<char>, i: int, cur: Seq<char>, acc: Comps) -> Comps
    decreases s.len() - i,
{
    if i >= s.len() {
        acc
    } else if s[i] == '/' {
        scan_acc(s, i + 1, seq![], flush_name(acc, cur))
    } else {
        scan_acc(s, i + 1, cur.push(s[i]), acc)
    }
}

/// A component as a path holds it: not empty, not `.`, and without `/`.
pub open spec fn clean_name(c: Seq<char>) -> bool {
    keeps_name(c) && !c.contains('/')
}

pub open spec fn clean_comps(p: Comps) -> bool {
    forall|i: int| 0 <= i < p.len() ==> clean_name(#[trigger] p[i])
}

proof fn lemma_scan_end(s: Seq<char>, i: int, cur: Seq<char>, acc: Comps)
    requires
        0 <= i <= s.len(),
    ensures
        comps_scan(s, i, cur, acc) == flush_name(scan_acc(s, i, cur, acc), scan_cur(s, i, cur)),
    decreases s.len() - i,
{
    if i < s.len() {
        if s[i] == '/' {
            lemma_scan_end(s, i + 1, seq![], flush_name(acc, cur));
        } else {
            lemma_scan_end(s, i + 1, cur.push(s[i]), acc);
        }
    }
}

proof fn lemma_scan_shift(u: Seq<char>, v: Seq<char>, j: int, cur: Seq<char>, acc: Comps)
    requires
        0 <= j <= v.len(),
    ensures
        comps_scan(u + v, u.len() + j, cur, acc) == comps_scan(v, j, cur, acc),
    decreases v.len() - j,
{
    let x = u + v;
    if j < v.len() {
        assert(x[u.len() + j] == v[j]);
        if v[j] == '/' {
            lemma_scan_shift(u, v, j + 1, seq![], flush_name(acc, cur));
        } else {
            lemma_scan_shift(u, v, j + 1, cur.push(v[j]), acc);
        }
    }
}

proof fn lemma_scan_concat(u: Seq<char>, v: Seq<char>, i: int, cur: Seq<char>, acc: Comps)
    requires
        0 <= i <= u.len(),
    ensures
        comps_scan(u + v, i, cur, acc) == comps_scan(
            v,
            0,
            scan_cur(u, i, cur),
            scan_acc(u, i, cur, acc),
        ),
    decreases u.len() - i,
{
    let x = u + v;
    if i < u.len() {
        assert(x[i] == u[i]);
        if u[i] == '/' {
            lemma_scan_concat(u, v, i + 1, seq![], flush_name(acc, cur));
        } else {
            lemma_scan_concat(u, v, i + 1, cur.push(u[i]), acc);
        }
    } else {
        lemma_scan_shift(u, v, 0, cur, acc);
    }
}

proof fn lemma_scan_acc_shift(s: Seq<char>, i: int, cur: Seq<char>, acc: Comps)
    requires
        0 <= i <= s.len(),
    ensures
        comps_scan(s, i, cur, acc) == acc + comps_scan(s, i, cur, seq![]),
    decreases s.len() - i,
{
    if i < s.len() {
        if s[i] == '/' {
            lemma_scan_acc_shift(s, i + 1, seq![], flush_name(acc, cur));
            lemma_scan_acc_shift(s, i + 1, seq![], flush_name(seq![], cur));
            assert(flush_name(acc, cur) =~= acc + flush_name(seq![], cur));
        } else {
            lemma_scan_acc_shift(s, i + 1, cur.push(s[i]), acc);
            lemma_scan_acc_shift(s, i + 1, cur.push(s[i]), seq![]);
        }
    } else {
        assert(flush_name(acc, cur) =~= acc + flush_name(seq![], cur));
    }
}

proof fn lemma_scan_cur_slash_end(u: Seq<char>, i: int, cur: Seq<char>)
    requires
        0 <= i < u.len(),
        u.last() == '/',
    ensures
        scan_cur(u, i, cur) == Seq::<char>::empty(),
    decreases u.len() - i,
{
    if i + 1 < u.len() {
        if u[i] == '/' {
            lemma_scan_cur_slash_end(u, i + 1, seq![]);
        } else {
            lemma_scan_cur_slash_end(u, i + 1, cur.push(u[i]));
        }
    } else {
        assert(u[i] == u.last());
        assert(scan_cur(u, i + 1, seq![]) == Seq::<char>::empty());
    }
}

/// Reading a path text that ends with `/` followed by more text: the
/// components of the two parts, in order.
pub proof fn lemma_comps_concat(u: Seq<char>, v: Seq<char>)
    requires
        u.len() > 0,
        u.last() == '/',
    ensures
        path_comps(u + v) == path_comps(u) + path_comps(v),
{
    lemma_scan_concat(u, v, 0, seq![], seq![]);
    lemma_scan_cur_slash_end(u, 0, seq![]);
    let a = scan_acc(u, 0, seq![], seq![]);
    lemma_scan_acc_shift(v, 0, seq![], a);
    lemma_scan_end(u, 0, seq![], seq![]);
}

/// A trailing `/` adds no component.
pub proof fn lemma_comps_trailing_slash(x: Seq<char>)
    ensures
        path_comps(x + seq!['/']) == path_comps(x),
{
    let v = seq!['/'];
    lemma_scan_concat(x, v, 0, seq![], seq![]);
    lemma_scan_end(x, 0, seq![], seq![]);
    let c = scan_cur(x, 0, seq![]);
    let a = scan_acc(x, 0, seq![], seq![]);
    assert(comps_scan(v, 0, c, a) == comps_scan(v, 1, seq![], flush_name(a, c)));
    assert(flush_name(flush_name(a, c), seq![]) == flush_name(a, c));
}

proof fn lemma_scan_name(c: Seq<char>, i: int, cur: Seq<char>, acc: Comps)
    requires
        0 <= i <= c.len(),
        !c.contains('/'),
    ensures
        scan_cur(c, i, cur) == cur + c.skip(i),
        scan_acc(c, i, cur, acc) == acc,
    decreases c.len() - i,
{
    if i < c.len() {
        assert(c[i] != '/');
        lemma_scan_name(c, i + 1, cur.push(c[i]), acc);
        assert(cur.push(c[i]) + c.skip(i + 1) =~= cur + c.skip(i));
    } else {
        assert(cur + c.skip(i) =~= cur);
    }
}

/// A clean name reads as itself.
pub proof fn lemma_comps_of_name(c: Seq<char>)
    requires
        clean_name(c),
    ensures
        path_comps(c) == seq![c],
{
    lemma_scan_name(c, 0, seq![], seq![]);
    lemma_scan_end(c, 0, seq![], seq![]);
    assert(Seq::<char>::empty() + c.skip(0) =~= c);
    assert(Seq::<Seq<char>>::empty().push(c) =~= seq![c]);
}

pub proof fn lemma_rel_text_first(t: Comps)
    requires
        t.len() > 0,
        t[0].len() > 0,
    ensures
        rel_text(t).len() > 0,
        rel_text(t)[0] == t[0][0],
    decreases t.len(),
{
    if t.len() > 1 {
        lemma_rel_text_first(t.drop_last());
    }
}

/// Clean components joined by `/` read back as themselves.
pub proof fn lemma_comps_of_rel_text(t: Comps)
    requires
        t.len() > 0,
        clean_comps(t),
    ensures
        path_comps(rel_text(t)) == t,
    decreases t.len(),
{
    if t.len() == 1 {
        assert(clean_name(t[0]));
        lemma_comps_of_name(t[0]);
        assert(seq![t[0]] =~= t);
    } else {
        let dl = t.drop_last();
        assert(clean_comps(dl)) by {
            assert forall|i: int| 0 <= i < dl.len() implies clean_name(#[trigger] dl[i]) by {
                assert(dl[i] == t[i]);
            }
        }
        lemma_comps_of_rel_text(dl);
        let u = rel_text(dl) + seq!['/'];
        assert(rel_text(t) == u + t.last());
        lemma_comps_concat(u, t.last());
        lemma_comps_trailing_slash(rel_text(dl));
        assert(clean_name(t[t.len() - 1]));
        lemma_comps_of_name(t.last());
        assert(dl + seq![t.last()] =~= t);
    }
}

proof fn lemma_scan_clean(s: Seq<char>, i: int, cur: Seq<char>, acc: Comps)
    requires
        0 <= i <= s.len(),
        clean_comps(acc),
        !cur.contains('/'),
    ensures
        clean_comps(comps_scan(s, i, cur, acc)),
    decreases s.len() - i,
{
    assert(clean_comps(flush_name(acc, cur))) by {
        if keeps_name(cur) {
            assert forall|k: int| 0 <= k < acc.len() + 1 implies clean_name(
                #[trigger] acc.push(cur)[k],
            ) by {
                if k < acc.len() {
                    assert(acc.push(cur)[k] == acc[k]);
                }
            }
        }
    }
    if i < s.len() {
        if s[i] == '/' {
            lemma_scan_clean(s, i + 1, seq![], flush_name(acc, cur));
        } else {
            assert(!cur.push(s[i]).contains('/')) by {
                if cur.push(s[i]).contains('/') {
                    let k = choose|k: int| 0 <= k < cur.len() + 1 && cur.push(s[i])[k] == '/';
                    if k < cur.len() {
                        assert(cur[k] == '/');
                    }
                }
            }
            lemma_scan_clean(s, i + 1, cur.push(s[i]), acc);
        }
    }
}

/// Every component read from a path text is clean.
pub proof fn lemma_comps_clean(s: Seq<char>)
    ensures
        clean_comps(path_comps(s)),
{
    lemma_scan_clean(s, 0, seq![], seq![]);
}

} // verus!
