use vstd::prelude::*;

verus! {

/// The index binary could not be started because it is not installed.
#[derive(Debug, Clone, Copy, PartialEq, Eq, Structural)]
pub struct MdfindNotFound;

/// `rec` without its trailing NUL and carriage-return bytes.
pub open spec fn trimmed(rec: Seq<u8>) -> Seq<u8>
    decreases rec.len(),
{
    if rec.len() > 0 && (rec.last() == 0u8 || rec.last() == 13u8) {
        trimmed(rec.drop_last())
    } else {
        rec
    }
}

/// One record of the index's NUL-separated output, as a candidate path:
/// trailing NUL and carriage-return bytes are dropped, and an empty record is
/// skipped.
pub fn trim_record(rec: &Vec<u8>) -> (r: Option<Vec<u8>>)
    ensures
        r matches Some(v) ==> v@ == trimmed(rec@) && v@.len() > 0,
        r is None ==> trimmed(rec@).len() == 0,
{
    let mut end = rec.len();
    assert(rec@.subrange(0, end as int) =~= rec@);
    while end > 0 && (rec[end - 1] == 0 || rec[end - 1] == 13)
        invariant
            end <= rec@.len(),
            trimmed(rec@) == trimmed(rec@.subrange(0, end as int)),
        decreases end,
    {
        assert(rec@.subrange(0, end as int).drop_last() =~= rec@.subrange(0, end as int - 1));
        end -= 1;
    }
    if end == 0 {
        return None;
    }
    let mut v: Vec<u8> = Vec::new();
    let mut i: usize = 0;
    while i < end
        invariant
            end <= rec@.len(),
            i <= end,
            v@ == rec@.subrange(0, i as int),
        decreases end - i,
    {
        v.push(rec[i]);
        assert(rec@.subrange(0, i as int + 1) =~= rec@.subrange(0, i as int).push(rec@[i as int]));
        i += 1;
    }
    Some(v)
}

} // verus!
