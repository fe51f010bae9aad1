use vstd::prelude::*;
use vstd::utf8::{is_char_boundary, valid_utf8, valid_utf8_concat, valid_utf8_split};

use crate::error::LsError;
use crate::position::bytes_of;

verus! {

/// `b` with the bytes in `[start, end)` replaced by `s`.
pub open spec fn splice(b: Seq<u8>, s: Seq<u8>, start: int, end: int) -> Seq<u8> {
    b.subrange(0, start) + s + b.subrange(end, b.len() as int)
}

/// The outcome of replacing `[start, end)` of `target` by `diff`: the range
/// must be ordered and inside the text, and the result must be UTF-8.
pub open spec fn change_result(target: Seq<char>, diff: Seq<char>, start: int, end: int) -> Result<Seq<u8>, LsError> {
    if !(0 <= start <= end <= bytes_of(target).len()) {
        Err(LsError::InvalidRange)
    } else if !valid_utf8(splice(bytes_of(target), bytes_of(diff), start, end)) {
        Err(LsError::InvalidUtf8)
    } else {
        Ok(splice(bytes_of(target), bytes_of(diff), start, end))
    }
}

/// Relies on `String::from_utf8`: it accepts exactly the valid UTF-8 byte
/// sequences, and the string it returns holds those bytes.
#[verifier::external_body]
fn string_from_utf8(v: Vec<u8>) -> (r: Option<String>)
    ensures
        r is Some <==> valid_utf8(v@),
        r matches Some(s) ==> bytes_of(s@) == v@,
{
    String::from_utf8(v).ok()
}

/// Replaces the bytes `range` of `target` by `diff`.
pub fn apply_change(target: String, diff: String, range: std::ops::Range<usize>) -> (r: Result<String, LsError>)
    ensures
        match change_result(target@, diff@, range.start as int, range.end as int) {
            Ok(b) => r matches Ok(s) && bytes_of(s@) == b,
            Err(e) => r == Err::<String, LsError>(e),
        },
{
    let start = range.start;
    let end = range.end;
    let t = target.as_str().as_bytes();
    let d = diff.as_str().as_bytes();
    if !(start <= end && end <= t.len()) {
        return Err(LsError::InvalidRange);
    }
    let mut out: Vec<u8> = Vec::new();
    let mut i: usize = 0;
    while i < start
        invariant
            i <= start <= end <= t@.len(),
            out@ == t@.subrange(0, i as int),
        decreases start - i,
    {
        out.push(t[i]);
        i = i + 1;
        assert(out@ =~= t@.subrange(0, i as int));
    }
    let mut j: usize = 0;
    while j < d.len()
        invariant
            j <= d@.len(),
            out@ == t@.subrange(0, start as int) + d@.subrange(0, j as int),
        decreases d@.len() - j,
    {
        out.push(d[j]);
        j = j + 1;
        assert(out@ =~= t@.subrange(0, start as int) + d@.subrange(0, j as int));
    }
    assert(d@.subrange(0, j as int) =~= d@);
    let mut k: usize = end;
    while k < t.len()
        invariant
            end <= k <= t@.len(),
            out@ == t@.subrange(0, start as int) + d@ + t@.subrange(end as int, k as int),
        decreases t@.len() - k,
    {
        out.push(t[k]);
        k = k + 1;
        assert(out@ =~= t@.subrange(0, start as int) + d@ + t@.subrange(end as int, k as int));
    }
    assert(out@ =~= splice(bytes_of(target@), bytes_of(diff@), start as int, end as int));
    match string_from_utf8(out) {
        Some(s) => Ok(s),
        None => Err(LsError::InvalidUtf8),
    }
}

/// Splicing UTF-8 text into a UTF-8 text at two character boundaries gives
/// UTF-8 again.
pub proof fn lemma_splice_valid(b: Seq<u8>, s: Seq<u8>, start: int, end: int)
    requires
        valid_utf8(b),
        valid_utf8(s),
        is_char_boundary(b, start),
        is_char_boundary(b, end),
        start <= end,
    ensures
        valid_utf8(splice(b, s, start, end)),
{
    valid_utf8_split(b, start);
    valid_utf8_split(b, end);
    valid_utf8_concat(b.subrange(0, start), s);
    valid_utf8_concat(b.subrange(0, start) + s, b.subrange(end, b.len() as int));
}

} // verus!
