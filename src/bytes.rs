//! Small helpers on byte strings.

use vstd::prelude::*;

verus! {

/// Appends `b` to `out`.
pub fn append_bytes(out: &mut Vec<u8>, b: &[u8])
    ensures
        final(out)@ == old(out)@ + b@,
{
    let ghost start = out@;
    let mut i: usize = 0;
    while i < b.len()
        invariant
            i <= b@.len(),
            out@ == start + b@.subrange(0, i as int),
        decreases b@.len() - i,
    {
        out.push(b[i]);
        i = i + 1;
        assert(out@ =~= start + b@.subrange(0, i as int));
    }
    assert(b@.subrange(0, b@.len() as int) =~= b@);
}

/// Whether two byte strings are equal.
pub fn bytes_eq(a: &[u8], b: &[u8]) -> (r: bool)
    ensures
        r == (a@ == b@),
{
    if a.len() != b.len() {
        return false;
    }
    let mut i: usize = 0;
    while i < a.len()
        invariant
            i <= a@.len(),
            a@.len() == b@.len(),
            forall|j: int| 0 <= j < i ==> a@[j] == b@[j],
        decreases a@.len() - i,
    {
        if a[i] != b[i] {
            return false;
        }
        i = i + 1;
    }
    assert(a@ =~= b@);
    true
}

} // verus!

verus! {

/// Relies on `String::from_utf8`: it accepts exactly the valid UTF-8 byte strings and reads
/// them as the characters they encode.
#[verifier::external_body]
pub(crate) fn string_from_utf8(v: Vec<u8>) -> (r: Option<String>)
    ensures
        r.is_some() <==> vstd::utf8::valid_utf8(v@),
        r.is_some() ==> r.unwrap()@ == vstd::utf8::decode_utf8(v@),
{
    String::from_utf8(v).ok()
}

/// The 32 bytes of `b` at `pos`, if there are that many.
pub fn read_array32(b: &[u8], pos: usize) -> (r: Option<([u8; 32], usize)>)
    ensures
        r.is_some() <==> pos + 32 <= b@.len(),
        r.is_some() ==> r.unwrap().0@ == b@.subrange(pos as int, pos + 32) && r.unwrap().1 == pos + 32,
{
    if pos > b.len() || b.len() - pos < 32 {
        return None;
    }
    let mut arr = [0u8; 32];
    let end: usize = pos + 32;
    let mut i: usize = 0;
    while i < 32
        invariant
            i <= 32,
            end == pos + 32,
            end <= b@.len(),
            arr@.len() == 32,
            forall|j: int| 0 <= j < i ==> arr@[j] == b@[pos + j],
        decreases 32 - i,
    {
        arr[i] = b[pos + i];
        i = i + 1;
    }
    assert(arr@ =~= b@.subrange(pos as int, pos + 32));
    Some((arr, end))
}

/// The bytes of `b` from `start` up to `end`.
pub fn copy_range(b: &[u8], start: usize, end: usize) -> (r: Vec<u8>)
    requires
        start <= end <= b@.len(),
    ensures
        r@ == b@.subrange(start as int, end as int),
{
    let mut out: Vec<u8> = Vec::new();
    let mut i: usize = start;
    while i < end
        invariant
            start <= i <= end,
            end <= b@.len(),
            out@ == b@.subrange(start as int, i as int),
        decreases end - i,
    {
        out.push(b[i]);
        i = i + 1;
        assert(out@ =~= b@.subrange(start as int, i as int));
    }
    out
}

} // verus!
