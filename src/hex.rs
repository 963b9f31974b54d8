//! Upper-case hexadecimal: two digits per byte, high nibble first.

use vstd::prelude::*;

verus! {

/// The upper-case hexadecimal digit of a value below 16.
pub open spec fn hex_digit(v: u8) -> u8 {
    if v < 10 {
        (0x30 + v) as u8
    } else {
        (0x41 + v - 10) as u8
    }
}

/// The upper-case hexadecimal text of a byte string.
pub open spec fn hex_upper(b: Seq<u8>) -> Seq<u8>
    decreases b.len(),
{
    if b.len() == 0 {
        Seq::empty()
    } else {
        hex_upper(b.drop_last()) + seq![hex_digit(b.last() / 16), hex_digit(b.last() % 16)]
    }
}

/// The value of an upper-case hexadecimal digit.
pub open spec fn hex_value(c: u8) -> Option<u8> {
    if 0x30 <= c <= 0x39 {
        Some((c - 0x30) as u8)
    } else if 0x41 <= c <= 0x46 {
        Some((c - 0x41 + 10) as u8)
    } else {
        None
    }
}

/// Hexadecimal text has two digits per byte, each of them printable ASCII.
pub proof fn lemma_hex_upper_len(b: Seq<u8>)
    ensures
        hex_upper(b).len() == 2 * b.len(),
        forall|i: int| 0 <= i < hex_upper(b).len() ==> 0x30 <= #[trigger] hex_upper(b)[i] <= 0x46,
    decreases b.len(),
{
    if b.len() > 0 {
        lemma_hex_upper_len(b.drop_last());
    }
}

/// The digits of byte `i` sit at positions `2i` and `2i + 1`.
pub proof fn lemma_hex_upper_index(b: Seq<u8>, i: int)
    requires
        0 <= i < b.len(),
    ensures
        hex_upper(b).len() == 2 * b.len(),
        hex_upper(b)[2 * i] == hex_digit(b[i] / 16),
        hex_upper(b)[2 * i + 1] == hex_digit(b[i] % 16),
    decreases b.len(),
{
    lemma_hex_upper_len(b);
    lemma_hex_upper_len(b.drop_last());
    if i < b.len() - 1 {
        lemma_hex_upper_index(b.drop_last(), i);
    }
}

/// Writes the upper-case hexadecimal text of `b`.
pub fn hex_encode(b: &[u8]) -> (r: Vec<u8>)
    ensures
        r@ == hex_upper(b@),
{
    let mut out: Vec<u8> = Vec::new();
    let mut i: usize = 0;
    while i < b.len()
        invariant
            i <= b@.len(),
            out@ == hex_upper(b@.subrange(0, i as int)),
        decreases b@.len() - i,
    {
        let x = b[i];
        let hi = x / 16;
        let lo = x % 16;
        out.push(if hi < 10 { 0x30 + hi } else { 0x41 + hi - 10 });
        out.push(if lo < 10 { 0x30 + lo } else { 0x41 + lo - 10 });
        proof {
            let sub = b@.subrange(0, i + 1);
            assert(sub.drop_last() =~= b@.subrange(0, i as int));
        }
        i = i + 1;
        assert(out@ =~= hex_upper(b@.subrange(0, i as int)));
    }
    assert(b@.subrange(0, b@.len() as int) =~= b@);
    out
}

/// Reads `n` bytes written as upper-case hexadecimal in `s` from `start`; gives them back
/// whenever that text is the hexadecimal of some `n` bytes.
pub fn hex_decode(s: &[u8], start: usize, n: usize) -> (r: Option<Vec<u8>>)
    ensures
        forall|v: Seq<u8>| v.len() == n && start + 2 * n <= s@.len() && #[trigger] hex_upper(v) == s@.subrange(start as int, start + 2 * n) ==> r.is_some() && r.unwrap()@ == v,
        r.is_some() ==> r.unwrap()@.len() == n,
{
    if start > s.len() || (s.len() - start) / 2 < n {
        return None;
    }
    let len = s.len();
    let mut out: Vec<u8> = Vec::new();
    let mut i: usize = 0;
    while i < n
        invariant
            i <= n,
            len == s@.len(),
            start + 2 * n <= len,
            out@.len() == i,
            forall|v: Seq<u8>| v.len() == n && #[trigger] hex_upper(v) == s@.subrange(start as int, start + 2 * n) ==> out@ == v.subrange(0, i as int),
        decreases n - i,
    {
        let c1 = s[start + 2 * i];
        let c2 = s[start + 2 * i + 1];
        let h = if 0x30 <= c1 && c1 <= 0x39 {
            c1 - 0x30
        } else if 0x41 <= c1 && c1 <= 0x46 {
            c1 - 0x41 + 10
        } else {
            proof {
                assert forall|v: Seq<u8>| v.len() == n && #[trigger] hex_upper(v) == s@.subrange(start as int, start + 2 * n) implies false by {
                    lemma_hex_upper_index(v, i as int);
                }
            }
            return None;
        };
        let l = if 0x30 <= c2 && c2 <= 0x39 {
            c2 - 0x30
        } else if 0x41 <= c2 && c2 <= 0x46 {
            c2 - 0x41 + 10
        } else {
            proof {
                assert forall|v: Seq<u8>| v.len() == n && #[trigger] hex_upper(v) == s@.subrange(start as int, start + 2 * n) implies false by {
                    lemma_hex_upper_index(v, i as int);
                }
            }
            return None;
        };
        let x: u8 = h * 16 + l;
        proof {
            assert forall|v: Seq<u8>| v.len() == n && #[trigger] hex_upper(v) == s@.subrange(start as int, start + 2 * n) implies out@.push(x) == v.subrange(0, i + 1) by {
                lemma_hex_upper_index(v, i as int);
                let y = v[i as int];
                assert(y == (y / 16) * 16 + y % 16);
                assert(v.subrange(0, i + 1) =~= v.subrange(0, i as int).push(y));
            }
        }
        out.push(x);
        i = i + 1;
    }
    proof {
        assert forall|v: Seq<u8>| v.len() == n && start + 2 * n <= s@.len() && #[trigger] hex_upper(v) == s@.subrange(start as int, start + 2 * n) implies out@ == v by {
            assert(v.subrange(0, n as int) =~= v);
        }
    }
    Some(out)
}

} // verus!
