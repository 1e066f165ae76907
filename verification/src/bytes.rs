//! Small executable helpers on byte vectors that the rest of the crate
//! builds on: equality, duplication, appending and range extraction.

use vstd::prelude::*;

verus! {

/// Byte-wise equality of two byte vectors.
pub fn bytes_eq(a: &Vec<u8>, b: &Vec<u8>) -> (r: bool)
    ensures
        r == (a@ == b@),
{
    if a.len() != b.len() {
        return false;
    }
    let mut i: usize = 0;
    while i < a.len()
        invariant
            i <= a.len(),
            a.len() == b.len(),
            forall|j: int| 0 <= j < i ==> a@[j] == b@[j],
        decreases a.len() - i,
    {
        if a[i] != b[i] {
            return false;
        }
        i += 1;
    }
    proof {
        assert(a@ =~= b@);
    }
    true
}

/// A fresh byte vector with the same contents.
pub fn clone_bytes(a: &Vec<u8>) -> (r: Vec<u8>)
    ensures
        r@ == a@,
{
    let mut out: Vec<u8> = Vec::new();
    let mut i: usize = 0;
    while i < a.len()
        invariant
            i <= a.len(),
            out@ == a@.take(i as int),
        decreases a.len() - i,
    {
        out.push(a[i]);
        proof {
            assert(out@ =~= a@.take(i + 1));
        }
        i += 1;
    }
    proof {
        assert(a@.take(a.len() as int) =~= a@);
    }
    out
}

/// Appends all of `suffix` to `out`.
pub fn append_bytes(out: &mut Vec<u8>, suffix: &Vec<u8>)
    ensures
        final(out)@ == old(out)@ + suffix@,
{
    let mut i: usize = 0;
    while i < suffix.len()
        invariant
            i <= suffix.len(),
            out@ == old(out)@ + suffix@.take(i as int),
        decreases suffix.len() - i,
    {
        out.push(suffix[i]);
        proof {
            assert(old(out)@ + suffix@.take(i as int) + seq![suffix@[i as int]] =~= old(out)@
                + suffix@.take(i + 1));
        }
        i += 1;
    }
    proof {
        assert(suffix@.take(suffix.len() as int) =~= suffix@);
    }
}

/// The bytes of `s` between `start` (inclusive) and `end` (exclusive).
pub fn copy_range(s: &Vec<u8>, start: usize, end: usize) -> (out: Vec<u8>)
    requires
        start <= end <= s@.len(),
    ensures
        out@ == s@.subrange(start as int, end as int),
{
    let mut out: Vec<u8> = Vec::new();
    let mut i: usize = start;
    while i < end
        invariant
            start <= i <= end <= s@.len(),
            out@ == s@.subrange(start as int, i as int),
        decreases end - i,
    {
        out.push(s[i]);
        proof {
            assert(out@ =~= s@.subrange(start as int, i + 1));
        }
        i += 1;
    }
    out
}

} // verus!
