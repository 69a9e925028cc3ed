use vstd::prelude::*;

verus! {

/// Copies a byte slice into a fresh vector.
pub(crate) fn copy_bytes(s: &[u8]) -> (v: Vec<u8>)
    ensures
        v@ == s@,
{
    let mut v: Vec<u8> = Vec::new();
    let n = s.len();
    for i in 0..n
        invariant
            n == s@.len(),
            v@ == s@.subrange(0, i as int),
    {
        v.push(s[i]);
    }
    v
}

/// Appends the bytes of `s` to `v`.
pub(crate) fn append_bytes(v: &mut Vec<u8>, s: &[u8])
    ensures
        final(v)@ == old(v)@ + s@,
{
    let n = s.len();
    let ghost start = v@;
    for i in 0..n
        invariant
            n == s@.len(),
            v@ == start + s@.subrange(0, i as int),
    {
        v.push(s[i]);
    }
    assert(s@.subrange(0, n as int) == s@);
}

} // verus!
