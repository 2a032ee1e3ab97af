//! Byte strings: copying, appending and zero filling.

use vstd::prelude::*;

verus! {

/// `n` zero bytes.
pub open spec fn spec_zeros(n: nat) -> Seq<u8> {
    Seq::new(n, |i: int| 0u8)
}

/// `n` zero bytes.
pub fn zeros(n: usize) -> (r: Vec<u8>)
    ensures
        r@ == spec_zeros(n as nat),
{
    let mut out: Vec<u8> = Vec::with_capacity(n);
    while out.len() < n
        invariant
            out.len() <= n,
            forall|i: int| 0 <= i < out.len() ==> out[i] == 0u8,
        decreases n - out.len(),
    {
        out.push(0);
    }
    assert(out@ =~= spec_zeros(n as nat));
    out
}

/// A copy of the bytes of `src` from `from` up to `to`.
pub fn copy_range(src: &[u8], from: usize, to: usize) -> (r: Vec<u8>)
    requires
        from <= to <= src@.len(),
    ensures
        r@ == src@.subrange(from as int, to as int),
{
    let mut out: Vec<u8> = Vec::with_capacity(to - from);
    let mut i = from;
    while i < to
        invariant
            from <= i <= to <= src@.len(),
            out@ == src@.subrange(from as int, i as int),
        decreases to - i,
    {
        out.push(src[i]);
        i += 1;
        assert(out@ =~= src@.subrange(from as int, i as int));
    }
    out
}

/// Appends the bytes of `src` to `dst`.
pub fn append_bytes(dst: &mut Vec<u8>, src: &[u8])
    ensures
        final(dst)@ == old(dst)@ + src@,
{
    let mut i: usize = 0;
    while i < src.len()
        invariant
            i <= src@.len(),
            dst@ == old(dst)@ + src@.subrange(0, i as int),
        decreases src@.len() - i,
    {
        dst.push(src[i]);
        i += 1;
        assert(dst@ =~= old(dst)@ + src@.subrange(0, i as int));
    }
    assert(src@.subrange(0, src@.len() as int) =~= src@);
}

/// Whether all the bytes are zero.
pub fn hash_is_blank(hash: &[u8]) -> (r: bool)
    ensures
        r == (forall|i: int| 0 <= i < hash@.len() ==> hash@[i] == 0u8),
{
    let mut i: usize = 0;
    while i < hash.len()
        invariant
            i <= hash@.len(),
            forall|j: int| 0 <= j < i ==> hash@[j] == 0u8,
        decreases hash@.len() - i,
    {
        if hash[i] != 0 {
            return false;
        }
        i += 1;
    }
    true
}

} // verus!
