//! Variable-length integers: seven bits to a byte, least significant group
//! first, the high bit of a byte set when another byte follows.

use vstd::prelude::*;
use vstd::arithmetic::power2::{pow2, lemma_pow2_pos, lemma_pow2_adds, lemma2_to64, lemma2_to64_rest, lemma_pow2_strictly_increases};
use vstd::bits::lemma_usize_shl_is_mul;

verus! {

/// The number of bytes that encode `v`.
pub open spec fn spec_length(v: nat) -> nat
    decreases v,
{
    if v < 128 {
        1
    } else {
        1 + spec_length(v / 128)
    }
}

/// The bytes that encode `v`.
pub open spec fn spec_encode(v: nat) -> Seq<u8>
    decreases v,
{
    if v < 128 {
        seq![v as u8]
    } else {
        seq![(v % 128 + 128) as u8] + spec_encode(v / 128)
    }
}

/// The number that the bytes at the head of `bytes` encode: the bytes up to
/// the first one without the high bit, or all of them if there is none.
pub open spec fn spec_decode(bytes: Seq<u8>) -> nat
    decreases bytes.len(),
{
    if bytes.len() == 0 {
        0
    } else if bytes[0] < 128 {
        bytes[0] as nat
    } else {
        (bytes[0] - 128) as nat + 128 * spec_decode(bytes.drop_first())
    }
}

/// The number of bytes at the head of `bytes` that `spec_decode` reads.
pub open spec fn spec_consumed(bytes: Seq<u8>) -> nat
    decreases bytes.len(),
{
    if bytes.len() == 0 {
        0
    } else if bytes[0] < 128 {
        1
    } else {
        1 + spec_consumed(bytes.drop_first())
    }
}

/// Decoding what was encoded gives the number back, and the encoding has
/// the length that `spec_length` gives.
pub proof fn lemma_round_trip(v: nat)
    ensures
        spec_decode(spec_encode(v)) == v,
        spec_encode(v).len() == spec_length(v),
        spec_consumed(spec_encode(v)) == spec_length(v),
    decreases v,
{
    if v >= 128 {
        lemma_round_trip(v / 128);
        let e = spec_encode(v);
        assert(e.drop_first() == spec_encode(v / 128));
        assert(e[0] == (v % 128 + 128) as u8);
    }
}

/// A number below `2^(7k)` is encoded in at most `k` bytes.
pub proof fn lemma_length_bound(v: nat, k: nat)
    requires
        k >= 1,
        v < pow2(7 * k),
    ensures
        spec_length(v) <= k,
    decreases v,
{
    lemma2_to64();
    if v >= 128 {
        if k == 1 {
            assert(false);
        }
        lemma_pow2_adds(7, (7 * (k - 1)) as nat);
        lemma_pow2_pos((7 * (k - 1)) as nat);
        let q = pow2((7 * (k - 1)) as nat);
        assert(v / 128 < q) by (nonlinear_arith)
            requires
                v < 128 * q,
        ;
        lemma_length_bound(v / 128, (k - 1) as nat);
    }
}

/// What `encode` makes of a `usize`, `decode` takes, and gives the number
/// back.
pub proof fn lemma_encoding_decodes(v: usize)
    ensures
        7 * (spec_consumed(spec_encode(v as nat)) - 1) < usize::BITS,
        spec_decode(spec_encode(v as nat)) == v,
        spec_encode(v as nat).len() == spec_length(v as nat),
{
    lemma_round_trip(v as nat);
    lemma2_to64();
    lemma2_to64_rest();
    if usize::BITS == 32 {
        assert(pow2(35) == 0x8_0000_0000);
        lemma_length_bound(v as nat, 5);
    } else {
        lemma_pow2_strictly_increases(64, 70);
        lemma_length_bound(v as nat, 10);
    }
}

/// The number of bytes that encode `val`.
pub fn length(val: usize) -> (r: usize)
    ensures
        r == spec_length(val as nat),
        1 <= r <= 10,
{
    proof {
        lemma2_to64_rest();
        lemma_pow2_strictly_increases(64, 70);
        lemma_length_bound(val as nat, 10);
    }
    let mut rest: usize = val;
    let mut count: usize = 1;
    while rest >= 128
        invariant
            spec_length(val as nat) == (count - 1) + spec_length(rest as nat),
            count >= 1,
            spec_length(val as nat) <= 10,
        decreases rest,
    {
        proof {
            assert(rest >> 7 == rest / 128) by (bit_vector);
        }
        rest >>= 7;
        count += 1;
    }
    count
}

/// The bytes that encode `val`.
pub fn encode(val: usize) -> (r: Vec<u8>)
    ensures
        r@ == spec_encode(val as nat),
{
    let mut num = val;
    let mut result: Vec<u8> = Vec::with_capacity(length(val));
    while num >> 7 != 0
        invariant
            result@ + spec_encode(num as nat) == spec_encode(val as nat),
        decreases num,
    {
        proof {
            assert(num >> 7 == num / 128) by (bit_vector);
            assert(((num as u8) | 0x80u8) == (num % 128 + 128) as u8) by (bit_vector);
            assert(result@.push((num % 128 + 128) as u8) + spec_encode((num / 128) as nat)
                == result@ + spec_encode(num as nat));
        }
        result.push((num as u8) | 0x80);
        num >>= 7;
    }
    proof {
        assert(num >> 7 == num / 128) by (bit_vector);
        assert(result@.push(num as u8) == result@ + spec_encode(num as nat));
    }
    result.push(num as u8);
    result
}

/// The number that the bytes at the head of `val` encode.
pub fn decode(val: &[u8]) -> (r: usize)
    requires
        7 * (spec_consumed(val@) - 1) < usize::BITS,
        spec_decode(val@) <= usize::MAX,
    ensures
        r == spec_decode(val@),
{
    let mut result: usize = 0;
    let mut i: usize = 0;
    let mut done = false;
    proof {
        assert(val@.skip(0) == val@);
        lemma2_to64();
        assert(pow2((7 * 0) as nat) == 1);
        assert(1 * spec_decode(val@) == spec_decode(val@));
    }
    while !done && i < val.len()
        invariant
            i <= val.len(),
            !done ==> spec_consumed(val@) == i + spec_consumed(val@.skip(i as int)),
            7 * (spec_consumed(val@) - 1) < usize::BITS,
            !done ==> spec_decode(val@) == result + pow2((7 * i) as nat) * spec_decode(
                val@.skip(i as int),
            ),
            done ==> result == spec_decode(val@),
            spec_decode(val@) <= usize::MAX,
        decreases val.len() - i + if done { 0int } else { 1int },
    {
        let byte = val[i];
        let low: usize = (byte & 0x7F) as usize;
        proof {
            let rest = val@.skip(i as int);
            assert(rest[0] == byte);
            assert(rest.drop_first() == val@.skip(i + 1));
            assert((byte & 0x7F) == byte % 128) by (bit_vector);
            assert((byte & 0x80 == 0) == (byte < 128)) by (bit_vector);
            assert(rest.len() > 0);
            assert(7 * i < usize::BITS);
            lemma_pow2_pos((7 * i) as nat);
            lemma_pow2_adds((7 * i) as nat, 7);
            lemma2_to64();
            let p = pow2((7 * i) as nat);
            let tail = spec_decode(val@.skip(i + 1));
            if byte < 128 {
                assert(spec_decode(rest) == low);
            } else {
                assert(spec_decode(rest) == low + 128 * tail);
                assert(p * (low + 128 * tail) == p * low + (p * 128) * tail) by (nonlinear_arith);
            }
            assert(p * low <= usize::MAX) by (nonlinear_arith)
                requires
                    spec_decode(val@) == result + p * spec_decode(rest),
                    spec_decode(val@) <= usize::MAX,
                    spec_decode(rest) >= low,
                    p > 0,
                    result >= 0,
            ;
            assert(low * p == p * low) by (nonlinear_arith);
            lemma_usize_shl_is_mul(low, (i * 7) as usize);
        }
        result += low << (i * 7);
        if byte & 0x80 == 0 {
            done = true;
        } else {
            i += 1;
        }
    }
    proof {
        if !done {
            assert(val@.skip(i as int).len() == 0);
            assert(spec_decode(val@.skip(i as int)) == 0);
            assert(pow2((7 * i) as nat) * 0 == 0);
        }
    }
    result
}

} // verus!
