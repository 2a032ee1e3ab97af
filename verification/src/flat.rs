//! Index arithmetic on a flat in-order binary tree.
//!
//! Leaves sit at the even indices and inner nodes at the odd ones. A node of
//! depth `d` and offset `o` has the index `o * 2^(d+1) + 2^d - 1`, so its depth
//! is the number of trailing one bits of its index.

use vstd::prelude::*;
use vstd::arithmetic::power2::{pow2, lemma_pow2_pos, lemma_pow2_unfold, lemma_pow2_adds, lemma2_to64, lemma2_to64_rest, lemma_pow2_strictly_increases};
use vstd::arithmetic::div_mod::{lemma_fundamental_div_mod_converse_div, lemma_div_denominator};
use vstd::bits::{lemma_u64_shr_is_div, lemma_u64_shl_is_mul};

verus! {

/// The depth of node `n`: the number of trailing one bits of `n`.
pub open spec fn spec_depth(n: nat) -> nat
    decreases n,
{
    if n % 2 == 0 {
        0
    } else {
        1 + spec_depth(n / 2)
    }
}

/// The index of the node at `depth` and `offset`.
pub open spec fn spec_index(depth: nat, offset: nat) -> nat {
    (offset * pow2(depth + 1) + pow2(depth) - 1) as nat
}

/// The offset that `n` would have if its depth were `depth`.
pub open spec fn spec_offset_with_depth(n: nat, depth: nat) -> nat {
    n / pow2(depth + 1)
}

/// The offset of node `n` among the nodes of its depth.
pub open spec fn spec_offset(n: nat) -> nat {
    spec_offset_with_depth(n, spec_depth(n))
}

/// The offset of the other child of the same parent.
pub open spec fn spec_flip(offset: nat) -> nat {
    if offset % 2 == 0 {
        offset + 1
    } else {
        (offset - 1) as nat
    }
}

/// The parent that `n` would have if its depth were `depth`.
pub open spec fn spec_parent_with_depth(n: nat, depth: nat) -> nat {
    spec_index(depth + 1, spec_offset_with_depth(n, depth) / 2)
}

/// The parent of node `n`.
pub open spec fn spec_parent(n: nat) -> nat {
    spec_parent_with_depth(n, spec_depth(n))
}

/// The node at `depth` that has the offset of the sibling of `n`.
pub open spec fn spec_sibling_with_depth(n: nat, depth: nat) -> nat {
    spec_index(depth, spec_flip(spec_offset(n)))
}

/// The other child of the parent of node `n`.
pub open spec fn spec_sibling(n: nat) -> nat {
    spec_sibling_with_depth(n, spec_depth(n))
}

/// The sibling of the parent of node `n`.
pub open spec fn spec_uncle(n: nat) -> nat {
    spec_sibling_with_depth(spec_parent(n), spec_depth(n) + 1)
}

/// The left or the right child that `n` would have if its depth were
/// `depth`; none for a leaf.
pub open spec fn spec_child_with_depth(n: nat, depth: nat, is_left: bool) -> Option<nat> {
    if depth == 0 || n % 2 == 0 {
        None
    } else {
        Some(
            spec_index(
                (depth - 1) as nat,
                spec_offset_with_depth(n, depth) * 2 + if is_left { 0nat } else { 1nat },
            ),
        )
    }
}

/// The left child of node `n`; none for a leaf.
pub open spec fn spec_left_child(n: nat) -> Option<nat> {
    spec_child_with_depth(n, spec_depth(n), true)
}

/// The right child of node `n`; none for a leaf.
pub open spec fn spec_right_child(n: nat) -> Option<nat> {
    spec_child_with_depth(n, spec_depth(n), false)
}

/// The leftmost or the rightmost leaf that would lie below `n` if its
/// depth were `depth`.
pub open spec fn spec_span_with_depth(n: nat, depth: nat, is_left: bool) -> nat {
    if depth == 0 {
        n
    } else if is_left {
        spec_offset_with_depth(n, depth) * pow2(depth + 1)
    } else {
        ((spec_offset_with_depth(n, depth) + 1) * pow2(depth + 1) - 2) as nat
    }
}

/// The leftmost leaf below `n`.
pub open spec fn spec_left_span(n: nat) -> nat {
    spec_span_with_depth(n, spec_depth(n), true)
}

/// The rightmost leaf below `n`.
pub open spec fn spec_right_span(n: nat) -> nat {
    spec_span_with_depth(n, spec_depth(n), false)
}

/// The number of nodes in the subtree rooted at `n`.
pub open spec fn spec_count(n: nat) -> nat {
    (pow2(spec_depth(n) + 1) - 1) as nat
}

/// Whether node `n` is the left child of its parent.
pub open spec fn spec_is_left(n: nat) -> bool {
    spec_offset(n) % 2 == 0
}

/// The largest power of two that is at most `m`, for `m >= 1`.
pub open spec fn spec_floor_pow2(m: nat) -> nat
    decreases m,
{
    if m <= 1 {
        1
    } else {
        2 * spec_floor_pow2(m / 2)
    }
}

/// The roots of the full subtrees that cover `blocks` leaves, the first of
/// which is leaf number `first`: largest subtree first.
pub open spec fn spec_roots_from(first: nat, blocks: nat) -> Seq<nat>
    decreases blocks,
{
    if blocks == 0 {
        Seq::empty()
    } else {
        let f = spec_floor_pow2(blocks);
        if 0 < f <= blocks {
            seq![(2 * first + f - 1) as nat] + spec_roots_from(first + f, (blocks - f) as nat)
        } else {
            Seq::empty()
        }
    }
}

/// The roots of the full subtrees that together cover the leaves below the
/// even index `n`, in index order.
pub open spec fn spec_full_roots(n: nat) -> Seq<nat> {
    spec_roots_from(0, n / 2)
}

/// All the leaves of node `n` are among the first `blocks` blocks.
pub open spec fn spec_complete(n: nat, blocks: nat) -> bool {
    (spec_offset(n) + 1) * pow2(spec_depth(n)) <= blocks
}

/// The number of bits of `b` but one: the exponent of the largest power of
/// two that is at most `b`, for `b >= 1`.
pub open spec fn spec_log2(b: nat) -> nat
    decreases b,
{
    if b <= 1 {
        0
    } else {
        1 + spec_log2(b / 2)
    }
}

/// Every index is the index of its own depth and offset.
pub proof fn lemma_index_of_depth_offset(n: nat)
    ensures
        spec_index(spec_depth(n), spec_offset(n)) == n,
        n + 1 == (2 * spec_offset(n) + 1) * pow2(spec_depth(n)),
    decreases n,
{
    lemma2_to64();
    if n % 2 == 0 {
        assert(spec_depth(n) == 0);
        assert(pow2(1) == 2);
        assert(pow2(0) == 1);
        assert(spec_offset(n) == n / 2);
        assert(spec_index(0, n / 2) == n);
    } else {
        let m = n / 2;
        let dm = spec_depth(m);
        let om = spec_offset(m);
        lemma_index_of_depth_offset(m);
        assert(spec_depth(n) == dm + 1);
        lemma_pow2_unfold(dm + 1);
        lemma_pow2_unfold(dm + 2);
        lemma_pow2_pos(dm);
        let p = pow2(dm);
        assert(pow2(dm + 1) == 2 * p);
        assert(pow2(dm + 2) == 4 * p);
        assert(m + 1 == (2 * om + 1) * p);
        assert(n == 2 * m + 1);
        assert(n == om * (4 * p) + (2 * p - 1)) by (nonlinear_arith)
            requires
                m + 1 == (2 * om + 1) * p,
                n == 2 * m + 1,
        ;
        lemma_fundamental_div_mod_converse_div(n as int, (4 * p) as int, om as int, (2 * p - 1) as int);
        assert(spec_offset(n) == om);
        assert(n + 1 == (2 * om + 1) * (2 * p)) by (nonlinear_arith)
            requires
                n == om * (4 * p) + (2 * p - 1),
        ;
        assert(spec_index(dm + 1, om) == om * pow2(dm + 2) + pow2(dm + 1) - 1);
        assert(spec_index(dm + 1, om) == n);
    }
}

/// The node built from a depth and an offset has that depth and that offset.
pub proof fn lemma_depth_offset_of_index(depth: nat, offset: nat)
    ensures
        spec_depth(spec_index(depth, offset)) == depth,
        spec_offset(spec_index(depth, offset)) == offset,
        spec_index(depth, offset) + 1 == (2 * offset + 1) * pow2(depth),
    decreases depth,
{
    lemma2_to64();
    let n = spec_index(depth, offset);
    lemma_pow2_pos(depth);
    lemma_pow2_unfold(depth + 1);
    let p = pow2(depth);
    assert(pow2(depth + 1) == 2 * p);
    assert(n == offset * (2 * p) + (p - 1));
    assert(n + 1 == (2 * offset + 1) * p) by (nonlinear_arith)
        requires
            n == offset * (2 * p) + (p - 1),
    ;
    if depth == 0 {
        assert(p == 1);
        assert(n == offset * 2) by (nonlinear_arith)
            requires
                n == offset * (2 * p) + (p - 1),
                p == 1,
        ;
        assert(spec_depth(n) == 0);
        assert(spec_offset(n) == n / 2);
    } else {
        let q = pow2((depth - 1) as nat);
        lemma_pow2_unfold(depth);
        lemma_pow2_pos((depth - 1) as nat);
        assert(p == 2 * q);
        let m = spec_index((depth - 1) as nat, offset);
        assert(m == offset * p + q - 1);
        assert(n == 2 * m + 1) by (nonlinear_arith)
            requires
                n == offset * (2 * p) + (p - 1),
                m == offset * p + q - 1,
                p == 2 * q,
        ;
        assert(n % 2 == 1 && n / 2 == m);
        lemma_depth_offset_of_index((depth - 1) as nat, offset);
        assert(spec_depth(n) == depth);
        lemma_fundamental_div_mod_converse_div(n as int, (2 * p) as int, offset as int, (p - 1) as int);
    }
}

/// A node's depth is below `k` when its index is below `2^k - 1`.
pub proof fn lemma_depth_bound(n: nat, k: nat)
    requires
        n + 1 < pow2(k),
    ensures
        spec_depth(n) < k,
{
    lemma_index_of_depth_offset(n);
    let d = spec_depth(n);
    let o = spec_offset(n);
    lemma_pow2_pos(d);
    if d >= k {
        if d > k {
            lemma_pow2_strictly_increases(k, d);
        }
        assert((2 * o + 1) * pow2(d) >= pow2(d)) by (nonlinear_arith)
            requires
                pow2(d) > 0,
        ;
    }
}

/// The depth of a 64-bit index is at most 64.
pub proof fn lemma_depth_u64(n: u64)
    ensures
        spec_depth(n as nat) <= 64,
{
    lemma2_to64();
    lemma2_to64_rest();
    if n < u64::MAX {
        assert(pow2(64) == 0x10000000000000000);
        lemma_depth_bound(n as nat, 64);
    } else {
        lemma_depth_offset_of_index(64, 0);
        assert(spec_index(64, 0) == n) by {
            lemma_pow2_unfold(65);
        }
    }
}

/// The offset of `idx` among the nodes of `depth`.
pub fn offset_with_depth(idx: u64, depth: u64) -> (r: u64)
    requires
        depth < 63,
    ensures
        r == spec_offset_with_depth(idx as nat, depth as nat),
{
    proof {
        lemma_u64_shr_is_div(idx, (depth + 1) as u64);
    }
    idx >> (depth + 1)
}

/// The index of the node at `depth` and `offset`.
pub fn index(depth: u64, offset: u64) -> (r: u64)
    requires
        depth < 63,
        spec_index(depth as nat, offset as nat) <= u64::MAX,
    ensures
        r == spec_index(depth as nat, offset as nat),
{
    proof {
        lemma_pow2_pos(depth as nat);
        lemma_pow2_pos((depth + 1) as nat);
        vstd::bits::lemma_u64_pow2_no_overflow(depth as nat);
        lemma_u64_shl_is_mul(1, depth);
        lemma_u64_shl_is_mul(offset, (depth + 1) as u64);
    }
    let hi = offset << (depth + 1);
    let one: u64 = 1;
    let lo = (one << depth) - 1;
    proof {
        assert(hi | lo == hi + lo) by (bit_vector)
            requires
                depth < 63,
                hi == offset << ((depth + 1) as u64),
                lo == ((1u64 << depth) - 1) as u64,
        ;
    }
    hi | lo
}

/// The depth of node `idx`: 0 for a leaf.
pub fn depth(idx: u64) -> (r: u64)
    ensures
        r == spec_depth(idx as nat),
        r <= 64,
{
    let mut cur = idx;
    let mut depth: u64 = 0;
    proof {
        lemma_depth_u64(idx);
    }
    while cur & 1 != 0
        invariant
            spec_depth(idx as nat) == depth + spec_depth(cur as nat),
            spec_depth(idx as nat) <= 64,
        decreases cur,
    {
        proof {
            assert(cur & 1 == cur % 2) by (bit_vector);
            assert(cur >> 1 == cur / 2) by (bit_vector);
        }
        cur >>= 1;
        depth += 1;
    }
    proof {
        assert(cur & 1 == cur % 2) by (bit_vector);
    }
    depth
}

/// An offset below `2^(63-depth)` gives an index that fits in 64 bits.
pub proof fn lemma_index_fits(depth: nat, offset: nat)
    requires
        depth < 64,
        offset < pow2((63 - depth) as nat),
    ensures
        spec_index(depth, offset) <= u64::MAX,
{
    let p = pow2(depth);
    let q = pow2((63 - depth) as nat);
    lemma_pow2_adds(depth + 1, (63 - depth) as nat);
    lemma_pow2_unfold(depth + 1);
    lemma_pow2_pos(depth);
    lemma2_to64_rest();
    assert(pow2(64) == (2 * p) * q);
    assert(offset * (2 * p) + p - 1 < (2 * p) * q) by (nonlinear_arith)
        requires
            offset < q,
            p > 0,
    ;
}

/// Dividing a 64-bit index by `2^(depth+1)` leaves less than `2^(63-depth)`.
pub proof fn lemma_offset_fits(n: u64, depth: nat)
    requires
        depth < 64,
    ensures
        spec_offset_with_depth(n as nat, depth) < pow2((63 - depth) as nat),
        spec_offset_with_depth(n as nat, depth) <= 0x7fff_ffff_ffff_ffff,
{
    let p = pow2(depth + 1);
    let q = pow2((63 - depth) as nat);
    lemma_pow2_adds(depth + 1, (63 - depth) as nat);
    lemma_pow2_pos(depth + 1);
    lemma2_to64_rest();
    if depth > 0 {
        lemma_pow2_strictly_increases((63 - depth) as nat, 63);
    }
    assert(pow2(64) == p * q);
    assert((n as nat) / p < q) by (nonlinear_arith)
        requires
            (n as nat) < p * q,
            p > 0,
    ;
}

/// The other child of a parent lies within the same bound as the first.
pub proof fn lemma_flip_fits(offset: nat, k: nat)
    requires
        k >= 1,
        offset < pow2(k),
    ensures
        spec_flip(offset) < pow2(k),
        spec_flip(offset) / 2 == offset / 2,
        spec_flip(spec_flip(offset)) == offset,
        spec_flip(offset) != offset,
{
    lemma_pow2_unfold(k);
}

/// The parent of a 64-bit index of depth below 63 fits in 64 bits.
pub proof fn lemma_parent_fits(n: u64, depth: nat)
    requires
        depth < 63,
    ensures
        spec_parent_with_depth(n as nat, depth) <= u64::MAX,
{
    lemma_offset_fits(n, depth);
    lemma_pow2_unfold((63 - depth) as nat);
    lemma_index_fits(depth + 1, spec_offset_with_depth(n as nat, depth) / 2);
}

/// The sibling of a 64-bit index of depth below 63 fits in 64 bits.
pub proof fn lemma_sibling_fits(n: u64)
    requires
        spec_depth(n as nat) < 63,
    ensures
        spec_sibling(n as nat) <= u64::MAX,
{
    let d = spec_depth(n as nat);
    lemma_offset_fits(n, d);
    lemma_flip_fits(spec_offset(n as nat), (63 - d) as nat);
    lemma_index_fits(d, spec_flip(spec_offset(n as nat)));
}

/// The parent of `idx`, a node of `depth`.
pub fn parent_with_depth(idx: u64, depth: u64) -> (r: u64)
    requires
        depth < 62,
    ensures
        r == spec_parent_with_depth(idx as nat, depth as nat),
{
    let o = offset_with_depth(idx, depth);
    proof {
        assert(o >> 1 == o / 2) by (bit_vector);
        lemma_parent_fits(idx, depth as nat);
    }
    index(depth + 1, o >> 1)
}

/// The offset of node `idx` among the nodes of its depth.
pub fn offset(idx: u64) -> (r: u64)
    requires
        spec_depth(idx as nat) < 63,
    ensures
        r == spec_offset(idx as nat),
{
    offset_with_depth(idx, depth(idx))
}

/// The node at `depth` that has the offset of the sibling of `idx`.
pub fn sibling_with_depth(idx: u64, depth: u64) -> (r: u64)
    requires
        depth < 63,
        spec_depth(idx as nat) < 63,
        spec_sibling_with_depth(idx as nat, depth as nat) <= u64::MAX,
    ensures
        r == spec_sibling_with_depth(idx as nat, depth as nat),
{
    let o = offset(idx);
    proof {
        lemma_offset_fits(idx, spec_depth(idx as nat));
        assert(o ^ 1 == if o % 2 == 0 { (o + 1) as u64 } else { (o - 1) as u64 }) by (bit_vector)
            requires
                o < 0xffff_ffff_ffff_ffffu64,
        ;
    }
    index(depth, o ^ 1)
}

/// The parent of node `idx`.
pub fn parent(idx: u64) -> (r: u64)
    requires
        spec_depth(idx as nat) < 62,
    ensures
        r == spec_parent(idx as nat),
{
    parent_with_depth(idx, depth(idx))
}

/// The other child of the parent of node `idx`.
pub fn sibling(idx: u64) -> (r: u64)
    requires
        spec_depth(idx as nat) < 63,
    ensures
        r == spec_sibling(idx as nat),
{
    proof {
        lemma_sibling_fits(idx);
    }
    sibling_with_depth(idx, depth(idx))
}

/// The parent of a node is one deeper, and its offset is half the node's.
pub proof fn lemma_parent(n: nat)
    ensures
        spec_depth(spec_parent(n)) == spec_depth(n) + 1,
        spec_offset(spec_parent(n)) == spec_offset(n) / 2,
        spec_parent(n) > n || spec_parent(n) < n,
{
    lemma_depth_offset_of_index(spec_depth(n) + 1, spec_offset(n) / 2);
    lemma_index_of_depth_offset(n);
    lemma_pow2_unfold(spec_depth(n) + 1);
    lemma_pow2_pos(spec_depth(n));
    let p = pow2(spec_depth(n));
    let o = spec_offset(n);
    let h = o / 2;
    assert(spec_parent(n) + 1 == (2 * h + 1) * (2 * p));
    assert(n + 1 == (2 * o + 1) * p);
    if spec_parent(n) == n {
        assert((2 * h + 1) * (2 * p) == (4 * h + 2) * p) by (nonlinear_arith);
        assert((4 * h + 2) * p != (2 * o + 1) * p) by (nonlinear_arith)
            requires
                p > 0,
                4 * h + 2 != 2 * o + 1,
        ;
    }
}

/// The sibling of a node has the node's depth and parent, and is another node.
pub proof fn lemma_sibling(n: nat)
    ensures
        spec_depth(spec_sibling(n)) == spec_depth(n),
        spec_offset(spec_sibling(n)) == spec_flip(spec_offset(n)),
        spec_parent(spec_sibling(n)) == spec_parent(n),
        spec_sibling(spec_sibling(n)) == n,
        spec_sibling(n) != n,
{
    let d = spec_depth(n);
    let o = spec_offset(n);
    lemma_depth_offset_of_index(d, spec_flip(o));
    lemma_index_of_depth_offset(n);
    lemma_pow2_pos(d);
    if spec_sibling(n) == n {
        assert(false);
    }
}

/// Where a node's parent and sibling lie: a left child is `2^depth` below its
/// parent and `2^(depth+1)` below its sibling, a right child as much above.
pub proof fn lemma_parent_between(n: nat)
    ensures
        spec_is_left(n) ==> spec_parent(n) == n + pow2(spec_depth(n)) && spec_sibling(n) == n
            + pow2(spec_depth(n) + 1),
        !spec_is_left(n) ==> spec_parent(n) + pow2(spec_depth(n)) == n && spec_sibling(n) + pow2(
            spec_depth(n) + 1,
        ) == n,
        pow2(spec_depth(n) + 1) == 2 * pow2(spec_depth(n)),
        pow2(spec_depth(n)) > 0,
{
    let d = spec_depth(n);
    let o = spec_offset(n);
    let p = pow2(d);
    lemma_index_of_depth_offset(n);
    lemma_depth_offset_of_index(d + 1, o / 2);
    lemma_depth_offset_of_index(d, spec_flip(o));
    lemma_pow2_unfold(d + 1);
    lemma_pow2_pos(d);
    let h = o / 2;
    let par = spec_parent(n);
    let sib = spec_sibling(n);
    assert(par + 1 == (2 * h + 1) * (2 * p));
    assert(sib + 1 == (2 * spec_flip(o) + 1) * p);
    assert(n + 1 == (2 * o + 1) * p);
    if o % 2 == 0 {
        assert(o == 2 * h);
        assert(par == n + p) by (nonlinear_arith)
            requires
                par + 1 == (2 * h + 1) * (2 * p),
                n + 1 == (2 * o + 1) * p,
                o == 2 * h,
        ;
        assert(sib == n + 2 * p) by (nonlinear_arith)
            requires
                sib + 1 == (2 * (o + 1) + 1) * p,
                n + 1 == (2 * o + 1) * p,
        ;
    } else {
        assert(o == 2 * h + 1);
        assert(par + p == n) by (nonlinear_arith)
            requires
                par + 1 == (2 * h + 1) * (2 * p),
                n + 1 == (2 * o + 1) * p,
                o == 2 * h + 1,
        ;
        assert(sib + 2 * p == n) by (nonlinear_arith)
            requires
                sib + 1 == (2 * (o - 1) + 1) * p,
                n + 1 == (2 * o + 1) * p,
        ;
    }
}

/// The next node of the same depth is `2^(depth+1)` further on.
pub proof fn lemma_index_step(depth: nat, offset: nat)
    ensures
        spec_index(depth, offset + 1) == spec_index(depth, offset) + pow2(depth + 1),
        depth > 0 ==> spec_index(depth, offset) % 2 == 1,
        depth == 0 ==> spec_index(depth, offset) == 2 * offset,
{
    lemma_pow2_pos(depth);
    lemma_pow2_pos(depth + 1);
    let q = pow2(depth + 1);
    assert((offset + 1) * q == offset * q + q) by (nonlinear_arith);
    lemma_depth_offset_of_index(depth, offset);
    lemma2_to64();
}

/// The children of the node at `depth > 0` and `offset` lie `2^(depth-1)`
/// below and above it.
pub proof fn lemma_children(depth: nat, offset: nat)
    requires
        depth > 0,
    ensures
        spec_index((depth - 1) as nat, 2 * offset) + pow2((depth - 1) as nat) == spec_index(
            depth,
            offset,
        ),
        spec_index((depth - 1) as nat, 2 * offset + 1) == spec_index(depth, offset) + pow2(
            (depth - 1) as nat,
        ),
        pow2(depth) == 2 * pow2((depth - 1) as nat),
        pow2((depth - 1) as nat) > 0,
{
    let r = pow2((depth - 1) as nat);
    lemma_pow2_unfold(depth);
    lemma_pow2_unfold(depth + 1);
    lemma_pow2_pos((depth - 1) as nat);
    assert(pow2(depth) == 2 * r);
    assert(pow2(depth + 1) == 4 * r);
    assert((2 * offset) * (2 * r) + r - 1 + r == offset * (4 * r) + 2 * r - 1)
        by (nonlinear_arith);
    assert((2 * offset + 1) * (2 * r) + r - 1 == offset * (4 * r) + 2 * r - 1 + r)
        by (nonlinear_arith);
}

/// The leaves below a node: `2^depth - 1` to either side of it.
pub proof fn lemma_spans(n: nat)
    ensures
        spec_left_span(n) + pow2(spec_depth(n)) == n + 1,
        spec_right_span(n) + 1 == n + pow2(spec_depth(n)),
        spec_left_span(n) % 2 == 0,
        spec_right_span(n) % 2 == 0,
        pow2(spec_depth(n)) > 0,
{
    let d = spec_depth(n);
    let o = spec_offset(n);
    let p = pow2(d);
    lemma_index_of_depth_offset(n);
    lemma_pow2_unfold(d + 1);
    lemma_pow2_pos(d);
    lemma2_to64();
    if d > 0 {
        lemma_pow2_unfold(d);
        let r = pow2((d - 1) as nat);
        assert(o * (2 * p) + p == (2 * o + 1) * p) by (nonlinear_arith);
        assert((o + 1) * (2 * p) == (2 * o + 1) * p + p) by (nonlinear_arith);
        assert(o * (2 * p) == 2 * (o * p)) by (nonlinear_arith);
        assert((o + 1) * (2 * p) == 2 * ((o + 1) * p)) by (nonlinear_arith);
        assert((o + 1) * p >= 1) by (nonlinear_arith)
            requires
                p >= 1,
                o >= 0,
        ;
    }
}

/// The leaves below a node lie below its parent.
pub proof fn lemma_parent_spans(n: nat)
    ensures
        spec_left_span(spec_parent(n)) <= spec_left_span(n),
        spec_right_span(spec_parent(n)) >= spec_right_span(n),
{
    lemma_spans(n);
    lemma_spans(spec_parent(n));
    lemma_parent_between(n);
    lemma_parent(n);
}

/// The sibling of the parent of node `idx`.
pub fn uncle(idx: u64) -> (r: u64)
    requires
        spec_depth(idx as nat) < 62,
    ensures
        r == spec_uncle(idx as nat),
{
    let d = depth(idx);
    let p = parent_with_depth(idx, d);
    proof {
        lemma_parent(idx as nat);
        lemma_sibling_fits(p);
    }
    sibling_with_depth(p, d + 1)
}

/// The left or the right child of `idx`, a node of `depth`; `None` for a
/// leaf.
pub fn child_with_depth(idx: u64, depth: u64, is_left: bool) -> (r: Option<u64>)
    requires
        depth < 63,
    ensures
        match r {
            Some(c) => spec_child_with_depth(idx as nat, depth as nat, is_left) == Some(c as nat),
            None => spec_child_with_depth(idx as nat, depth as nat, is_left).is_none(),
        },
{
    proof {
        assert(idx & 1 == idx % 2) by (bit_vector);
    }
    if depth == 0 || idx & 1 == 0 {
        return None;
    }
    let adder: u64 = if is_left { 0 } else { 1 };
    let o = offset_with_depth(idx, depth);
    proof {
        lemma_offset_fits(idx, depth as nat);
        lemma_pow2_unfold((64 - depth) as nat);
        lemma_index_fits((depth - 1) as nat, (o * 2 + adder) as nat);
    }
    Some(index(depth - 1, (o * 2) + adder))
}

/// The leftmost or the rightmost leaf below `idx`, a node of `depth`.
pub fn span_with_depth(idx: u64, depth: u64, is_left: bool) -> (r: u64)
    requires
        depth < 63,
        depth > 0 && !is_left ==> spec_span_with_depth(idx as nat, depth as nat, false) + 2
            <= u64::MAX,
    ensures
        r == spec_span_with_depth(idx as nat, depth as nat, is_left),
{
    if depth == 0 {
        return idx;
    }
    let adder: u64 = if is_left { 0 } else { 1 };
    let o = offset_with_depth(idx, depth);
    let two: u64 = 2;
    proof {
        lemma_offset_fits(idx, depth as nat);
        lemma2_to64_rest();
        lemma_pow2_unfold((depth + 1) as nat);
        lemma_pow2_pos(depth as nat);
        if depth < 62 {
            lemma_pow2_strictly_increases((depth + 1) as nat, 63);
        }
        lemma_u64_shl_is_mul(2, depth);
        let p = pow2((depth + 1) as nat);
        assert(o * p <= idx) by (nonlinear_arith)
            requires
                o == (idx as nat) / p,
                p > 0,
        ;
        assert((o + adder) * p >= 2 * adder) by (nonlinear_arith)
            requires
                p >= 2,
                adder <= 1,
                o >= 0,
        ;
        assert((o + 1) * p == o * p + p) by (nonlinear_arith);
    }
    (o + adder) * (two << depth) - (2 * adder)
}

/// The left child of node `idx`; `None` for a leaf.
pub fn left_child(idx: u64) -> (r: Option<u64>)
    requires
        spec_depth(idx as nat) < 63,
    ensures
        match r {
            Some(c) => spec_left_child(idx as nat) == Some(c as nat),
            None => spec_left_child(idx as nat).is_none(),
        },
{
    child_with_depth(idx, depth(idx), true)
}

/// The right child of node `idx`; `None` for a leaf.
pub fn right_child(idx: u64) -> (r: Option<u64>)
    requires
        spec_depth(idx as nat) < 63,
    ensures
        match r {
            Some(c) => spec_right_child(idx as nat) == Some(c as nat),
            None => spec_right_child(idx as nat).is_none(),
        },
{
    child_with_depth(idx, depth(idx), false)
}

/// The two children of node `idx`, left then right; `None` for a leaf.
pub fn children(idx: u64) -> (r: Option<[u64; 2]>)
    requires
        spec_depth(idx as nat) < 63,
    ensures
        match r {
            Some(c) => spec_left_child(idx as nat) == Some(c[0] as nat) && spec_right_child(
                idx as nat,
            ) == Some(c[1] as nat),
            None => spec_left_child(idx as nat).is_none() && spec_right_child(
                idx as nat,
            ).is_none(),
        },
{
    let d = depth(idx);
    if d == 0 {
        return None;
    }
    let half = offset_with_depth(idx, d);
    proof {
        lemma_offset_fits(idx, d as nat);
        lemma_pow2_unfold((64 - d) as nat);
        lemma2_to64();
        lemma_u64_shl_is_mul(half, 1);
        lemma_index_fits((d - 1) as nat, (half * 2) as nat);
        lemma_index_fits((d - 1) as nat, (half * 2 + 1) as nat);
    }
    let o = half << 1;
    let left = index(d - 1, o);
    let right = index(d - 1, o + 1);
    Some([left, right])
}

/// The rightmost leaf under a 64-bit index of depth below 63 fits in 64
/// bits, and so does the multiple of `2^(depth+1)` that follows it, unless the
/// node is the last of its depth.
pub open spec fn spec_right_span_fits(n: nat) -> bool {
    spec_depth(n) > 0 ==> spec_right_span(n) + 2 <= u64::MAX
}

/// The leftmost leaf below node `idx`.
pub fn left_span(idx: u64) -> (r: u64)
    requires
        spec_depth(idx as nat) < 63,
    ensures
        r == spec_left_span(idx as nat),
{
    span_with_depth(idx, depth(idx), true)
}

/// The rightmost leaf below node `idx`.
pub fn right_span(idx: u64) -> (r: u64)
    requires
        spec_depth(idx as nat) < 63,
        spec_right_span_fits(idx as nat),
    ensures
        r == spec_right_span(idx as nat),
{
    span_with_depth(idx, depth(idx), false)
}

/// The leftmost and the rightmost leaf below node `idx`.
pub fn spans(idx: u64) -> (r: [u64; 2])
    requires
        spec_depth(idx as nat) < 63,
        spec_right_span_fits(idx as nat),
    ensures
        r[0] == spec_left_span(idx as nat),
        r[1] == spec_right_span(idx as nat),
{
    let d = depth(idx);
    let left = span_with_depth(idx, d, true);
    let right = span_with_depth(idx, d, false);
    [left, right]
}

/// The number of nodes in the subtree of node `idx`.
pub fn count(idx: u64) -> (r: u64)
    requires
        spec_depth(idx as nat) < 63,
    ensures
        r == spec_count(idx as nat),
{
    let d = depth(idx);
    let two: u64 = 2;
    proof {
        lemma2_to64_rest();
        lemma_pow2_unfold((d + 1) as nat);
        lemma_pow2_pos(d as nat);
        if d < 62 {
            lemma_pow2_strictly_increases((d + 1) as nat, 63);
        }
        lemma_u64_shl_is_mul(2, d);
    }
    (two << d) - 1
}

/// A sequence of 64-bit indices as a sequence of natural numbers.
pub open spec fn spec_nats(s: Seq<u64>) -> Seq<nat> {
    Seq::new(s.len(), |i: int| s[i] as nat)
}

/// For `1 <= m < 2^k`, the largest power of two that is at most `m` is more
/// than half of `m` and at most `2^(k-1)`.
pub proof fn lemma_floor_pow2(m: nat, k: nat)
    requires
        1 <= m < pow2(k),
    ensures
        spec_floor_pow2(m) <= m < 2 * spec_floor_pow2(m),
        k >= 1,
        spec_floor_pow2(m) <= pow2((k - 1) as nat),
    decreases m,
{
    lemma2_to64();
    if k == 0 {
        assert(false);
    }
    lemma_pow2_unfold(k);
    lemma_pow2_pos((k - 1) as nat);
    if m > 1 {
        lemma_floor_pow2(m / 2, (k - 1) as nat);
        lemma_pow2_unfold((k - 1) as nat);
    }
}

/// The full roots below an even index: `n / 2` leaves make at most as many
/// roots as `n / 2` has bits.
pub proof fn lemma_roots_len(first: nat, blocks: nat, k: nat)
    requires
        blocks < pow2(k),
    ensures
        spec_roots_from(first, blocks).len() <= k,
    decreases blocks,
{
    if blocks > 0 {
        lemma_floor_pow2(blocks, k);
        let f = spec_floor_pow2(blocks);
        lemma_roots_len(first + f, (blocks - f) as nat, (k - 1) as nat);
    }
}

/// The largest power of two that is at most `m` is more than half of `m`.
pub proof fn lemma_floor_pow2_basic(m: nat)
    requires
        m >= 1,
    ensures
        1 <= spec_floor_pow2(m) <= m < 2 * spec_floor_pow2(m),
    decreases m,
{
    if m > 1 {
        lemma_floor_pow2_basic(m / 2);
    }
}

/// Doubling a number doubles the largest power of two below it.
pub proof fn lemma_floor_pow2_shift(t: nat, e: nat)
    requires
        t >= 1,
    ensures
        spec_floor_pow2(t * pow2(e)) == spec_floor_pow2(t) * pow2(e),
    decreases e,
{
    lemma2_to64();
    if e == 0 {
        assert(t * pow2(0) == t);
        assert(spec_floor_pow2(t) * pow2(0) == spec_floor_pow2(t));
    } else {
        lemma_pow2_unfold(e);
        lemma_pow2_pos((e - 1) as nat);
        let r = pow2((e - 1) as nat);
        let x = t * r;
        assert(t * pow2(e) == 2 * x) by (nonlinear_arith)
            requires
                pow2(e) == 2 * r,
                x == t * r,
        ;
        assert(x >= 1) by (nonlinear_arith)
            requires
                x == t * r,
                t >= 1,
                r >= 1,
        ;
        assert((2 * x) / 2 == x);
        lemma_floor_pow2_shift(t, (e - 1) as nat);
        let s = spec_floor_pow2(t);
        assert(2 * (s * r) == s * pow2(e)) by (nonlinear_arith)
            requires
                pow2(e) == 2 * r,
        ;
    }
}

/// Adding `2^d` leaves to a number of leaves that is a multiple of `2^(d+1)`
/// adds one full root: the subtree of those `2^d` leaves.
pub proof fn lemma_roots_append(first: nat, d: nat, t: nat)
    ensures
        spec_roots_from(first, t * pow2(d + 1) + pow2(d)) == spec_roots_from(
            first,
            t * pow2(d + 1),
        ).push((2 * (first + t * pow2(d + 1)) + pow2(d) - 1) as nat),
    decreases t,
{
    let q = pow2(d + 1);
    let p = pow2(d);
    let m = t * q;
    lemma_pow2_unfold(d + 1);
    lemma_pow2_pos(d);
    if t == 0 {
        assert(m == 0) by (nonlinear_arith)
            requires
                m == t * q,
                t == 0,
        ;
        lemma_floor_pow2_shift(1, d);
        assert(1 * p == p);
        assert(spec_floor_pow2(1) == 1);
        assert(spec_floor_pow2(p) == p);
        assert(spec_roots_from(first + p, 0) =~= Seq::<nat>::empty());
        assert(spec_roots_from(first, 0) =~= Seq::<nat>::empty());
        assert(spec_roots_from(first, p) =~= Seq::<nat>::empty().push((2 * first + p - 1) as nat));
    } else {
        let s = spec_floor_pow2(t);
        lemma_floor_pow2_basic(t);
        lemma_floor_pow2_shift(t, d + 1);
        let f = s * q;
        assert(m + p == (2 * t + 1) * p) by (nonlinear_arith)
            requires
                m == t * q,
                q == 2 * p,
        ;
        lemma_floor_pow2_shift(2 * t + 1, d);
        assert((2 * t + 1) / 2 == t);
        assert(spec_floor_pow2(2 * t + 1) == 2 * s);
        assert((2 * s) * p == s * q) by (nonlinear_arith)
            requires
                q == 2 * p,
        ;
        assert(spec_floor_pow2(m + p) == f);
        assert(spec_floor_pow2(m) == f);
        assert(m - f == (t - s) * q) by (nonlinear_arith)
            requires
                m == t * q,
                f == s * q,
        ;
        assert(f <= m) by (nonlinear_arith)
            requires
                m == t * q,
                f == s * q,
                s <= t,
                q >= 0,
        ;
        assert(f >= 1) by (nonlinear_arith)
            requires
                f == s * q,
                s >= 1,
                q >= 1,
        ;
        lemma_roots_append(first + f, d, (t - s) as nat);
        assert(spec_roots_from(first, m) == seq![(2 * first + f - 1) as nat] + spec_roots_from(
            first + f,
            (m - f) as nat,
        ));
        assert(spec_roots_from(first, m + p) == seq![(2 * first + f - 1) as nat]
            + spec_roots_from(first + f, (m + p - f) as nat));
        assert(spec_roots_from(first, m + p) =~= spec_roots_from(first, m).push(
            (2 * (first + m) + p - 1) as nat,
        ));
    }
}

/// The full roots of `m` leaves from leaf `first` on lie between the first
/// of those leaves and the last.
pub proof fn lemma_roots_bounds(first: nat, m: nat, i: int)
    requires
        0 <= i < spec_roots_from(first, m).len(),
    ensures
        2 * first <= spec_roots_from(first, m)[i] <= 2 * (first + m) - 2,
    decreases m,
{
    if m > 0 {
        lemma_floor_pow2_basic(m);
        let f = spec_floor_pow2(m);
        if i > 0 {
            lemma_roots_bounds(first + f, (m - f) as nat, i - 1);
        }
    }
}

/// A number from 1 on lies between the power of two of its logarithm and
/// the next.
pub proof fn lemma_log2(b: nat)
    requires
        b >= 1,
    ensures
        pow2(spec_log2(b)) <= b < pow2(spec_log2(b) + 1),
    decreases b,
{
    lemma2_to64();
    if b > 1 {
        lemma_log2(b / 2);
        lemma_pow2_unfold(spec_log2(b));
        lemma_pow2_unfold(spec_log2(b) + 1);
    }
}

/// A node at `depth` and `offset` is complete with `b` blocks just when its
/// last leaf is among them.
pub proof fn lemma_complete_index(depth: nat, offset: nat, b: nat)
    ensures
        spec_complete(spec_index(depth, offset), b) <==> (offset + 1) * pow2(depth) <= b,
{
    lemma_depth_offset_of_index(depth, offset);
}

/// The roots of the full subtrees that together cover the leaves below the
/// even index `idx`, in index order.
pub fn full_roots(idx: u64) -> (r: Vec<u64>)
    requires
        idx % 2 == 0,
    ensures
        spec_nats(r@) == spec_full_roots(idx as nat),
        r@.len() <= 63,
{
    let mut vec: Vec<u64> = Vec::with_capacity(64);
    proof {
        assert(idx >> 1 == idx / 2) by (bit_vector);
        lemma2_to64_rest();
        lemma_roots_len(0, (idx / 2) as nat, 63);
    }
    let mut temp: u64 = idx >> 1;
    let mut offset: u64 = 0;
    let mut factor: u64 = 1;
    while temp != 0
        invariant
            idx % 2 == 0,
            factor == 1,
            offset % 2 == 0,
            offset + 2 * temp == idx,
            spec_nats(vec@) + spec_roots_from((offset / 2) as nat, temp as nat) == spec_full_roots(
                idx as nat,
            ),
        decreases temp,
    {
        let ghost rest: nat = temp as nat;
        while factor << 1 <= temp
            invariant
                1 <= factor <= temp,
                rest == temp / factor,
                rest >= 1,
                spec_floor_pow2(temp as nat) == factor * spec_floor_pow2(rest),
                offset + 2 * temp == idx,
            decreases temp - factor,
        {
            proof {
                assert(factor << 1 == 2 * factor) by (bit_vector)
                    requires
                        factor <= 0x7fff_ffff_ffff_ffffu64,
                ;
                lemma_div_denominator(temp as int, factor as int, 2);
                assert(rest >= 2) by (nonlinear_arith)
                    requires
                        rest == temp / factor,
                        2 * factor <= temp,
                        factor >= 1,
                ;
                assert(factor * (2 * spec_floor_pow2(rest / 2)) == (2 * factor) * spec_floor_pow2(
                    rest / 2,
                )) by (nonlinear_arith);
                rest = rest / 2;
            }
            factor <<= 1;
        }
        proof {
            assert(factor << 1 == 2 * factor) by (bit_vector)
                requires
                    factor <= 0x7fff_ffff_ffff_ffffu64,
            ;
            assert(rest == 1) by (nonlinear_arith)
                requires
                    rest == temp / factor,
                    2 * factor > temp,
                    factor >= 1,
                    rest >= 1,
            ;
            assert(spec_floor_pow2(1) == 1);
            assert(factor * 1 == factor);
            assert(spec_floor_pow2(temp as nat) == factor);
            let ghost first = (offset / 2) as nat;
            assert(spec_roots_from(first, temp as nat) == seq![(2 * first + factor - 1) as nat]
                + spec_roots_from(first + factor as nat, (temp - factor) as nat));
            assert(spec_nats(vec@.push((offset + factor - 1) as u64)) == spec_nats(vec@) + seq![
                (2 * first + factor - 1) as nat,
            ]);
        }
        vec.push(offset + factor - 1);
        offset += factor << 1;
        temp -= factor;
        factor = 1;
    }
    proof {
        assert(spec_roots_from((offset / 2) as nat, 0) == Seq::<nat>::empty());
        assert(spec_nats(vec@) + Seq::<nat>::empty() == spec_nats(vec@));
    }
    vec
}

/// Whether node `idx` is the left child of its parent.
pub fn is_left(idx: u64) -> (r: bool)
    requires
        spec_depth(idx as nat) < 63,
    ensures
        r == spec_is_left(idx as nat),
{
    let o = offset(idx);
    proof {
        assert(o & 1 == o % 2) by (bit_vector);
    }
    o & 1 == 0
}

/// Whether node `idx` is the right child of its parent.
pub fn is_right(idx: u64) -> (r: bool)
    requires
        spec_depth(idx as nat) < 63,
    ensures
        r == !spec_is_left(idx as nat),
{
    !is_left(idx)
}

} // verus!
