//! The bitfield of a log: which blocks are present, which nodes of the tree
//! are verified, and a summary of the block bits, side by side in the pages of
//! one pager.
//!
//! Of each page the first 1024 bytes hold block bits, the next 2048 hold tree
//! bits and the last 256 hold the summary: two bits for each byte of block bits,
//! `00` for a byte of zeros, `11` for a byte of ones, `01` for any other.

use vstd::prelude::*;
use std::ops::Range;
use crate::bytes::{append_bytes, copy_range, zeros, spec_zeros};
use vstd::arithmetic::power2::{pow2, lemma_pow2_pos, lemma_pow2_unfold, lemma2_to64, lemma2_to64_rest, lemma_pow2_strictly_increases};
use crate::flat::{spec_complete, spec_depth, spec_flip, spec_full_roots, spec_index, spec_nats, spec_parent_with_depth, spec_sibling};
use crate::pager::{Pager, PagerState, PAGE_SIZE};
use crate::sparse::{SparseBitfield, get_byte_in, get_in, set_byte_in, set_in, spec_bit, spec_byte, spec_full_pages, spec_page_of, spec_put_bit, spec_put_byte, spec_window, lemma_set_bit, lemma_set_bit_apart, lemma_set_byte, lemma_with_bit};
use crate::tree::{blocks_in, digest_in, proof_in, roots_in, set_node_in, verified_by_in, spec_bits, spec_blocks, spec_bounded, spec_digest, spec_digest_fits, spec_len, spec_low, spec_proof, spec_set_node, spec_verified_by, lemma_bounded_low, lemma_put_bit_bounded, lemma_put_bit_low, lemma_set_node_apart, ProofOpts, TreeBitfield, MAX_NODES, MAX_PAGES};

verus! {

/// Where in a page the block bits start.
pub const DATA_OFFSET: usize = 0;

/// The bytes of block bits in a page.
pub const DATA_SIZE: usize = 1024;

/// Where in a page the bits of the tree nodes start.
pub const TREE_OFFSET: usize = 1024;

/// The bytes of tree bits in a page.
pub const TREE_SIZE: usize = 2048;

/// Where in a page the summary starts.
pub const INDEX_OFFSET: usize = 3072;

/// The bytes of summary in a page.
pub const INDEX_SIZE: usize = 256;

/// The most bytes that `from_buffer` takes: `MAX_PAGES` pages.
pub const MAX_BUFFER: u64 = 0xD_0000_0000_0000;

/// The number of bits `lo` to `hi - 1` of `byte` that are set.
pub open spec fn spec_ones_between(byte: u8, lo: nat, hi: nat) -> nat
    decreases hi,
{
    if hi <= lo {
        0
    } else {
        spec_ones_between(byte, lo, (hi - 1) as nat) + if byte & (1u8 << ((hi - 1) as u8)) != 0 {
            1nat
        } else {
            0nat
        }
    }
}

/// The number of bits of `byte` that are set.
pub open spec fn spec_ones(byte: u8) -> nat {
    spec_ones_between(byte, 0, 8)
}

/// The number of block bits `from` to `to - 1` that are set.
pub open spec fn spec_count(pages: Map<u64, Seq<u8>>, from: nat, to: nat) -> nat
    decreases to,
{
    if to <= from {
        0
    } else {
        spec_count(pages, from, (to - 1) as nat) + if spec_bit(
            pages,
            DATA_OFFSET as nat,
            DATA_SIZE as nat,
            (to - 1) as nat,
        ) {
            1nat
        } else {
            0nat
        }
    }
}

/// The two bits that sum a byte of block bits up.
pub open spec fn spec_summary(byte: u8) -> u8 {
    if byte == 255 {
        3
    } else if byte == 0 {
        0
    } else {
        1
    }
}

/// The two bits of the summary that stand for byte `k` of the block bits:
/// the four pairs of a summary byte stand with the first in the high bits.
pub open spec fn spec_summary_at(pages: Map<u64, Seq<u8>>, k: nat) -> u8 {
    (spec_byte(pages, INDEX_OFFSET as nat, INDEX_SIZE as nat, k / 4) >> ((6 - 2 * (k % 4)) as u8))
        & 3
}

/// A summary byte with the pair for slot `o` replaced by `pair`.
pub open spec fn spec_with_pair(byte: u8, o: u8, pair: u8) -> u8 {
    (byte & !(0xC0u8 >> ((2 * o) as u8))) | ((pair << 6u8) >> ((2 * o) as u8))
}

/// The summary byte that holds the pair of byte `k` of the block bits, with
/// that pair brought up to date.
pub open spec fn spec_index_byte(pages: Map<u64, Seq<u8>>, k: nat) -> u8 {
    spec_with_pair(
        spec_byte(pages, INDEX_OFFSET as nat, INDEX_SIZE as nat, k / 4),
        (k % 4) as u8,
        spec_summary(spec_byte(pages, DATA_OFFSET as nat, DATA_SIZE as nat, k)),
    )
}

/// What the pager holds after the block bit was written.
pub open spec fn spec_after_data(st: PagerState, b: nat, value: bool) -> PagerState {
    spec_put_bit(st, DATA_OFFSET as nat, DATA_SIZE as nat, b, value)
}

/// What the pager holds after the block bit and the tree bits were written.
pub open spec fn spec_after_tree(st: PagerState, b: nat, value: bool) -> PagerState {
    spec_set_node(spec_after_data(st, b, value), TREE_OFFSET as nat, TREE_SIZE as nat, 2 * b, value)
}

/// What the pager holds after the summary of the byte of block `b` was
/// brought up to date.
pub open spec fn spec_after_index(st: PagerState, b: nat) -> PagerState {
    spec_put_byte(
        st,
        INDEX_OFFSET as nat,
        INDEX_SIZE as nat,
        (b / 8) / 4,
        spec_index_byte(st.pages, b / 8),
    )
}

/// What the pager holds after `set`: the block bit is written first; if
/// that changed it, the leaf of the block is set in the tree, and then the
/// summary is brought up to date.
pub open spec fn spec_set(st: PagerState, b: nat, value: bool) -> PagerState {
    if spec_bit(st.pages, DATA_OFFSET as nat, DATA_SIZE as nat, b) == value {
        st
    } else {
        spec_after_index(spec_after_tree(st, b, value), b)
    }
}

/// What `set` returns: whether the block bit, the leaf in the tree and the
/// summary byte all changed.
pub open spec fn spec_set_changes(st: PagerState, b: nat, value: bool) -> bool {
    &&& spec_bit(st.pages, DATA_OFFSET as nat, DATA_SIZE as nat, b) != value
    &&& spec_bit(spec_after_data(st, b, value).pages, TREE_OFFSET as nat, TREE_SIZE as nat, 2 * b)
        != value
    &&& spec_byte(
        spec_after_tree(st, b, value).pages,
        INDEX_OFFSET as nat,
        INDEX_SIZE as nat,
        (b / 8) / 4,
    ) != spec_index_byte(spec_after_tree(st, b, value).pages, b / 8)
}

/// The pages are those numbered below `n`.
pub open spec fn spec_dense(pages: Map<u64, Seq<u8>>, n: nat) -> bool {
    forall|p: u64| #[trigger] pages.contains_key(p) <==> p < n
}

/// The first `n` pages, one after the other.
pub open spec fn spec_flatten(pages: Map<u64, Seq<u8>>, n: nat) -> Seq<u8>
    decreases n,
{
    if n == 0 {
        Seq::empty()
    } else {
        spec_flatten(pages, (n - 1) as nat) + pages[(n - 1) as u64]
    }
}

/// Page `p` of a buffer: its bytes from `p * PAGE_SIZE` on, filled up with
/// zeros where the buffer ends within the page.
pub open spec fn spec_chunk(buffer: Seq<u8>, p: nat) -> Seq<u8> {
    let start = p * PAGE_SIZE as nat;
    let end = if start + PAGE_SIZE <= buffer.len() {
        start + PAGE_SIZE as nat
    } else {
        buffer.len()
    };
    buffer.subrange(start as int, end as int) + spec_zeros((start + PAGE_SIZE - end) as nat)
}

/// The pages that a buffer holds.
pub open spec fn spec_pages_of(buffer: Seq<u8>) -> Map<u64, Seq<u8>> {
    Map::new(
        |p: u64| p * PAGE_SIZE < buffer.len(),
        |p: u64| spec_chunk(buffer, p as nat),
    )
}

proof fn lemma_masks(b: u8, lo: u8, hi: u8, j: u8)
    by (bit_vector)
    requires
        lo < 8,
        hi < 8,
        j < 8,
    ensures
        ((b & (0xFFu8 << lo)) & (1u8 << j) != 0) == (j >= lo && (b & (1u8 << j) != 0)),
        ((b & !(0xFFu8 << hi)) & (1u8 << j) != 0) == (j < hi && (b & (1u8 << j) != 0)),
        (((b & (0xFFu8 << lo)) & !(0xFFu8 << hi)) & (1u8 << j) != 0) == (lo <= j && j < hi && (b
            & (1u8 << j) != 0)),
{
}

proof fn lemma_between_masked(c: u8, b: u8, lo: nat, hi: nat, n: nat)
    requires
        n <= 8,
        forall|j: u8| j < 8 ==> ((c & (#[trigger] (1u8 << j)) != 0) == (lo <= j && j < hi && (b & (1u8 << j) != 0))),
    ensures
        spec_ones_between(c, 0, n) == spec_ones_between(
            b,
            lo,
            if hi < n {
                hi
            } else {
                n
            },
        ),
    decreases n,
{
    if n > 0 {
        lemma_between_masked(c, b, lo, hi, (n - 1) as nat);
        let j = (n - 1) as u8;
        assert((c & (1u8 << j) != 0) == (lo <= j && j < hi && (b & (1u8 << j) != 0)));
    }
}

/// The bits of a masked byte that are set, counted in the byte itself.
pub proof fn lemma_ones_masked(b: u8, lo: u8, hi: u8)
    requires
        lo < 8,
        hi < 8,
    ensures
        spec_ones(b & (0xFFu8 << lo)) == spec_ones_between(b, lo as nat, 8),
        spec_ones(b & !(0xFFu8 << hi)) == spec_ones_between(b, 0, hi as nat),
        spec_ones((b & (0xFFu8 << lo)) & !(0xFFu8 << hi)) == spec_ones_between(
            b,
            lo as nat,
            hi as nat,
        ),
{
    assert forall|j: u8| j < 8 implies ((b & (0xFFu8 << lo)) & (#[trigger] (1u8 << j)) != 0) == (lo
        <= j && j < 8 && (b & (1u8 << j) != 0)) by {
        lemma_masks(b, lo, hi, j);
    }
    lemma_between_masked(b & (0xFFu8 << lo), b, lo as nat, 8, 8);
    assert forall|j: u8| j < 8 implies ((b & !(0xFFu8 << hi)) & (#[trigger] (1u8 << j)) != 0) == (0
        <= j && j < hi && (b & (1u8 << j) != 0)) by {
        lemma_masks(b, lo, hi, j);
    }
    lemma_between_masked(b & !(0xFFu8 << hi), b, 0, hi as nat, 8);
    assert forall|j: u8| j < 8 implies (((b & (0xFFu8 << lo)) & !(0xFFu8 << hi)) & (#[trigger] (1u8
        << j)) != 0) == (lo <= j && j < hi && (b & (1u8 << j) != 0)) by {
        lemma_masks(b, lo, hi, j);
    }
    lemma_between_masked((b & (0xFFu8 << lo)) & !(0xFFu8 << hi), b, lo as nat, hi as nat, 8);
}

/// The number of bits of a byte that are set.
pub fn count_ones(byte: u8) -> (r: u64)
    ensures
        r == spec_ones(byte),
        r <= 8,
{
    let mut count: u64 = 0;
    let mut j: u8 = 0;
    while j < 8
        invariant
            j <= 8,
            count <= j,
            count == spec_ones_between(byte, 0, j as nat),
        decreases 8 - j,
    {
        if byte & (1u8 << j) != 0 {
            count += 1;
        }
        j += 1;
    }
    count
}

/// Counting over two stretches that meet is counting over both.
pub proof fn lemma_count_split(pages: Map<u64, Seq<u8>>, s: nat, e: nat, f: nat)
    requires
        s <= e <= f,
    ensures
        spec_count(pages, s, e) + spec_count(pages, e, f) == spec_count(pages, s, f),
    decreases f,
{
    if f > e {
        lemma_count_split(pages, s, e, (f - 1) as nat);
    }
}

/// No more bits are set in a stretch than it has.
pub proof fn lemma_count_le(pages: Map<u64, Seq<u8>>, s: nat, e: nat)
    ensures
        spec_count(pages, s, e) <= if s <= e {
            e - s
        } else {
            0
        },
    decreases e,
{
    if e > s {
        lemma_count_le(pages, s, (e - 1) as nat);
    }
}

/// Counting the block bits within one byte is counting the bits of that
/// byte.
pub proof fn lemma_count_byte(pages: Map<u64, Seq<u8>>, k: nat, lo: nat, hi: nat)
    requires
        lo <= hi <= 8,
    ensures
        spec_count(pages, 8 * k + lo, 8 * k + hi) == spec_ones_between(
            spec_byte(pages, DATA_OFFSET as nat, DATA_SIZE as nat, k),
            lo,
            hi,
        ),
    decreases hi,
{
    if hi > lo {
        lemma_count_byte(pages, k, lo, (hi - 1) as nat);
        let n = (8 * k + hi - 1) as nat;
        assert(n / 8 == k);
        assert(n % 8 == hi - 1);
    }
}

/// The four bits that sum a summary byte up: two for each half.
pub fn convert_to_index(value: u8) -> (r: u8)
    ensures
        r == spec_summary_of_half(value / 16) * 4 + spec_summary_of_half(value % 16),
{
    proof {
        assert((value & (15u8 << 4u8)) >> 4u8 == value / 16) by (bit_vector);
        assert(value & 15 == value % 16) by (bit_vector);
    }
    let high = (value & (15 << 4)) >> 4;
    let left: u8 = if high == 15 {
        0b0000_1100
    } else if high == 0 {
        0b0000_0000
    } else {
        0b0000_0100
    };
    let low = value & 15;
    let right: u8 = if low == 15 {
        0b0000_0011
    } else if low == 0 {
        0b0000_0000
    } else {
        0b0000_0001
    };
    proof {
        assert(left | right == left + right) by (bit_vector)
            requires
                left == 12 || left == 0 || left == 4,
                right == 3 || right == 0 || right == 1,
        ;
    }
    left | right
}

/// The two bits that sum four bits up: `11` for four ones, `00` for four
/// zeros, `01` for any other.
pub open spec fn spec_summary_of_half(half: u8) -> u8 {
    if half == 15 {
        3
    } else if half == 0 {
        0
    } else {
        1
    }
}

proof fn lemma_with_pair(byte: u8, o: u8, pair: u8, p: u8)
    by (bit_vector)
    requires
        o < 4,
        p < 4,
        pair < 4,
    ensures
        (spec_with_pair(byte, o, pair) >> ((6 - 2 * p) as u8)) & 3 == if p == o {
            pair
        } else {
            (byte >> ((6 - 2 * p) as u8)) & 3
        },
{
}

/// Writing a byte in bounds keeps the pages whole and within the bound.
pub proof fn lemma_put_byte_bounded(st: PagerState, offset: nat, size: nat, k: nat, value: u8)
    requires
        spec_full_pages(st.pages),
        spec_bounded(st.pages),
        spec_window(offset, size),
        k / size < MAX_PAGES,
    ensures
        spec_full_pages(spec_put_byte(st, offset, size, k, value).pages),
        spec_bounded(spec_put_byte(st, offset, size, k, value).pages),
{
    lemma_set_byte(st.pages, offset, size, k, value, offset, size, k);
    let new = spec_put_byte(st, offset, size, k, value).pages;
    assert forall|p: u64| #[trigger] new.contains_key(p) implies p < MAX_PAGES by {
        if !st.pages.contains_key(p) {
            assert(p == spec_page_of(size, k));
        }
    }
}

/// What the pager holds after the pair of the byte of block `b`, in the
/// summary window at `offset`, was set to the sum of `value`.
pub open spec fn spec_put_summary(st: PagerState, offset: nat, size: nat, b: nat, value: u8) -> PagerState {
    spec_put_byte(
        st,
        offset,
        size,
        (b / 8) / 4,
        spec_with_pair(
            spec_byte(st.pages, offset, size, (b / 8) / 4),
            ((b / 8) % 4) as u8,
            spec_summary(value),
        ),
    )
}

/// Brings the pair of the byte of block `index` up to date in a summary
/// window: `value` is that byte of the block bits. Says whether the summary
/// changed.
pub fn set_summary_in(pager: &mut Pager, offset: usize, size: usize, index: u64, value: u8) -> (changed:
    bool)
    requires
        old(pager).wf(),
        spec_window(offset as nat, size as nat),
    ensures
        final(pager).wf(),
        final(pager).state() == spec_put_summary(
            old(pager).state(),
            offset as nat,
            size as nat,
            index as nat,
            value,
        ),
        changed == (final(pager).pages() != old(pager).pages()),
{
    let k = index / 8;
    proof {
        assert(k & 3 < 4) by (bit_vector);
    }
    let o = (k & 3) as u8;
    let start = k * 2;
    let pair: u8 = if value == 255 {
        0b1100_0000
    } else if value == 0 {
        0b0000_0000
    } else {
        0b0100_0000
    };
    let mask: u8 = !(0b1100_0000u8 >> (2 * o));
    let old_byte = get_byte_in(pager, offset, size, start);
    let byte = (old_byte & mask) | (pair >> (2 * o));
    proof {
        assert(k & 3 == k % 4) by (bit_vector);
        assert(start / 8 == k / 4);
        assert(3u8 << 6u8 == 0xC0u8 && 1u8 << 6u8 == 0x40u8 && 0u8 << 6u8 == 0u8)
            by (bit_vector);
        assert((k / 4) / (size as u64) <= u64::MAX);
        lemma_set_byte(
            pager.pages(),
            offset as nat,
            size as nat,
            (k / 4) as nat,
            byte,
            offset as nat,
            size as nat,
            (k / 4) as nat,
        );
    }
    set_byte_in(pager, offset, size, start, byte)
}

/// The summary of the block bits, on a window of its own.
pub struct IndexBitfield {
    pub bitfield: SparseBitfield,
}

impl IndexBitfield {
    /// The summary on the window `bitfield`.
    pub fn with_bitfield(bitfield: SparseBitfield) -> (r: IndexBitfield)
        ensures
            r.bitfield == bitfield,
    {
        IndexBitfield { bitfield }
    }

    /// Brings the pair of the byte of block `index` up to date: `value` is
    /// that byte of the block bits.
    pub fn set(&mut self, index: u64, value: u8) -> (changed: bool)
        requires
            old(self).bitfield.wf(),
        ensures
            final(self).bitfield.wf(),
            final(self).bitfield.offset == old(self).bitfield.offset,
            final(self).bitfield.size == old(self).bitfield.size,
            final(self).bitfield.pager.state() == spec_put_summary(
                old(self).bitfield.pager.state(),
                old(self).bitfield.offset as nat,
                old(self).bitfield.size as nat,
                index as nat,
                value,
            ),
            changed == (final(self).bitfield.pager.pages() != old(self).bitfield.pager.pages()),
    {
        set_summary_in(
            &mut self.bitfield.pager,
            self.bitfield.offset,
            self.bitfield.size,
            index,
            value,
        )
    }
}

/// Which blocks of a log are present, which nodes of its tree are verified,
/// and a summary of both, in the three windows of one set of pages.
pub struct Bitfield {
    pub pager: Pager,
}

impl Bitfield {
    /// The pages are whole, and no more than `MAX_PAGES`.
    pub open spec fn wf(&self) -> bool {
        self.pager.wf() && spec_bounded(self.pager.pages())
    }

    /// Whether block `b` is present.
    pub open spec fn spec_get(&self, b: nat) -> bool {
        spec_bit(self.pager.pages(), DATA_OFFSET as nat, DATA_SIZE as nat, b)
    }

    /// The nodes of the tree that are verified.
    pub open spec fn spec_tree(&self) -> Set<nat> {
        spec_bits(self.pager.pages(), TREE_OFFSET as nat, TREE_SIZE as nat)
    }

    /// The number of blocks `from` to `to - 1` that are present.
    pub open spec fn spec_total(&self, from: nat, to: nat) -> nat {
        spec_count(self.pager.pages(), from, to)
    }

    /// A block index that `set` takes: its bit lies in a page below
    /// `MAX_PAGES`.
    pub open spec fn spec_in_range(b: nat) -> bool {
        b < 8 * DATA_SIZE * MAX_PAGES
    }

    /// A bitfield without pages: no block is present.
    pub fn new() -> (r: Bitfield)
        ensures
            r.wf(),
            r.pager.pages() == Map::<u64, Seq<u8>>::empty(),
            r.pager.dirty() == Seq::<u64>::empty(),
            forall|b: nat| !r.spec_get(b),
            spec_summed(r.pager.pages()),
            crate::tree::spec_closed(r.spec_tree()),
            spec_filled(r.pager.pages(), 0),
    {
        let r = Bitfield { pager: Pager::new() };
        proof {
            crate::feed::lemma_nothing_complete();
            assert forall|b: nat| !r.spec_get(b) by {
                lemma_with_bit(0, b, true, b);
            }
            assert forall|n: nat| !r.spec_tree().contains(n) by {
                lemma_with_bit(0, n, true, n);
            }
            assert forall|n: nat| !(#[trigger] spec_bit(
                r.pager.pages(),
                TREE_OFFSET as nat,
                TREE_SIZE as nat,
                n,
            )) by {
                lemma_with_bit(0, n, true, n);
            }
            assert forall|n: nat| !(#[trigger] spec_bit(
                r.pager.pages(),
                DATA_OFFSET as nat,
                DATA_SIZE as nat,
                n,
            )) by {
                lemma_with_bit(0, n, true, n);
            }
            lemma_summed_empty();
        }
        r
    }

    /// The bitfield whose pages are the pages of `buffer`, the last filled up
    /// with zeros.
    pub fn from_buffer(buffer: Vec<u8>) -> (r: Bitfield)
        requires
            buffer.len() <= MAX_BUFFER,
        ensures
            r.wf(),
            r.pager.pages() == spec_pages_of(buffer@),
            r.pager.dirty() == Seq::<u64>::empty(),
    {
        let mut pager = Pager::new();
        let length = buffer.len();
        let mut offset: usize = 0;
        let mut page_num: u64 = 0;
        while offset < length
            invariant
                length == buffer.len(),
                length <= MAX_BUFFER,
                pager.wf(),
                pager.dirty() == Seq::<u64>::empty(),
                offset == page_num * 3328,
                offset < length || (length == 0 && page_num == 0),
                pager.pages() == Map::<u64, Seq<u8>>::new(
                    |p: u64| p < page_num,
                    |p: u64| spec_chunk(buffer@, p as nat),
                ),
            decreases length + PAGE_SIZE - offset,
        {
            let end = if length - offset < PAGE_SIZE {
                length
            } else {
                offset + PAGE_SIZE
            };
            let mut page = copy_range(buffer.as_slice(), offset, end);
            let fill = zeros(PAGE_SIZE - (end - offset));
            append_bytes(&mut page, fill.as_slice());
            let ghost before = pager.pages();
            pager.insert(page_num, page);
            proof {
                assert(pager.pages() =~= Map::<u64, Seq<u8>>::new(
                    |p: u64| p < page_num + 1,
                    |p: u64| spec_chunk(buffer@, p as nat),
                ));
            }
            if length - offset <= PAGE_SIZE {
                proof {
                    assert forall|p: u64| #[trigger]
                        spec_pages_of(buffer@).contains_key(p) == (p < page_num + 1) by {
                        if p < page_num + 1 {
                            assert(p * PAGE_SIZE <= page_num * PAGE_SIZE) by (nonlinear_arith)
                                requires
                                    p <= page_num,
                            ;
                        } else {
                            assert(p * PAGE_SIZE >= (page_num + 1) * PAGE_SIZE) by (nonlinear_arith)
                                requires
                                    p >= page_num + 1,
                            ;
                        }
                    }
                    assert(pager.pages() =~= spec_pages_of(buffer@));
                    assert forall|p: u64| #[trigger]
                        pager.pages().contains_key(p) implies p < MAX_PAGES by {
                        assert(p * 3328 < MAX_BUFFER);
                    }
                }
                return Bitfield { pager };
            }
            offset += PAGE_SIZE;
            page_num += 1;
        }
        proof {
            assert(length == 0);
            assert(pager.pages() =~= spec_pages_of(buffer@));
        }
        Bitfield { pager }
    }

    /// The same as `from_buffer`.
    pub fn from_vec(vec: Vec<u8>) -> (r: Bitfield)
        requires
            vec.len() <= MAX_BUFFER,
        ensures
            r.wf(),
            r.pager.pages() == spec_pages_of(vec@),
            r.pager.dirty() == Seq::<u64>::empty(),
    {
        Bitfield::from_buffer(vec)
    }

    /// The tree bits as they are now, as a bitfield of its own.
    pub fn get_tree(&self) -> (r: TreeBitfield)
        requires
            self.wf(),
        ensures
            r.wf(),
            spec_bounded(r.bitfield.pager.pages()),
            r@ == self.spec_tree(),
            r.bitfield.pager.pages() == self.pager.pages(),
    {
        proof {
            lemma_bounded_low(self.pager.pages(), TREE_OFFSET as nat, TREE_SIZE as nat);
        }
        TreeBitfield::with_bitfield(
            SparseBitfield::with_pager(self.pager.snapshot(), TREE_OFFSET, TREE_SIZE),
        )
    }

    /// Whether block `index` is present.
    pub fn get(&self, index: u64) -> (r: bool)
        requires
            self.wf(),
        ensures
            r == self.spec_get(index as nat),
    {
        get_in(&self.pager, DATA_OFFSET, DATA_SIZE, index)
    }

    fn set_data(&mut self, index: u64, value: bool) -> (changed: bool)
        requires
            old(self).wf(),
            Self::spec_in_range(index as nat),
        ensures
            final(self).wf(),
            changed == (old(self).spec_get(index as nat) != value),
            final(self).pager.state() == spec_after_data(
                old(self).pager.state(),
                index as nat,
                value,
            ),
    {
        proof {
            lemma_put_bit_bounded(
                self.pager.state(),
                DATA_OFFSET as nat,
                DATA_SIZE as nat,
                index as nat,
                value,
            );
        }
        set_in(&mut self.pager, DATA_OFFSET, DATA_SIZE, index, value)
    }

    fn set_tree(&mut self, index: u64, value: bool) -> (changed: bool)
        requires
            old(self).wf(),
            Self::spec_in_range(index as nat),
        ensures
            final(self).wf(),
            changed == (spec_bit(
                old(self).pager.pages(),
                TREE_OFFSET as nat,
                TREE_SIZE as nat,
                (2 * index) as nat,
            ) != value),
            final(self).pager.state() == spec_set_node(
                old(self).pager.state(),
                TREE_OFFSET as nat,
                TREE_SIZE as nat,
                (2 * index) as nat,
                value,
            ),
    {
        proof {
            lemma_bounded_low(self.pager.pages(), TREE_OFFSET as nat, TREE_SIZE as nat);
        }
        set_node_in(&mut self.pager, TREE_OFFSET, TREE_SIZE, index * 2, value)
    }

    fn set_index(&mut self, index: u64) -> (changed: bool)
        requires
            old(self).wf(),
            Self::spec_in_range(index as nat),
        ensures
            final(self).wf(),
            changed == (spec_byte(
                old(self).pager.pages(),
                INDEX_OFFSET as nat,
                INDEX_SIZE as nat,
                ((index / 8) / 4) as nat,
            ) != spec_index_byte(old(self).pager.pages(), (index / 8) as nat)),
            final(self).pager.state() == spec_after_index(old(self).pager.state(), index as nat),
    {
        let value = get_byte_in(&self.pager, DATA_OFFSET, DATA_SIZE, index);
        proof {
            lemma_put_byte_bounded(
                self.pager.state(),
                INDEX_OFFSET as nat,
                INDEX_SIZE as nat,
                ((index / 8) / 4) as nat,
                spec_index_byte(self.pager.pages(), (index / 8) as nat),
            );
        }
        set_summary_in(&mut self.pager, INDEX_OFFSET, INDEX_SIZE, index, value)
    }

    /// Marks block `index` as present or absent. Where that changes the
    /// block bit, the tree and then the summary follow; the result says whether
    /// all three changed.
    pub fn set(&mut self, index: u64, value: bool) -> (changed: bool)
        requires
            old(self).wf(),
            Self::spec_in_range(index as nat),
        ensures
            final(self).wf(),
            final(self).pager.state() == spec_set(old(self).pager.state(), index as nat, value),
            changed == spec_set_changes(old(self).pager.state(), index as nat, value),
            forall|b: nat|
                final(self).spec_get(b) == if b == index {
                    value
                } else {
                    old(self).spec_get(b)
                },
            old(self).spec_get(index as nat) == value ==> !changed && final(self).pager.state()
                == old(self).pager.state(),
            spec_summed(old(self).pager.pages()) ==> spec_summed(final(self).pager.pages()),
            value && crate::tree::spec_closed(old(self).spec_tree()) ==> crate::tree::spec_closed(
                final(self).spec_tree(),
            ),
            value && spec_filled(old(self).pager.pages(), index as nat) ==> spec_filled(
                final(self).pager.pages(),
                (index + 1) as nat,
            ),
    {
        proof {
            if value && spec_filled(self.pager.pages(), index as nat) {
                lemma_set_filled(self.pager.state(), index as nat);
            }
            if spec_summed(self.pager.pages()) {
                lemma_set_summed(self.pager.state(), index as nat, value);
            }
            if value && crate::tree::spec_closed(self.spec_tree()) {
                lemma_set_closed(self.pager.state(), index as nat);
            }
            lemma_set_data(self.pager.state(), index as nat, value);
            lemma_set_bit(
                self.pager.pages(),
                DATA_OFFSET as nat,
                DATA_SIZE as nat,
                index as nat,
                value,
                index as nat,
            );
        }
        let ghost goal = spec_set(self.pager.state(), index as nat, value);
        if !self.set_data(index, value) {
            return false;
        }
        let tree = self.set_tree(index, value);
        let summary = self.set_index(index);
        proof {
            assert(self.pager.state() == goal);
            assert(self.pager.pages() == goal.pages);
        }
        tree && summary
    }

    /// The number of blocks in `range` that are present.
    pub fn total(&self, range: Range<u64>) -> (r: u64)
        requires
            self.wf(),
        ensures
            r == self.spec_total(range.start as nat, range.end as nat),
    {
        let s = range.start;
        let e = range.end;
        if s >= e {
            return 0;
        }
        let so = (s & 7) as u8;
        let eo = (e & 7) as u8;
        proof {
            assert(s & 7 == s % 8) by (bit_vector);
            assert(e & 7 == e % 8) by (bit_vector);
        }
        let left_mask: u8 = 0xFF << so;
        let right_mask: u8 = !(0xFFu8 << eo);
        let first = s / 8;
        let last = e / 8;
        let ghost pages = self.pager.pages();
        let byte = get_byte_in(&self.pager, DATA_OFFSET, DATA_SIZE, s);
        proof {
            lemma_ones_masked(byte, so, eo);
            lemma_count_le(pages, s as nat, e as nat);
        }
        if first == last {
            proof {
                lemma_count_byte(pages, first as nat, so as nat, eo as nat);
            }
            return count_ones(byte & left_mask & right_mask);
        }
        let mut total = count_ones(byte & left_mask);
        let mut i = first + 1;
        proof {
            lemma_count_byte(pages, first as nat, so as nat, 8);
        }
        while i < last
            invariant
                self.wf(),
                pages == self.pager.pages(),
                first < i <= last,
                first == s / 8,
                last == e / 8,
                s < e,
                total == spec_count(pages, s as nat, (8 * i) as nat),
            decreases last - i,
        {
            proof {
                lemma_count_byte(pages, i as nat, 0, 8);
                lemma_count_split(pages, s as nat, (8 * i) as nat, (8 * i + 8) as nat);
                lemma_count_le(pages, s as nat, (8 * i + 8) as nat);
            }
            let inner = get_byte_in(&self.pager, DATA_OFFSET, DATA_SIZE, i * 8);
            total += count_ones(inner);
            i += 1;
        }
        let end_byte = get_byte_in(&self.pager, DATA_OFFSET, DATA_SIZE, e);
        proof {
            lemma_ones_masked(end_byte, so, eo);
            lemma_count_byte(pages, last as nat, 0, eo as nat);
            lemma_count_split(pages, s as nat, (8 * last) as nat, e as nat);
        }
        total += count_ones(end_byte & right_mask);
        total
    }

    /// The number of blocks at the start of the log that are verified.
    pub fn blocks(&self) -> (r: u64)
        requires
            self.wf(),
        ensures
            r == spec_blocks(self.spec_tree(), spec_len(self.pager.pages())),
            forall|b: nat|
                b < crate::feed::MAX_FEED_BLOCKS && #[trigger] spec_filled(self.pager.pages(), b)
                    ==> r == b,
    {
        proof {
            assert forall|b: nat|
                b < crate::feed::MAX_FEED_BLOCKS && #[trigger] spec_filled(
                    self.pager.pages(),
                    b,
                ) implies spec_blocks(self.spec_tree(), spec_len(self.pager.pages())) == b by {
                crate::feed::lemma_filled_blocks(self.pager.pages(), b);
            }
        }
        blocks_in(&self.pager, TREE_OFFSET, TREE_SIZE)
    }

    /// The full roots of the blocks that are verified.
    pub fn roots(&self) -> (r: Vec<u64>)
        requires
            self.wf(),
        ensures
            spec_nats(r@) == spec_full_roots(
                2 * spec_blocks(self.spec_tree(), spec_len(self.pager.pages())),
            ),
            forall|b: nat|
                b < crate::feed::MAX_FEED_BLOCKS && #[trigger] spec_filled(self.pager.pages(), b)
                    ==> spec_nats(r@) == spec_full_roots(2 * b),
    {
        proof {
            assert forall|b: nat|
                b < crate::feed::MAX_FEED_BLOCKS && #[trigger] spec_filled(
                    self.pager.pages(),
                    b,
                ) implies spec_blocks(self.spec_tree(), spec_len(self.pager.pages())) == b by {
                crate::feed::lemma_filled_blocks(self.pager.pages(), b);
            }
        }
        roots_in(&self.pager, TREE_OFFSET, TREE_SIZE)
    }

    /// The end of the verified stretch that holds node `index`: the index of
    /// the first leaf after it. `None` where the node is not marked.
    pub fn verfied_by(&self, index: u64) -> (r: Option<u64>)
        requires
            self.wf(),
        ensures
            match r {
                Some(v) => spec_verified_by(self.spec_tree(), index as nat) == Some(v as nat) && v
                    % 2 == 0 && v > index,
                None => spec_verified_by(self.spec_tree(), index as nat).is_none(),
            },
    {
        proof {
            crate::tree::lemma_verified_by(self.spec_tree(), index as nat);
            if self.spec_tree().contains(index as nat) {
                crate::tree::lemma_verified_by_after(self.spec_tree(), index as nat);
            }
        }
        verified_by_in(&self.pager, TREE_OFFSET, TREE_SIZE, index)
    }

    /// What of the way from node `index` to the root is verified here, bit by
    /// bit.
    pub fn digest(&self, index: u64) -> (r: u64)
        requires
            self.wf(),
            index < MAX_NODES,
        ensures
            r == spec_digest(self.spec_tree(), spec_len(self.pager.pages()), index as nat),
    {
        digest_in(&self.pager, TREE_OFFSET, TREE_SIZE, index)
    }

    /// The nodes that the remote side needs to verify node `index`.
    pub fn proof_of(&self, index: u64, opts: ProofOpts) -> (r: Option<(Vec<u64>, u64)>)
        requires
            self.wf(),
            opts.remote.wf(),
            self.spec_tree().contains(index as nat) ==> spec_digest_fits(index as nat, opts.digest),
        ensures
            match r {
                Some((nodes, v)) => spec_proof(
                    self.spec_tree(),
                    opts.remote.bitfield.pager.state(),
                    opts.remote.bitfield.offset as nat,
                    opts.remote.bitfield.size as nat,
                    index as nat,
                    opts.digest,
                    opts.hash,
                ) == Some((spec_nats(nodes@), v as nat)),
                None => spec_proof(
                    self.spec_tree(),
                    opts.remote.bitfield.pager.state(),
                    opts.remote.bitfield.offset as nat,
                    opts.remote.bitfield.size as nat,
                    index as nat,
                    opts.digest,
                    opts.hash,
                ).is_none(),
            },
    {
        proof_in(&self.pager, TREE_OFFSET, TREE_SIZE, index, opts)
    }

    /// The pages, one after the other, where they are numbered from 0 on
    /// without a gap.
    pub fn to_vec(&self) -> (r: Vec<u8>)
        requires
            self.wf(),
            spec_dense(self.pager.pages(), self.pager.pages().dom().len()),
        ensures
            r@ == spec_flatten(self.pager.pages(), self.pager.pages().dom().len()),
    {
        let count = self.pager.len() as u64;
        let mut result: Vec<u8> = Vec::new();
        let mut page_num: u64 = 0;
        while page_num < count
            invariant
                self.wf(),
                count == self.pager.pages().dom().len(),
                spec_dense(self.pager.pages(), count as nat),
                page_num <= count,
                result@ == spec_flatten(self.pager.pages(), page_num as nat),
            decreases count - page_num,
        {
            match self.pager.get(page_num) {
                Some(page) => {
                    append_bytes(&mut result, page.as_slice());
                },
                None => {
                    proof {
                        assert(self.pager.pages().contains_key(page_num));
                    }
                },
            }
            page_num += 1;
        }
        result
    }

    /// Takes the page that was written last out of the queue of pages to
    /// flush, and returns its place in the flattened bitfield and its bytes.
    pub fn last_updated(&mut self) -> (r: Option<(u64, Vec<u8>)>)
        requires
            old(self).wf(),
        ensures
            final(self).wf(),
            final(self).pager.pages() == old(self).pager.pages(),
            match r {
                Some((offset, page)) => old(self).pager.dirty().len() > 0 && offset == old(
                    self,
                ).pager.dirty().last() * PAGE_SIZE && old(self).pager.pages().contains_key(
                    old(self).pager.dirty().last(),
                ) && page@ == old(self).pager.pages()[old(self).pager.dirty().last()]
                    && final(self).pager.dirty() == old(self).pager.dirty().drop_last(),
                None => old(self).pager.dirty().len() == 0 && final(self).pager.dirty() == old(
                    self,
                ).pager.dirty(),
            },
    {
        match self.pager.last_updated() {
            None => None,
            Some(num) => {
                let bytes = match self.pager.get(num) {
                    Some(page) => copy_range(page.as_slice(), 0, page.len()),
                    None => Vec::new(),
                };
                proof {
                    let page = self.pager.pages()[num];
                    assert(page.subrange(0, page.len() as int) =~= page);
                }
                Some((num * (PAGE_SIZE as u64), bytes))
            },
        }
    }
}

/// What `set` does to the block bits: bit `b` gets its value, the others
/// stay; and nothing at all changes where bit `b` had the value.
pub proof fn lemma_set_data(st: PagerState, b: nat, value: bool)
    requires
        spec_full_pages(st.pages),
        spec_bounded(st.pages),
        Bitfield::spec_in_range(b),
    ensures
        forall|n: nat|
            spec_bit(spec_set(st, b, value).pages, DATA_OFFSET as nat, DATA_SIZE as nat, n) == if n
                == b {
                value
            } else {
                spec_bit(st.pages, DATA_OFFSET as nat, DATA_SIZE as nat, n)
            },
        spec_bit(st.pages, DATA_OFFSET as nat, DATA_SIZE as nat, b) == value ==> spec_set(
            st,
            b,
            value,
        ) == st && !spec_set_changes(st, b, value),
{
    let s1 = spec_after_data(st, b, value);
    let s2 = spec_after_tree(st, b, value);
    let s3 = spec_after_index(s2, b);
    lemma_put_bit_bounded(st, DATA_OFFSET as nat, DATA_SIZE as nat, b, value);
    lemma_bounded_low(s1.pages, TREE_OFFSET as nat, TREE_SIZE as nat);
    assert forall|n: nat|
        spec_bit(spec_set(st, b, value).pages, DATA_OFFSET as nat, DATA_SIZE as nat, n) == if n
            == b {
            value
        } else {
            spec_bit(st.pages, DATA_OFFSET as nat, DATA_SIZE as nat, n)
        } by {
        lemma_set_bit(st.pages, DATA_OFFSET as nat, DATA_SIZE as nat, b, value, n);
        lemma_set_node_apart(
            s1,
            TREE_OFFSET as nat,
            TREE_SIZE as nat,
            2 * b,
            value,
            DATA_OFFSET as nat,
            DATA_SIZE as nat,
            n / 8,
        );
        lemma_set_node_whole(s1, TREE_OFFSET as nat, TREE_SIZE as nat, 2 * b, value);
        lemma_set_byte(
            s2.pages,
            INDEX_OFFSET as nat,
            INDEX_SIZE as nat,
            (b / 8) / 4,
            spec_index_byte(s2.pages, b / 8),
            DATA_OFFSET as nat,
            DATA_SIZE as nat,
            n / 8,
        );
    }
}

/// Setting a node of the tree keeps the pages whole.
pub proof fn lemma_set_node_whole(st: PagerState, offset: nat, size: nat, node: nat, value: bool)
    requires
        spec_full_pages(st.pages),
        spec_window(offset, size),
        spec_low(st.pages, offset, size),
        node < MAX_NODES,
    ensures
        spec_full_pages(spec_set_node(st, offset, size, node, value).pages),
{
    if spec_bit(st.pages, offset, size, node) != value {
        lemma_put_bit_low(st, offset, size, node, value);
        lemma_walk_up_whole(
            spec_put_bit(st, offset, size, node, value),
            offset,
            size,
            node,
            crate::flat::spec_depth(node),
        );
    }
}

/// The walk up keeps the pages whole.
pub proof fn lemma_walk_up_whole(st: PagerState, offset: nat, size: nat, current: nat, depth: nat)
    requires
        spec_full_pages(st.pages),
        spec_window(offset, size),
        spec_low(st.pages, offset, size),
        current < MAX_NODES,
        depth == crate::flat::spec_depth(current),
    ensures
        spec_full_pages(crate::tree::spec_walk_up(st, offset, size, current, depth).pages),
    decreases 62 - depth,
{
    if depth < 62 && spec_bit(st.pages, offset, size, crate::flat::spec_sibling(current)) {
        let parent = crate::flat::spec_parent_with_depth(current, depth);
        if !spec_bit(st.pages, offset, size, parent) {
            crate::tree::lemma_step_low(st.pages, offset, size, current);
            lemma_put_bit_low(st, offset, size, parent, true);
            lemma_walk_up_whole(
                spec_put_bit(st, offset, size, parent, true),
                offset,
                size,
                parent,
                depth + 1,
            );
        }
    }
}

/// Where exactly the first `blocks` bits are set, a stretch from the start
/// holds as many set bits as it has, up to `blocks`.
pub proof fn lemma_count_prefix(pages: Map<u64, Seq<u8>>, blocks: nat, to: nat)
    requires
        forall|b: nat|
            #[trigger] spec_bit(pages, DATA_OFFSET as nat, DATA_SIZE as nat, b) <==> b < blocks,
    ensures
        spec_count(pages, 0, to) == if to <= blocks {
            to
        } else {
            blocks
        },
    decreases to,
{
    if to > 0 {
        lemma_count_prefix(pages, blocks, (to - 1) as nat);
    }
}

/// After the summary was brought up to date for the byte of block `b`, the
/// pair of that byte sums the byte up, and the block bits are as they were.
pub proof fn lemma_summary(st: PagerState, b: nat, k: nat)
    requires
        spec_full_pages(st.pages),
        b <= u64::MAX,
    ensures
        spec_summary_at(spec_after_index(st, b).pages, b / 8) == spec_summary(
            spec_byte(st.pages, DATA_OFFSET as nat, DATA_SIZE as nat, b / 8),
        ),
        spec_byte(spec_after_index(st, b).pages, DATA_OFFSET as nat, DATA_SIZE as nat, k)
            == spec_byte(st.pages, DATA_OFFSET as nat, DATA_SIZE as nat, k),
{
    let at = (b / 8) / 4;
    let old_byte = spec_byte(st.pages, INDEX_OFFSET as nat, INDEX_SIZE as nat, at);
    let pair = spec_summary(spec_byte(st.pages, DATA_OFFSET as nat, DATA_SIZE as nat, b / 8));
    let o = ((b / 8) % 4) as u8;
    let byte = spec_index_byte(st.pages, b / 8);
    assert(at / 256 <= u64::MAX);
    lemma_set_byte(
        st.pages,
        INDEX_OFFSET as nat,
        INDEX_SIZE as nat,
        at,
        byte,
        INDEX_OFFSET as nat,
        INDEX_SIZE as nat,
        at,
    );
    lemma_set_byte(
        st.pages,
        INDEX_OFFSET as nat,
        INDEX_SIZE as nat,
        at,
        byte,
        DATA_OFFSET as nat,
        DATA_SIZE as nat,
        k,
    );
    lemma_with_pair(old_byte, o, pair, o);
}

/// Every pair of the summary sums its byte of block bits up.
pub open spec fn spec_summed(pages: Map<u64, Seq<u8>>) -> bool {
    forall|k: nat| #[trigger]
        spec_summary_at(pages, k) == spec_summary(
            spec_byte(pages, DATA_OFFSET as nat, DATA_SIZE as nat, k),
        )
}

/// Without pages, every pair of the summary sums its byte up: both are 0.
pub proof fn lemma_summed_empty()
    ensures
        spec_summed(Map::<u64, Seq<u8>>::empty()),
{
    let pages = Map::<u64, Seq<u8>>::empty();
    assert forall|k: nat| #[trigger]
        spec_summary_at(pages, k) == spec_summary(
            spec_byte(pages, DATA_OFFSET as nat, DATA_SIZE as nat, k),
        ) by {
        let o = (k % 4) as u8;
        assert((0u8 >> ((6 - 2 * o) as u8)) & 3 == 0) by (bit_vector)
            requires
                o < 4,
        ;
    }
}

/// `set` keeps the summary up to date: where every pair summed its byte up
/// before, every pair does so afterwards.
pub proof fn lemma_set_summed(st: PagerState, b: nat, value: bool)
    requires
        spec_full_pages(st.pages),
        spec_bounded(st.pages),
        Bitfield::spec_in_range(b),
        spec_summed(st.pages),
    ensures
        spec_summed(spec_set(st, b, value).pages),
{
    if spec_bit(st.pages, DATA_OFFSET as nat, DATA_SIZE as nat, b) != value {
        let s1 = spec_after_data(st, b, value);
        let s2 = spec_after_tree(st, b, value);
        let s3 = spec_after_index(s2, b);
        let at = (b / 8) / 4;
        let o = ((b / 8) % 4) as u8;
        let nb = crate::sparse::spec_with_bit(
            spec_byte(st.pages, DATA_OFFSET as nat, DATA_SIZE as nat, b / 8),
            b,
            value,
        );
        lemma_put_bit_bounded(st, DATA_OFFSET as nat, DATA_SIZE as nat, b, value);
        lemma_bounded_low(s1.pages, TREE_OFFSET as nat, TREE_SIZE as nat);
        lemma_set_node_whole(s1, TREE_OFFSET as nat, TREE_SIZE as nat, 2 * b, value);
        assert forall|k: nat| #[trigger]
            spec_summary_at(s3.pages, k) == spec_summary(
                spec_byte(s3.pages, DATA_OFFSET as nat, DATA_SIZE as nat, k),
            ) by {
            // The block bits: only byte `b / 8` has changed.
            lemma_set_byte(
                st.pages,
                DATA_OFFSET as nat,
                DATA_SIZE as nat,
                b / 8,
                nb,
                DATA_OFFSET as nat,
                DATA_SIZE as nat,
                k,
            );
            lemma_set_node_apart(
                s1,
                TREE_OFFSET as nat,
                TREE_SIZE as nat,
                2 * b,
                value,
                DATA_OFFSET as nat,
                DATA_SIZE as nat,
                k,
            );
            lemma_summary(s2, b, k);
            // The summary: only the pair of byte `b / 8` has changed.
            lemma_set_byte(
                st.pages,
                DATA_OFFSET as nat,
                DATA_SIZE as nat,
                b / 8,
                nb,
                INDEX_OFFSET as nat,
                INDEX_SIZE as nat,
                k / 4,
            );
            lemma_set_node_apart(
                s1,
                TREE_OFFSET as nat,
                TREE_SIZE as nat,
                2 * b,
                value,
                INDEX_OFFSET as nat,
                INDEX_SIZE as nat,
                k / 4,
            );
            lemma_set_byte(
                s2.pages,
                INDEX_OFFSET as nat,
                INDEX_SIZE as nat,
                at,
                spec_index_byte(s2.pages, b / 8),
                INDEX_OFFSET as nat,
                INDEX_SIZE as nat,
                k / 4,
            );
            if k != b / 8 && k / 4 == at {
                lemma_with_pair(
                    spec_byte(s2.pages, INDEX_OFFSET as nat, INDEX_SIZE as nat, at),
                    o,
                    spec_summary(spec_byte(s2.pages, DATA_OFFSET as nat, DATA_SIZE as nat, b / 8)),
                    (k % 4) as u8,
                );
            }
            assert(spec_summary_at(st.pages, k) == spec_summary(
                spec_byte(st.pages, DATA_OFFSET as nat, DATA_SIZE as nat, k),
            ));
        }
    }
}

/// Marking a block keeps the marks of the tree closed: a node whose two
/// children are marked is marked.
pub proof fn lemma_set_closed(st: PagerState, b: nat)
    requires
        spec_full_pages(st.pages),
        spec_bounded(st.pages),
        Bitfield::spec_in_range(b),
        crate::tree::spec_closed(spec_bits(st.pages, TREE_OFFSET as nat, TREE_SIZE as nat)),
    ensures
        crate::tree::spec_closed(
            spec_bits(spec_set(st, b, true).pages, TREE_OFFSET as nat, TREE_SIZE as nat),
        ),
{
    if !spec_bit(st.pages, DATA_OFFSET as nat, DATA_SIZE as nat, b) {
        let s1 = spec_after_data(st, b, true);
        let s2 = spec_after_tree(st, b, true);
        let s3 = spec_after_index(s2, b);
        lemma_put_bit_bounded(st, DATA_OFFSET as nat, DATA_SIZE as nat, b, true);
        lemma_bounded_low(s1.pages, TREE_OFFSET as nat, TREE_SIZE as nat);
        lemma_set_node_whole(s1, TREE_OFFSET as nat, TREE_SIZE as nat, 2 * b, true);
        assert forall|n: nat|
            spec_bit(s1.pages, TREE_OFFSET as nat, TREE_SIZE as nat, n) == spec_bit(
                st.pages,
                TREE_OFFSET as nat,
                TREE_SIZE as nat,
                n,
            ) by {
            lemma_set_bit_apart(
                st.pages,
                DATA_OFFSET as nat,
                DATA_SIZE as nat,
                b,
                true,
                TREE_OFFSET as nat,
                TREE_SIZE as nat,
                n / 8,
            );
        }
        assert(spec_bits(s1.pages, TREE_OFFSET as nat, TREE_SIZE as nat) =~= spec_bits(
            st.pages,
            TREE_OFFSET as nat,
            TREE_SIZE as nat,
        ));
        crate::tree::lemma_set_node_closed(s1, TREE_OFFSET as nat, TREE_SIZE as nat, 2 * b);
        assert forall|n: nat|
            spec_bit(s3.pages, TREE_OFFSET as nat, TREE_SIZE as nat, n) == spec_bit(
                s2.pages,
                TREE_OFFSET as nat,
                TREE_SIZE as nat,
                n,
            ) by {
            lemma_set_byte(
                s2.pages,
                INDEX_OFFSET as nat,
                INDEX_SIZE as nat,
                (b / 8) / 4,
                spec_index_byte(s2.pages, b / 8),
                TREE_OFFSET as nat,
                TREE_SIZE as nat,
                n / 8,
            );
        }
        assert(spec_bits(s3.pages, TREE_OFFSET as nat, TREE_SIZE as nat) =~= spec_bits(
            s2.pages,
            TREE_OFFSET as nat,
            TREE_SIZE as nat,
        ));
    }
}

/// Setting a block twice to the same value: the second call finds the bit
/// set, changes nothing, and returns `false`.
pub proof fn lemma_set_twice(st: PagerState, b: nat, value: bool)
    requires
        spec_full_pages(st.pages),
        spec_bounded(st.pages),
        Bitfield::spec_in_range(b),
    ensures
        spec_set(spec_set(st, b, value), b, value) == spec_set(st, b, value),
        !spec_set_changes(spec_set(st, b, value), b, value),
{
    lemma_set_data(st, b, value);
}

/// The first `n` pages, one after the other, have the length of `n` pages.
pub proof fn lemma_flatten_len(pages: Map<u64, Seq<u8>>, n: nat)
    requires
        spec_full_pages(pages),
        forall|q: u64| q < n ==> #[trigger] pages.contains_key(q),
        n <= u64::MAX,
    ensures
        spec_flatten(pages, n).len() == n * PAGE_SIZE,
    decreases n,
{
    if n > 0 {
        lemma_flatten_len(pages, (n - 1) as nat);
        assert(pages.contains_key((n - 1) as u64));
        assert(n * PAGE_SIZE == (n - 1) * PAGE_SIZE + PAGE_SIZE) by (nonlinear_arith);
    }
}

/// Each of the first `n` pages lies at its place among them.
pub proof fn lemma_flatten_prefix(pages: Map<u64, Seq<u8>>, n: nat, p: nat)
    requires
        spec_full_pages(pages),
        forall|q: u64| q < n ==> #[trigger] pages.contains_key(q),
        n <= u64::MAX,
        p < n,
    ensures
        spec_flatten(pages, n).subrange((p * PAGE_SIZE) as int, (p * PAGE_SIZE + PAGE_SIZE) as int)
            == pages[p as u64],
    decreases n,
{
    let last = pages[(n - 1) as u64];
    assert(pages.contains_key((n - 1) as u64));
    let head = spec_flatten(pages, (n - 1) as nat);
    lemma_flatten_len(pages, (n - 1) as nat);
    if p == n - 1 {
        assert((head + last).subrange((p * PAGE_SIZE) as int, (p * PAGE_SIZE + PAGE_SIZE) as int)
            =~= last);
    } else {
        lemma_flatten_prefix(pages, (n - 1) as nat, p);
        assert(p * PAGE_SIZE + PAGE_SIZE <= (n - 1) * PAGE_SIZE) by (nonlinear_arith)
            requires
                p + 1 <= n - 1,
        ;
        assert((head + last).subrange((p * PAGE_SIZE) as int, (p * PAGE_SIZE + PAGE_SIZE) as int)
            =~= head.subrange((p * PAGE_SIZE) as int, (p * PAGE_SIZE + PAGE_SIZE) as int));
    }
}

/// Flattening the pages and reading them back gives the same pages: the
/// bitfield that `from_buffer` makes of what `to_vec` gave answers every `get`
/// as the first did.
pub proof fn lemma_to_vec_from_buffer(pages: Map<u64, Seq<u8>>, n: nat)
    requires
        spec_full_pages(pages),
        spec_dense(pages, n),
        n <= u64::MAX,
    ensures
        spec_pages_of(spec_flatten(pages, n)) == pages,
        forall|b: nat|
            spec_bit(spec_pages_of(spec_flatten(pages, n)), DATA_OFFSET as nat, DATA_SIZE as nat, b)
                == spec_bit(pages, DATA_OFFSET as nat, DATA_SIZE as nat, b),
{
    let flat = spec_flatten(pages, n);
    let back = spec_pages_of(flat);
    assert forall|q: u64| q < n implies #[trigger] pages.contains_key(q) by {}
    lemma_flatten_len(pages, n);
    assert forall|p: u64| back.contains_key(p) == pages.contains_key(p) by {
        if p < n {
            assert(p * PAGE_SIZE < n * PAGE_SIZE) by (nonlinear_arith)
                requires
                    p < n,
            ;
        } else {
            assert(p * PAGE_SIZE >= n * PAGE_SIZE) by (nonlinear_arith)
                requires
                    p >= n,
            ;
        }
    }
    assert forall|p: u64| back.contains_key(p) implies back[p] == pages[p] by {
        lemma_flatten_prefix(pages, n, p as nat);
        assert(p * PAGE_SIZE + PAGE_SIZE <= n * PAGE_SIZE) by (nonlinear_arith)
            requires
                p + 1 <= n,
        ;
        assert(spec_zeros(0) =~= Seq::<u8>::empty());
        assert(spec_chunk(flat, p as nat) =~= pages[p]);
    }
    assert(back =~= pages);
}

/// `set` queues the pages that it changes.
pub proof fn lemma_set_queued(st: PagerState, b: nat, value: bool)
    requires
        spec_full_pages(st.pages),
        spec_bounded(st.pages),
        Bitfield::spec_in_range(b),
    ensures
        crate::tree::spec_queued(st, spec_set(st, b, value)),
{
    let s1 = spec_after_data(st, b, value);
    let s2 = spec_after_tree(st, b, value);
    let s3 = spec_after_index(s2, b);
    lemma_put_bit_bounded(st, DATA_OFFSET as nat, DATA_SIZE as nat, b, value);
    crate::tree::lemma_put_bit_queued(st, DATA_OFFSET as nat, DATA_SIZE as nat, b, value);
    lemma_bounded_low(s1.pages, TREE_OFFSET as nat, TREE_SIZE as nat);
    crate::tree::lemma_set_node_queued(s1, TREE_OFFSET as nat, TREE_SIZE as nat, 2 * b, value);
    lemma_set_node_whole(s1, TREE_OFFSET as nat, TREE_SIZE as nat, 2 * b, value);
    crate::tree::lemma_queued_on(st, s1, s2);
    crate::tree::lemma_put_byte_queued(
        s2,
        INDEX_OFFSET as nat,
        INDEX_SIZE as nat,
        (b / 8) / 4,
        spec_index_byte(s2.pages, b / 8),
    );
    crate::tree::lemma_queued_on(st, s2, s3);
}

/// What holds of the pages when the first `b` blocks were set, one after the
/// other, and no other: those blocks are present, the nodes over them are
/// marked in the tree, and the pages are those that hold a block.
pub open spec fn spec_filled(pages: Map<u64, Seq<u8>>, b: nat) -> bool {
    &&& spec_full_pages(pages)
    &&& forall|n: nat| #[trigger] spec_bit(pages, DATA_OFFSET as nat, DATA_SIZE as nat, n) <==> n < b
    &&& forall|n: nat| #[trigger]
        spec_bit(pages, TREE_OFFSET as nat, TREE_SIZE as nat, n) <==> spec_complete(n, b)
    &&& forall|p: u64| #[trigger] pages.contains_key(p) <==> p * 8192 < b
}

/// The node is complete with block `b` and not before.
pub open spec fn spec_newly(n: nat, b: nat) -> bool {
    spec_complete(n, b + 1) && !spec_complete(n, b)
}

/// Where the walk up stands after block `b` was set: the nodes complete
/// before are marked, and of those that block `b` completes the ones up to
/// depth `j`.
pub open spec fn spec_filling(pages: Map<u64, Seq<u8>>, b: nat, j: nat) -> bool {
    &&& spec_full_pages(pages)
    &&& forall|n: nat| #[trigger]
        spec_bit(pages, TREE_OFFSET as nat, TREE_SIZE as nat, n) <==> spec_complete(n, b) || (
        spec_newly(n, b) && spec_depth(n) <= j)
    &&& forall|p: u64| #[trigger] pages.contains_key(p) <==> p * 8192 < b + 1
}

/// Setting a bit of a node up to the leaf of block `b` makes no page, where
/// the pages that hold the blocks up to `b` are there.
proof fn lemma_put_node_pages(st: PagerState, b: nat, n: nat)
    requires
        spec_full_pages(st.pages),
        forall|p: u64| #[trigger] st.pages.contains_key(p) <==> p * 8192 < b + 1,
        n <= 2 * b,
        b < 8 * 1024 * MAX_PAGES,
    ensures
        forall|p: u64| #[trigger]
            spec_put_bit(st, TREE_OFFSET as nat, TREE_SIZE as nat, n, true).pages.contains_key(p)
                <==> p * 8192 < b + 1,
        spec_full_pages(spec_put_bit(st, TREE_OFFSET as nat, TREE_SIZE as nat, n, true).pages),
        forall|m: nat| #[trigger]
            spec_bit(
                spec_put_bit(st, TREE_OFFSET as nat, TREE_SIZE as nat, n, true).pages,
                TREE_OFFSET as nat,
                TREE_SIZE as nat,
                m,
            ) == if m == n {
                true
            } else {
                spec_bit(st.pages, TREE_OFFSET as nat, TREE_SIZE as nat, m)
            },
        forall|k: nat| #[trigger]
            spec_byte(
                spec_put_bit(st, TREE_OFFSET as nat, TREE_SIZE as nat, n, true).pages,
                DATA_OFFSET as nat,
                DATA_SIZE as nat,
                k,
            ) == spec_byte(st.pages, DATA_OFFSET as nat, DATA_SIZE as nat, k),
{
    let new = spec_put_bit(st, TREE_OFFSET as nat, TREE_SIZE as nat, n, true).pages;
    let byte = spec_byte(st.pages, TREE_OFFSET as nat, TREE_SIZE as nat, n / 8);
    let page = (n / 8) / 2048;
    assert(page * 8192 < b + 1) by (nonlinear_arith)
        requires
            page == (n / 8) / 2048,
            n <= 2 * b,
    ;
    assert(page <= u64::MAX);
    assert(st.pages.contains_key(page as u64));
    lemma_set_byte(
        st.pages,
        TREE_OFFSET as nat,
        TREE_SIZE as nat,
        n / 8,
        crate::sparse::spec_with_bit(byte, n, true),
        TREE_OFFSET as nat,
        TREE_SIZE as nat,
        n / 8,
    );
    assert forall|p: u64| #[trigger] new.contains_key(p) <==> p * 8192 < b + 1 by {
        if new.contains_key(p) && !st.pages.contains_key(p) {
            assert(p == spec_page_of(TREE_SIZE as nat, n / 8));
        }
    }
    assert forall|m: nat| #[trigger]
        spec_bit(new, TREE_OFFSET as nat, TREE_SIZE as nat, m) == if m == n {
            true
        } else {
            spec_bit(st.pages, TREE_OFFSET as nat, TREE_SIZE as nat, m)
        } by {
        lemma_set_bit(st.pages, TREE_OFFSET as nat, TREE_SIZE as nat, n, true, m);
    }
    assert forall|k: nat| #[trigger]
        spec_byte(new, DATA_OFFSET as nat, DATA_SIZE as nat, k) == spec_byte(
            st.pages,
            DATA_OFFSET as nat,
            DATA_SIZE as nat,
            k,
        ) by {
        lemma_set_bit_apart(
            st.pages,
            TREE_OFFSET as nat,
            TREE_SIZE as nat,
            n,
            true,
            DATA_OFFSET as nat,
            DATA_SIZE as nat,
            k,
        );
    }
}

/// The walk up from a node that block `b` completes marks the nodes that
/// block `b` completes, and leaves the block bits and the pages.
pub proof fn lemma_walk_filled(st: PagerState, b: nat, j: nat, o: nat)
    requires
        spec_filling(st.pages, b, j),
        (o + 1) * pow2(j) == b + 1,
        b < 8 * 1024 * MAX_PAGES,
    ensures
        spec_full_pages(spec_walked(st, j, o).pages),
        forall|n: nat| #[trigger]
            spec_bit(spec_walked(st, j, o).pages, TREE_OFFSET as nat, TREE_SIZE as nat, n)
                <==> spec_complete(n, b + 1),
        forall|p: u64| #[trigger] spec_walked(st, j, o).pages.contains_key(p) <==> p * 8192 < b + 1,
        forall|k: nat| #[trigger]
            spec_byte(spec_walked(st, j, o).pages, DATA_OFFSET as nat, DATA_SIZE as nat, k)
                == spec_byte(st.pages, DATA_OFFSET as nat, DATA_SIZE as nat, k),
    decreases 62 - j,
{
    let c = spec_index(j, o);
    let p = pow2(j);
    lemma_pow2_pos(j);
    lemma_pow2_unfold(j + 1);
    lemma2_to64_rest();
    crate::flat::lemma_depth_offset_of_index(j, o);
    crate::flat::lemma_parent_between(c);
    crate::flat::lemma_parent(c);
    crate::flat::lemma_sibling(c);
    // The logarithm of the blocks bounds the depth.
    assert(p <= b + 1) by (nonlinear_arith)
        requires
            (o + 1) * p == b + 1,
            p > 0,
    ;
    if j >= 60 {
        if j > 60 {
            lemma_pow2_strictly_increases(60, j);
        }
        assert(false);
    }
    let sib = spec_sibling(c);
    crate::flat::lemma_complete_index(j, spec_flip(o), b);
    crate::flat::lemma_complete_index(j, spec_flip(o), b + 1);
    crate::flat::lemma_depth_offset_of_index(j, spec_flip(o));
    assert(sib == spec_index(j, spec_flip(o)));
    if o % 2 == 1 {
        // A right child: the sibling was complete before, the parent is
        // completed now and not yet marked.
        assert((spec_flip(o) + 1) * p <= b) by (nonlinear_arith)
            requires
                (o + 1) * p == b + 1,
                spec_flip(o) == o - 1,
                p > 0,
        ;
        assert(spec_bit(st.pages, TREE_OFFSET as nat, TREE_SIZE as nat, sib));
        let up = spec_parent_with_depth(c, j);
        assert(up == spec_index(j + 1, o / 2));
        crate::flat::lemma_depth_offset_of_index(j + 1, o / 2);
        crate::flat::lemma_complete_index(j + 1, o / 2, b);
        crate::flat::lemma_complete_index(j + 1, o / 2, b + 1);
        assert((o / 2 + 1) * pow2(j + 1) == b + 1) by (nonlinear_arith)
            requires
                (o + 1) * p == b + 1,
                pow2(j + 1) == 2 * p,
                o == 2 * (o / 2) + 1,
        ;
        assert(!spec_bit(st.pages, TREE_OFFSET as nat, TREE_SIZE as nat, up));
        assert(up + 2 <= 2 * (b + 1)) by {
            crate::merkle::lemma_newly(j + 1, o / 2, b + 1);
        }
        lemma_put_node_pages(st, b, up);
        let next = spec_put_bit(st, TREE_OFFSET as nat, TREE_SIZE as nat, up, true);
        assert forall|n: nat| #[trigger]
            spec_bit(next.pages, TREE_OFFSET as nat, TREE_SIZE as nat, n) <==> spec_complete(n, b)
                || (spec_newly(n, b) && spec_depth(n) <= j + 1) by {
            if spec_newly(n, b) && spec_depth(n) == j + 1 {
                crate::merkle::lemma_newly_complete(b, n);
                vstd::arithmetic::div_mod::lemma_div_denominator(b as int, p as int, 2);
                assert(p * 2 == pow2(j + 1));
                assert(b == o * p + (p - 1)) by (nonlinear_arith)
                    requires
                        (o + 1) * p == b + 1,
                ;
                vstd::arithmetic::div_mod::lemma_fundamental_div_mod_converse_div(
                    b as int,
                    p as int,
                    o as int,
                    (p - 1) as int,
                );
                assert(n == up);
            }
        }
        lemma_walk_filled(next, b, j + 1, o / 2);
        assert(spec_walked(st, j, o) == spec_walked(next, j + 1, o / 2));
        assert forall|k: nat| #[trigger]
            spec_byte(spec_walked(st, j, o).pages, DATA_OFFSET as nat, DATA_SIZE as nat, k)
                == spec_byte(st.pages, DATA_OFFSET as nat, DATA_SIZE as nat, k) by {
            assert(spec_byte(next.pages, DATA_OFFSET as nat, DATA_SIZE as nat, k) == spec_byte(
                st.pages,
                DATA_OFFSET as nat,
                DATA_SIZE as nat,
                k,
            ));
        }
    } else {
        // A left child: the sibling lies beyond the blocks, and the walk ends.
        assert((spec_flip(o) + 1) * p > b + 1) by (nonlinear_arith)
            requires
                (o + 1) * p == b + 1,
                spec_flip(o) == o + 1,
                p > 0,
        ;
        assert(!spec_bit(st.pages, TREE_OFFSET as nat, TREE_SIZE as nat, sib));
        assert(spec_walked(st, j, o) == st);
        crate::flat::lemma_depth_offset_of_index(j, o / 2);
        assert((2 * (o / 2) + 1) * p == b + 1);
        assert(spec_index(j, o / 2) == b);
        assert(spec_depth(b) == j);
        assert forall|n: nat| #[trigger]
            spec_bit(st.pages, TREE_OFFSET as nat, TREE_SIZE as nat, n) <==> spec_complete(
                n,
                b + 1,
            ) by {
            if spec_newly(n, b) {
                crate::merkle::lemma_newly_complete(b, n);
            }
        }
    }
}

/// The pager after the walk up from the node at depth `j` and offset `o`.
pub open spec fn spec_walked(st: PagerState, j: nat, o: nat) -> PagerState {
    crate::tree::spec_walk_up(st, TREE_OFFSET as nat, TREE_SIZE as nat, spec_index(j, o), j)
}

/// Setting the next block keeps the bitfield filled: where exactly the first
/// `b` blocks were set, one after the other, exactly the first `b + 1` are
/// after block `b` was set.
pub proof fn lemma_set_filled(st: PagerState, b: nat)
    requires
        spec_filled(st.pages, b),
        b < 8 * 1024 * MAX_PAGES,
    ensures
        spec_filled(spec_set(st, b, true).pages, b + 1),
{
    lemma2_to64();
    let s1 = spec_after_data(st, b, true);
    // The block bit.
    lemma_set_byte(
        st.pages,
        DATA_OFFSET as nat,
        DATA_SIZE as nat,
        b / 8,
        crate::sparse::spec_with_bit(
            spec_byte(st.pages, DATA_OFFSET as nat, DATA_SIZE as nat, b / 8),
            b,
            true,
        ),
        DATA_OFFSET as nat,
        DATA_SIZE as nat,
        b / 8,
    );
    lemma_set_bit(st.pages, DATA_OFFSET as nat, DATA_SIZE as nat, b, true, b);
    assert(s1.pages != st.pages);
    assert(spec_page_of(DATA_SIZE as nat, b / 8) == (b / 8192) as u64);
    assert forall|p: u64| #[trigger] s1.pages.contains_key(p) <==> p * 8192 < b + 1 by {
        if p == (b / 8192) as u64 {
            assert(s1.pages.contains_key(p));
        }
    }
    assert forall|n: nat| #[trigger]
        spec_bit(s1.pages, TREE_OFFSET as nat, TREE_SIZE as nat, n) <==> spec_complete(n, b) by {
        lemma_set_bit_apart(
            st.pages,
            DATA_OFFSET as nat,
            DATA_SIZE as nat,
            b,
            true,
            TREE_OFFSET as nat,
            TREE_SIZE as nat,
            n / 8,
        );
        assert(spec_bit(s1.pages, TREE_OFFSET as nat, TREE_SIZE as nat, n) == spec_bit(
            st.pages,
            TREE_OFFSET as nat,
            TREE_SIZE as nat,
            n,
        ));
    }
    assert forall|n: nat| #[trigger]
        spec_bit(s1.pages, DATA_OFFSET as nat, DATA_SIZE as nat, n) <==> n < b + 1 by {
        lemma_set_bit(st.pages, DATA_OFFSET as nat, DATA_SIZE as nat, b, true, n);
    }
    // The leaf, and the walk up from it.
    let leaf = 2 * b;
    crate::flat::lemma_depth_offset_of_index(0, b);
    crate::flat::lemma_index_step(0, b);
    crate::flat::lemma_complete_index(0, b, b);
    crate::flat::lemma_complete_index(0, b, b + 1);
    assert((b + 1) * pow2(0) == b + 1);
    assert(!spec_bit(s1.pages, TREE_OFFSET as nat, TREE_SIZE as nat, leaf));
    lemma_put_node_pages(s1, b, leaf);
    let s1b = spec_put_bit(s1, TREE_OFFSET as nat, TREE_SIZE as nat, leaf, true);
    assert forall|n: nat| #[trigger]
        spec_bit(s1b.pages, TREE_OFFSET as nat, TREE_SIZE as nat, n) <==> spec_complete(n, b) || (
        spec_newly(n, b) && spec_depth(n) <= 0) by {
        if spec_newly(n, b) && spec_depth(n) == 0 {
            crate::merkle::lemma_newly_complete(b, n);
            assert(b / 1 == b);
        }
    }
    lemma_walk_filled(s1b, b, 0, b);
    let s2 = spec_after_tree(st, b, true);
    assert(s2 == spec_walked(s1b, 0, b));
    // The summary.
    let s3 = spec_after_index(s2, b);
    assert(spec_set(st, b, true) == s3);
    let at = (b / 8) / 4;
    assert(spec_page_of(INDEX_SIZE as nat, at) == (b / 8192) as u64);
    lemma_set_byte(
        s2.pages,
        INDEX_OFFSET as nat,
        INDEX_SIZE as nat,
        at,
        spec_index_byte(s2.pages, b / 8),
        INDEX_OFFSET as nat,
        INDEX_SIZE as nat,
        at,
    );
    assert forall|p: u64| #[trigger] s3.pages.contains_key(p) <==> p * 8192 < b + 1 by {
        if s3.pages.contains_key(p) && !s2.pages.contains_key(p) {
            assert(p == spec_page_of(INDEX_SIZE as nat, at));
        }
    }
    assert forall|n: nat| #[trigger]
        spec_bit(s3.pages, DATA_OFFSET as nat, DATA_SIZE as nat, n) <==> n < b + 1 by {
        lemma_set_byte(
            s2.pages,
            INDEX_OFFSET as nat,
            INDEX_SIZE as nat,
            at,
            spec_index_byte(s2.pages, b / 8),
            DATA_OFFSET as nat,
            DATA_SIZE as nat,
            n / 8,
        );
        assert(spec_byte(s2.pages, DATA_OFFSET as nat, DATA_SIZE as nat, n / 8) == spec_byte(
            s1b.pages,
            DATA_OFFSET as nat,
            DATA_SIZE as nat,
            n / 8,
        ));
        assert(spec_byte(s1b.pages, DATA_OFFSET as nat, DATA_SIZE as nat, n / 8) == spec_byte(
            s1.pages,
            DATA_OFFSET as nat,
            DATA_SIZE as nat,
            n / 8,
        ));
        assert(spec_bit(s3.pages, DATA_OFFSET as nat, DATA_SIZE as nat, n) == spec_bit(
            s1.pages,
            DATA_OFFSET as nat,
            DATA_SIZE as nat,
            n,
        ));
    }
    assert forall|n: nat| #[trigger]
        spec_bit(s3.pages, TREE_OFFSET as nat, TREE_SIZE as nat, n) <==> spec_complete(n, b + 1) by {
        lemma_set_byte(
            s2.pages,
            INDEX_OFFSET as nat,
            INDEX_SIZE as nat,
            at,
            spec_index_byte(s2.pages, b / 8),
            TREE_OFFSET as nat,
            TREE_SIZE as nat,
            n / 8,
        );
        assert(spec_bit(s3.pages, TREE_OFFSET as nat, TREE_SIZE as nat, n) == spec_bit(
            s2.pages,
            TREE_OFFSET as nat,
            TREE_SIZE as nat,
            n,
        ));
    }
}

} // verus!
