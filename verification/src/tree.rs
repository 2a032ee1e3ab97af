//! Which nodes of the Merkle tree are verified: a window of bits, one to a
//! node of the flat tree, and what follows from them.

use vstd::prelude::*;
use vstd::arithmetic::power2::{pow2, lemma_pow2_pos, lemma_pow2_unfold, lemma2_to64, lemma2_to64_rest, lemma_pow2_strictly_increases};
use crate::flat::{spec_complete, spec_log2, lemma_log2, lemma_complete_index, spec_depth, spec_index, spec_offset, spec_offset_with_depth, spec_parent, spec_parent_with_depth, spec_sibling, spec_left_span, spec_right_span, spec_right_span_fits, spec_full_roots, spec_nats, lemma_depth_bound, lemma_parent, lemma_sibling, lemma_parent_between, lemma_parent_spans, lemma_index_step, lemma_children, lemma_spans, lemma_index_of_depth_offset, lemma_depth_offset_of_index};
use crate::pager::{Pager, PagerState, PAGE_SIZE, lemma_bounded_len};
use crate::sparse::{SparseBitfield, spec_window, spec_bit, spec_byte, spec_full_pages, spec_page_of, spec_put_bit, spec_with_bit, get_in, set_in, lemma_set_bit, lemma_set_byte, lemma_with_bit};

verus! {

/// The most pages that a bitfield may hold: beyond it the indices of the
/// tree would leave the range in which their arithmetic is exact.
pub const MAX_PAGES: u64 = 0x100_0000_0000;

/// Every bit of a bitfield of at most `MAX_PAGES` pages has an index below
/// this.
pub const MAX_NODES: u64 = 0x80_0000_0000_0000;

/// No page has a number of `MAX_PAGES` or more.
pub open spec fn spec_bounded(pages: Map<u64, Seq<u8>>) -> bool {
    forall|p: u64| #[trigger] pages.contains_key(p) ==> p < MAX_PAGES
}

/// The bits of a window that are set.
pub open spec fn spec_bits(pages: Map<u64, Seq<u8>>, offset: nat, size: nat) -> Set<nat> {
    Set::new(|n: nat| spec_bit(pages, offset, size, n))
}

/// Bit `n` of the window lies in a page that the bound admits.
pub open spec fn spec_in_bounds(size: nat, n: nat) -> bool {
    (n / 8) / size < MAX_PAGES
}

/// A bit in bounds has an index below `MAX_NODES`, and so a depth of at
/// most 55.
pub proof fn lemma_in_bounds(size: nat, n: nat)
    requires
        0 < size <= PAGE_SIZE,
        spec_in_bounds(size, n),
    ensures
        n < MAX_NODES,
        spec_depth(n) <= 55,
{
    let k = n / 8;
    assert(k < MAX_PAGES * size) by (nonlinear_arith)
        requires
            k / size < MAX_PAGES,
            size > 0,
    ;
    assert(MAX_PAGES * size <= MAX_PAGES * 3328) by (nonlinear_arith)
        requires
            size <= 3328,
    ;
    lemma2_to64_rest();
    lemma_depth_bound(n, 56);
}

/// A bit that is set lies in a page that is present.
pub proof fn lemma_set_bit_in_bounds(pages: Map<u64, Seq<u8>>, offset: nat, size: nat, n: nat)
    requires
        spec_bounded(pages),
        spec_window(offset, size),
        spec_bit(pages, offset, size, n),
    ensures
        spec_in_bounds(size, n),
        n < MAX_NODES,
        spec_depth(n) <= 55,
{
    lemma_with_bit(0, n, true, n);
    let k = n / 8;
    assert(spec_byte(pages, offset, size, k) != 0);
    assert(pages.contains_key(spec_page_of(size, k)));
    lemma_in_bounds(size, n);
}

/// Setting a bit in bounds keeps the pages whole and within the bound.
pub proof fn lemma_put_bit_bounded(st: PagerState, offset: nat, size: nat, n: nat, value: bool)
    requires
        spec_full_pages(st.pages),
        spec_bounded(st.pages),
        spec_window(offset, size),
        spec_in_bounds(size, n),
    ensures
        spec_full_pages(spec_put_bit(st, offset, size, n, value).pages),
        spec_bounded(spec_put_bit(st, offset, size, n, value).pages),
{
    let byte = spec_byte(st.pages, offset, size, n / 8);
    lemma_set_byte(
        st.pages,
        offset,
        size,
        n / 8,
        spec_with_bit(byte, n, value),
        offset,
        size,
        n / 8,
    );
    let new = spec_put_bit(st, offset, size, n, value).pages;
    assert forall|p: u64| #[trigger] new.contains_key(p) implies p < MAX_PAGES by {
        if !st.pages.contains_key(p) {
            assert(p == spec_page_of(size, n / 8));
        }
    }
}

/// What a pager holds after the walk up from `current`, a node of `depth`
/// that was just marked: as long as the sibling is marked too, the parent is
/// marked, and the walk ends at a parent that was marked before.
pub open spec fn spec_walk_up(st: PagerState, offset: nat, size: nat, current: nat, depth: nat) -> PagerState
    decreases 62 - depth,
{
    if depth < 62 && spec_bit(st.pages, offset, size, spec_sibling(current)) {
        let parent = spec_parent_with_depth(current, depth);
        if spec_bit(st.pages, offset, size, parent) {
            st
        } else {
            spec_walk_up(spec_put_bit(st, offset, size, parent, true), offset, size, parent, depth + 1)
        }
    } else {
        st
    }
}

/// What a pager holds after bit `node` of the tree was set to `value`:
/// nothing changes where the bit had that value; otherwise the walk up from
/// `node` follows.
pub open spec fn spec_set_node(st: PagerState, offset: nat, size: nat, node: nat, value: bool) -> PagerState {
    if spec_bit(st.pages, offset, size, node) == value {
        st
    } else {
        spec_walk_up(spec_put_bit(st, offset, size, node, value), offset, size, node, spec_depth(node))
    }
}

/// Every bit of the window that is set has an index below `MAX_NODES`.
pub open spec fn spec_low(pages: Map<u64, Seq<u8>>, offset: nat, size: nat) -> bool {
    forall|n: nat| #[trigger] spec_bit(pages, offset, size, n) ==> n < MAX_NODES
}

/// Within the bound on the pages, every bit that is set is low.
pub proof fn lemma_bounded_low(pages: Map<u64, Seq<u8>>, offset: nat, size: nat)
    requires
        spec_bounded(pages),
        spec_window(offset, size),
    ensures
        spec_low(pages, offset, size),
{
    assert forall|n: nat| #[trigger] spec_bit(pages, offset, size, n) implies n < MAX_NODES by {
        lemma_set_bit_in_bounds(pages, offset, size, n);
    }
}

/// Setting a low bit keeps the bits low.
pub proof fn lemma_put_bit_low(st: PagerState, offset: nat, size: nat, n: nat, value: bool)
    requires
        spec_full_pages(st.pages),
        spec_window(offset, size),
        spec_low(st.pages, offset, size),
        n < MAX_NODES,
    ensures
        spec_full_pages(spec_put_bit(st, offset, size, n, value).pages),
        spec_low(spec_put_bit(st, offset, size, n, value).pages, offset, size),
        spec_depth(n) <= 55,
{
    let new = spec_put_bit(st, offset, size, n, value).pages;
    lemma_set_bit(st.pages, offset, size, n, value, n);
    assert forall|m: nat| #[trigger] spec_bit(new, offset, size, m) implies m < MAX_NODES by {
        lemma_set_bit(st.pages, offset, size, n, value, m);
    }
    lemma2_to64_rest();
    lemma_depth_bound(n, 56);
}

/// The parent of a low node whose sibling is marked is low: it lies between
/// the two. Where both lie in pages that the bound admits, so does the parent.
pub proof fn lemma_step_low(pages: Map<u64, Seq<u8>>, offset: nat, size: nat, current: nat)
    requires
        spec_low(pages, offset, size),
        spec_window(offset, size),
        current < MAX_NODES,
        spec_bit(pages, offset, size, spec_sibling(current)),
    ensures
        spec_parent(current) < MAX_NODES,
        spec_depth(current) <= 54,
        spec_depth(spec_parent(current)) == spec_depth(current) + 1,
        spec_bounded(pages) && spec_in_bounds(size, current) ==> spec_in_bounds(
            size,
            spec_parent(current),
        ),
{
    let sib = spec_sibling(current);
    let par = spec_parent(current);
    lemma_parent_between(current);
    lemma_parent(current);
    let hi = if current < sib {
        sib
    } else {
        current
    };
    assert(par <= hi);
    lemma2_to64_rest();
    lemma_depth_bound(par, 56);
    if spec_bounded(pages) && spec_in_bounds(size, current) {
        lemma_set_bit_in_bounds(pages, offset, size, sib);
        assert((par / 8) / size <= (hi / 8) / size) by (nonlinear_arith)
            requires
                par <= hi,
                size > 0,
        ;
    }
}

/// The walk up leaves the bytes of a window apart from the tree's.
pub proof fn lemma_walk_up_apart(
    st: PagerState,
    offset: nat,
    size: nat,
    current: nat,
    depth: nat,
    offset2: nat,
    size2: nat,
    k2: nat,
)
    requires
        spec_full_pages(st.pages),
        spec_window(offset, size),
        spec_window(offset2, size2),
        crate::sparse::spec_apart(offset, size, offset2, size2),
        spec_low(st.pages, offset, size),
        current < MAX_NODES,
        depth == spec_depth(current),
    ensures
        spec_byte(spec_walk_up(st, offset, size, current, depth).pages, offset2, size2, k2)
            == spec_byte(st.pages, offset2, size2, k2),
    decreases 62 - depth,
{
    if depth < 62 && spec_bit(st.pages, offset, size, spec_sibling(current)) {
        let parent = spec_parent_with_depth(current, depth);
        if !spec_bit(st.pages, offset, size, parent) {
            lemma_step_low(st.pages, offset, size, current);
            lemma_put_bit_low(st, offset, size, parent, true);
            crate::sparse::lemma_set_bit_apart(
                st.pages,
                offset,
                size,
                parent,
                true,
                offset2,
                size2,
                k2,
            );
            lemma_walk_up_apart(
                spec_put_bit(st, offset, size, parent, true),
                offset,
                size,
                parent,
                depth + 1,
                offset2,
                size2,
                k2,
            );
        }
    }
}

/// Setting a node of the tree leaves the bytes of a window apart from the
/// tree's.
pub proof fn lemma_set_node_apart(
    st: PagerState,
    offset: nat,
    size: nat,
    node: nat,
    value: bool,
    offset2: nat,
    size2: nat,
    k2: nat,
)
    requires
        spec_full_pages(st.pages),
        spec_window(offset, size),
        spec_window(offset2, size2),
        crate::sparse::spec_apart(offset, size, offset2, size2),
        spec_low(st.pages, offset, size),
        node < MAX_NODES,
    ensures
        spec_byte(spec_set_node(st, offset, size, node, value).pages, offset2, size2, k2)
            == spec_byte(st.pages, offset2, size2, k2),
{
    if spec_bit(st.pages, offset, size, node) != value {
        lemma_put_bit_low(st, offset, size, node, value);
        crate::sparse::lemma_set_bit_apart(st.pages, offset, size, node, value, offset2, size2, k2);
        lemma_walk_up_apart(
            spec_put_bit(st, offset, size, node, value),
            offset,
            size,
            node,
            spec_depth(node),
            offset2,
            size2,
            k2,
        );
    }
}

/// Every page that `after` holds and `before` did not hold, or held with
/// other bytes, is in the queue of `after`, and what was in the queue of
/// `before` is still in it.
pub open spec fn spec_queued(before: PagerState, after: PagerState) -> bool {
    &&& forall|p: u64| #[trigger] before.pages.contains_key(p) ==> after.pages.contains_key(p)
    &&& forall|p: u64|
        #[trigger] after.pages.contains_key(p) && (!before.pages.contains_key(p) || after.pages[p]
            != before.pages[p]) ==> after.dirty.contains(p)
    &&& forall|p: u64| before.dirty.contains(p) ==> #[trigger] after.dirty.contains(p)
}

/// Writing a byte queues the page that it changes.
pub proof fn lemma_put_byte_queued(st: PagerState, offset: nat, size: nat, k: nat, value: u8)
    requires
        spec_full_pages(st.pages),
        spec_window(offset, size),
        k / size <= u64::MAX,
    ensures
        spec_queued(st, crate::sparse::spec_put_byte(st, offset, size, k, value)),
{
    let after = crate::sparse::spec_put_byte(st, offset, size, k, value);
    let page = spec_page_of(size, k);
    if spec_byte(st.pages, offset, size, k) != value {
        assert(after.dirty == crate::pager::spec_mark(st.dirty, page));
        if st.dirty.contains(page) {
        } else {
            assert(st.dirty.push(page)[st.dirty.len() as int] == page);
            assert forall|p: u64| st.dirty.contains(p) implies #[trigger] after.dirty.contains(p) by {
                let i = choose|i: int| 0 <= i < st.dirty.len() && st.dirty[i] == p;
                assert(after.dirty[i] == p);
            }
        }
        assert(after.dirty.contains(page));
    }
}

/// Setting a bit queues the page that it changes.
pub proof fn lemma_put_bit_queued(st: PagerState, offset: nat, size: nat, n: nat, value: bool)
    requires
        spec_full_pages(st.pages),
        spec_window(offset, size),
        n <= u64::MAX,
    ensures
        spec_queued(st, spec_put_bit(st, offset, size, n, value)),
{
    assert((n / 8) / size <= u64::MAX) by (nonlinear_arith)
        requires
            n <= u64::MAX,
            size > 0,
    ;
    let byte = spec_byte(st.pages, offset, size, n / 8);
    lemma_put_byte_queued(st, offset, size, n / 8, spec_with_bit(byte, n, value));
    lemma_with_bit(byte, n, value, n);
    assert(spec_put_bit(st, offset, size, n, value) == crate::sparse::spec_put_byte(
        st,
        offset,
        size,
        n / 8,
        spec_with_bit(byte, n, value),
    ));
}

/// What is queued stays queued over a further step.
pub proof fn lemma_queued_on(a: PagerState, b: PagerState, c: PagerState)
    requires
        spec_queued(a, b),
        spec_queued(b, c),
    ensures
        spec_queued(a, c),
{
    assert forall|p: u64|
        #[trigger] c.pages.contains_key(p) && (!a.pages.contains_key(p) || c.pages[p]
            != a.pages[p]) implies c.dirty.contains(p) by {
        if b.pages.contains_key(p) && (!a.pages.contains_key(p) || b.pages[p] != a.pages[p]) {
            assert(b.dirty.contains(p));
        }
    }
}

/// The walk up queues the pages that it changes.
pub proof fn lemma_walk_up_queued(st: PagerState, offset: nat, size: nat, current: nat, depth: nat)
    requires
        spec_full_pages(st.pages),
        spec_window(offset, size),
        spec_low(st.pages, offset, size),
        current < MAX_NODES,
        depth == spec_depth(current),
    ensures
        spec_queued(st, spec_walk_up(st, offset, size, current, depth)),
    decreases 62 - depth,
{
    if depth < 62 && spec_bit(st.pages, offset, size, spec_sibling(current)) {
        let parent = spec_parent_with_depth(current, depth);
        if !spec_bit(st.pages, offset, size, parent) {
            lemma_step_low(st.pages, offset, size, current);
            lemma_put_bit_low(st, offset, size, parent, true);
            lemma_put_bit_queued(st, offset, size, parent, true);
            let next = spec_put_bit(st, offset, size, parent, true);
            lemma_walk_up_queued(next, offset, size, parent, depth + 1);
            lemma_queued_on(st, next, spec_walk_up(next, offset, size, parent, depth + 1));
        }
    }
}

/// Setting a node of the tree queues the pages that it changes.
pub proof fn lemma_set_node_queued(st: PagerState, offset: nat, size: nat, node: nat, value: bool)
    requires
        spec_full_pages(st.pages),
        spec_window(offset, size),
        spec_low(st.pages, offset, size),
        node < MAX_NODES,
    ensures
        spec_queued(st, spec_set_node(st, offset, size, node, value)),
{
    if spec_bit(st.pages, offset, size, node) != value {
        lemma_put_bit_low(st, offset, size, node, value);
        lemma_put_bit_queued(st, offset, size, node, value);
        let next = spec_put_bit(st, offset, size, node, value);
        lemma_walk_up_queued(next, offset, size, node, spec_depth(node));
        lemma_queued_on(st, next, spec_walk_up(next, offset, size, node, spec_depth(node)));
    }
}

/// Sets bit `node` of the tree window to `value` and, where that changed it,
/// marks the ancestors that have both children marked. Says whether the bit
/// changed.
pub fn set_node_in(pager: &mut Pager, offset: usize, size: usize, node: u64, value: bool) -> (changed:
    bool)
    requires
        old(pager).wf(),
        spec_window(offset as nat, size as nat),
        spec_low(old(pager).pages(), offset as nat, size as nat),
        node < MAX_NODES,
    ensures
        final(pager).wf(),
        spec_low(final(pager).pages(), offset as nat, size as nat),
        spec_bounded(old(pager).pages()) && spec_in_bounds(size as nat, node as nat)
            ==> spec_bounded(final(pager).pages()),
        changed == (spec_bit(old(pager).pages(), offset as nat, size as nat, node as nat)
            != value),
        final(pager).state() == spec_set_node(
            old(pager).state(),
            offset as nat,
            size as nat,
            node as nat,
            value,
        ),
{
    let ghost target = spec_set_node(pager.state(), offset as nat, size as nat, node as nat, value);
    let ghost keep = spec_bounded(pager.pages()) && spec_in_bounds(size as nat, node as nat);
    proof {
        lemma_put_bit_low(pager.state(), offset as nat, size as nat, node as nat, value);
        if keep {
            lemma_put_bit_bounded(pager.state(), offset as nat, size as nat, node as nat, value);
        }
        lemma_set_bit(pager.pages(), offset as nat, size as nat, node as nat, value, node as nat);
    }
    if !set_in(pager, offset, size, node, value) {
        return false;
    }
    let mut current = node;
    let mut going = true;
    while going && get_in(pager, offset, size, crate::flat::sibling(current))
        invariant
            pager.wf(),
            spec_window(offset as nat, size as nat),
            spec_low(pager.pages(), offset as nat, size as nat),
            keep ==> spec_bounded(pager.pages()) && spec_in_bounds(size as nat, current as nat),
            current < MAX_NODES,
            spec_depth(current as nat) <= 55,
            going ==> spec_walk_up(
                pager.state(),
                offset as nat,
                size as nat,
                current as nat,
                spec_depth(current as nat),
            ) == target,
            !going ==> pager.state() == target,
        decreases 64 - spec_depth(current as nat) + if going { 1int } else { 0int },
    {
        proof {
            lemma_step_low(pager.pages(), offset as nat, size as nat, current as nat);
            lemma_put_bit_low(
                pager.state(),
                offset as nat,
                size as nat,
                spec_parent(current as nat),
                true,
            );
            if keep {
                lemma_put_bit_bounded(
                    pager.state(),
                    offset as nat,
                    size as nat,
                    spec_parent(current as nat),
                    true,
                );
            }
            lemma_set_bit(
                pager.pages(),
                offset as nat,
                size as nat,
                spec_parent(current as nat),
                true,
                spec_parent(current as nat),
            );
        }
        current = crate::flat::parent(current);
        if !set_in(pager, offset, size, current, true) {
            going = false;
        }
    }
    true
}

/// The node where the climb from `top`, a marked node of `depth`, ends: the
/// climb goes on to the parent as long as the parent and the sibling are marked.
pub open spec fn spec_climb(t: Set<nat>, top: nat, depth: nat) -> nat
    decreases 62 - depth,
{
    if depth < 62 && t.contains(spec_parent_with_depth(top, depth)) && t.contains(
        spec_sibling(top),
    ) {
        spec_climb(t, spec_parent_with_depth(top, depth), depth + 1)
    } else {
        top
    }
}

/// The leaf where the way down to the right of `top`, a node of `depth`,
/// ends. Each step goes to the next node of the same depth and from there to
/// its left child.
pub open spec fn spec_descend(t: Set<nat>, top: nat, depth: nat) -> nat
    decreases depth, 0nat,
{
    if depth == 0 {
        top
    } else {
        spec_sink(
            t,
            spec_index((depth - 1) as nat, 2 * (spec_offset_with_depth(top, depth) + 1)),
            (depth - 1) as nat,
        )
    }
}

/// From `top`, a node of `depth`: down the left children as long as they are
/// not marked, then on to the right.
pub open spec fn spec_sink(t: Set<nat>, top: nat, depth: nat) -> nat
    decreases depth, 1nat,
{
    if !t.contains(top) && depth > 0 {
        spec_sink(
            t,
            spec_index((depth - 1) as nat, 2 * spec_offset_with_depth(top, depth)),
            (depth - 1) as nat,
        )
    } else {
        spec_descend(t, top, depth)
    }
}

/// The end of the verified stretch that holds the marked node `n`: the index
/// of the first leaf after it. `None` where `n` is not marked.
pub open spec fn spec_verified_by(t: Set<nat>, n: nat) -> Option<nat> {
    if !t.contains(n) {
        None
    } else {
        let top = spec_climb(t, n, spec_depth(n));
        let leaf = spec_descend(t, top, spec_depth(top));
        Some(
            if t.contains(leaf) {
                leaf + 2
            } else {
                leaf
            },
        )
    }
}

/// The climb ends at a marked node that is as deep as the steps made.
pub proof fn lemma_climb(t: Set<nat>, top: nat, depth: nat)
    requires
        t.contains(top),
        depth == spec_depth(top),
    ensures
        t.contains(spec_climb(t, top, depth)),
        spec_depth(spec_climb(t, top, depth)) >= depth,
    decreases 62 - depth,
{
    if depth < 62 && t.contains(spec_parent_with_depth(top, depth)) && t.contains(
        spec_sibling(top),
    ) {
        lemma_parent(top);
        lemma_climb(t, spec_parent_with_depth(top, depth), depth + 1);
    }
}

/// The ways down end at a leaf.
pub proof fn lemma_descend(t: Set<nat>, top: nat, depth: nat)
    requires
        depth == spec_depth(top),
    ensures
        spec_depth(spec_descend(t, top, depth)) == 0,
        spec_depth(spec_sink(t, top, depth)) == 0,
        spec_descend(t, top, depth) % 2 == 0,
        spec_sink(t, top, depth) % 2 == 0,
    decreases depth,
{
    if depth > 0 {
        let o = spec_offset_with_depth(top, depth);
        lemma_depth_offset_of_index((depth - 1) as nat, 2 * (o + 1));
        lemma_depth_offset_of_index((depth - 1) as nat, 2 * o);
        lemma_descend(t, spec_index((depth - 1) as nat, 2 * (o + 1)), (depth - 1) as nat);
        lemma_descend(t, spec_index((depth - 1) as nat, 2 * o), (depth - 1) as nat);
    }
}

/// A node is verified by something just when it is marked, and then by an
/// even index.
pub proof fn lemma_verified_by(t: Set<nat>, n: nat)
    ensures
        spec_verified_by(t, n).is_none() <==> !t.contains(n),
        spec_verified_by(t, n).is_some() ==> spec_verified_by(t, n).unwrap() % 2 == 0,
{
    if t.contains(n) {
        let top = spec_climb(t, n, spec_depth(n));
        lemma_descend(t, top, spec_depth(top));
    }
}

/// The climb stays where it is or ends higher up, at a node that has the
/// leaves of the first below it.
pub proof fn lemma_climb_over(t: Set<nat>, top: nat, depth: nat)
    requires
        depth == spec_depth(top),
    ensures
        spec_climb(t, top, depth) == top || spec_depth(spec_climb(t, top, depth)) > depth,
        spec_right_span(spec_climb(t, top, depth)) >= spec_right_span(top),
    decreases 62 - depth,
{
    if depth < 62 && t.contains(spec_parent_with_depth(top, depth)) && t.contains(
        spec_sibling(top),
    ) {
        lemma_parent(top);
        lemma_parent_spans(top);
        lemma_climb_over(t, spec_parent_with_depth(top, depth), depth + 1);
    }
}

/// The way down to the right of a node ends at a leaf after the leaves of
/// that node; the way down from a node ends at or after its first leaf.
pub proof fn lemma_descend_after(t: Set<nat>, top: nat, depth: nat)
    requires
        depth == spec_depth(top),
    ensures
        depth > 0 ==> spec_descend(t, top, depth) >= spec_right_span(top) + 2,
        depth == 0 ==> spec_descend(t, top, depth) == top,
        spec_sink(t, top, depth) >= spec_left_span(top),
    decreases depth,
{
    lemma_spans(top);
    lemma_index_of_depth_offset(top);
    if depth > 0 {
        let o = spec_offset_with_depth(top, depth);
        let e = (depth - 1) as nat;
        let right = spec_index(e, 2 * (o + 1));
        let left = spec_index(e, 2 * o);
        lemma_depth_offset_of_index(e, 2 * (o + 1));
        lemma_depth_offset_of_index(e, 2 * o);
        lemma_children(depth, o);
        lemma_index_step(e, 2 * o);
        lemma_index_step(e, 2 * o + 1);
        lemma_pow2_unfold(depth);
        lemma_spans(right);
        lemma_spans(left);
        lemma_descend_after(t, right, e);
        lemma_descend_after(t, left, e);
        assert(spec_left_span(right) == spec_right_span(top) + 2);
        assert(spec_left_span(left) == spec_left_span(top));
        assert(spec_descend(t, top, depth) == spec_sink(t, right, e));
        assert(spec_sink(t, top, depth) == if !t.contains(top) {
            spec_sink(t, left, e)
        } else {
            spec_descend(t, top, depth)
        });
    } else {
        assert(spec_sink(t, top, depth) == spec_descend(t, top, depth));
    }
}

/// What verifies a marked node lies after it.
pub proof fn lemma_verified_by_after(t: Set<nat>, n: nat)
    requires
        t.contains(n),
    ensures
        spec_verified_by(t, n).is_some(),
        spec_verified_by(t, n).unwrap() > n,
{
    let top = spec_climb(t, n, spec_depth(n));
    lemma_climb(t, n, spec_depth(n));
    lemma_climb_over(t, n, spec_depth(n));
    lemma_descend_after(t, top, spec_depth(top));
    lemma_spans(n);
    lemma_spans(top);
}

/// How far the way down may have come: `top` and what lies to its right on
/// the way stay below `2^58`.
pub open spec fn spec_on_way(top: nat, depth: nat) -> bool {
    depth == spec_depth(top) && depth <= 56 && top + pow2(depth + 2) <= 0x400_0000_0000_0000
}

proof fn lemma_way_right(top: nat, depth: nat)
    requires
        spec_on_way(top, depth),
        depth > 0,
    ensures
        spec_index(depth, spec_offset_with_depth(top, depth) + 1) == top + pow2(depth + 1),
        spec_index(depth, spec_offset_with_depth(top, depth) + 1) <= u64::MAX,
        spec_index(depth, spec_offset_with_depth(top, depth) + 1) % 2 == 1,
        spec_offset_with_depth(spec_index(depth, spec_offset_with_depth(top, depth) + 1), depth)
            == spec_offset_with_depth(top, depth) + 1,
        spec_on_way(
            spec_index((depth - 1) as nat, 2 * (spec_offset_with_depth(top, depth) + 1)),
            (depth - 1) as nat,
        ),
{
    let o = spec_offset_with_depth(top, depth);
    lemma_index_of_depth_offset(top);
    lemma_index_step(depth, o);
    lemma_index_step(depth, o + 1);
    lemma_depth_offset_of_index(depth, o + 1);
    lemma_children(depth, o + 1);
    lemma_depth_offset_of_index((depth - 1) as nat, 2 * (o + 1));
    lemma_pow2_unfold(depth + 2);
    lemma_pow2_unfold(depth + 1);
    lemma_pow2_pos(depth);
}

proof fn lemma_way_down(top: nat, depth: nat)
    requires
        spec_on_way(top, depth),
        depth > 0,
    ensures
        top % 2 == 1,
        spec_on_way(
            spec_index((depth - 1) as nat, 2 * spec_offset_with_depth(top, depth)),
            (depth - 1) as nat,
        ),
{
    let o = spec_offset_with_depth(top, depth);
    lemma_index_of_depth_offset(top);
    lemma_index_step(depth, o);
    lemma_children(depth, o);
    lemma_depth_offset_of_index((depth - 1) as nat, 2 * o);
    lemma_pow2_unfold(depth + 2);
    lemma_pow2_unfold(depth + 1);
    lemma_pow2_pos(depth);
}

/// The end of the verified stretch that holds `index`, where `index` is
/// marked in the tree window.
pub fn verified_by_in(pager: &Pager, offset: usize, size: usize, index: u64) -> (r: Option<u64>)
    requires
        pager.wf(),
        spec_bounded(pager.pages()),
        spec_window(offset as nat, size as nat),
    ensures
        match r {
            Some(v) => spec_verified_by(
                spec_bits(pager.pages(), offset as nat, size as nat),
                index as nat,
            ) == Some(v as nat) && v % 2 == 0,
            None => spec_verified_by(
                spec_bits(pager.pages(), offset as nat, size as nat),
                index as nat,
            ).is_none(),
        },
{
    let ghost t = spec_bits(pager.pages(), offset as nat, size as nat);
    if !get_in(pager, offset, size, index) {
        return None;
    }
    proof {
        lemma_set_bit_in_bounds(pager.pages(), offset as nat, size as nat, index as nat);
    }
    let mut depth = crate::flat::depth(index);
    let mut top = index;
    let mut parent = crate::flat::parent_with_depth(index, depth);
    depth += 1;
    while get_in(pager, offset, size, parent) && get_in(
        pager,
        offset,
        size,
        crate::flat::sibling(top),
    )
        invariant
            pager.wf(),
            spec_bounded(pager.pages()),
            spec_window(offset as nat, size as nat),
            t == spec_bits(pager.pages(), offset as nat, size as nat),
            t.contains(top as nat),
            top < MAX_NODES,
            depth == spec_depth(top as nat) + 1,
            depth <= 56,
            parent == spec_parent(top as nat),
            spec_climb(t, top as nat, (depth - 1) as nat) == spec_climb(
                t,
                index as nat,
                spec_depth(index as nat),
            ),
        decreases 64 - depth,
    {
        proof {
            lemma_set_bit_in_bounds(pager.pages(), offset as nat, size as nat, parent as nat);
            lemma_parent(top as nat);
        }
        top = parent;
        parent = crate::flat::parent_with_depth(top, depth);
        depth += 1;
    }
    depth -= 1;
    proof {
        lemma2_to64_rest();
        if depth < 55 {
            lemma_pow2_strictly_increases((depth + 2) as nat, 57);
        }
        assert(spec_on_way(top as nat, depth as nat));
    }
    while depth > 0
        invariant
            pager.wf(),
            spec_bounded(pager.pages()),
            spec_window(offset as nat, size as nat),
            t == spec_bits(pager.pages(), offset as nat, size as nat),
            spec_on_way(top as nat, depth as nat),
            spec_descend(t, top as nat, depth as nat) == spec_descend(
                t,
                spec_climb(t, index as nat, spec_depth(index as nat)),
                spec_depth(spec_climb(t, index as nat, spec_depth(index as nat))),
            ),
        decreases depth,
    {
        proof {
            lemma_way_right(top as nat, depth as nat);
        }
        let ghost above = depth;
        let o = crate::flat::offset_with_depth(top, depth);
        parent = crate::flat::index(depth, o + 1);
        top = match crate::flat::child_with_depth(parent, depth, true) {
            Some(child) => child,
            None => {
                return None;
            },
        };
        depth -= 1;
        while !get_in(pager, offset, size, top) && depth > 0
            invariant
                pager.wf(),
                spec_bounded(pager.pages()),
                spec_window(offset as nat, size as nat),
                t == spec_bits(pager.pages(), offset as nat, size as nat),
                spec_on_way(top as nat, depth as nat),
                depth < above,
                spec_sink(t, top as nat, depth as nat) == spec_descend(
                    t,
                    spec_climb(t, index as nat, spec_depth(index as nat)),
                    spec_depth(spec_climb(t, index as nat, spec_depth(index as nat))),
                ),
            decreases depth,
        {
            proof {
                lemma_way_down(top as nat, depth as nat);
            }
            top = match crate::flat::child_with_depth(top, depth, true) {
                Some(child) => child,
                None => {
                    return None;
                },
            };
            depth -= 1;
        }
    }
    proof {
        lemma2_to64();
    }
    if get_in(pager, offset, size, top) {
        Some(top + 2)
    } else {
        Some(top)
    }
}

/// The length that a window reports: the number of pages times the bits of
/// a page.
pub open spec fn spec_len(pages: Map<u64, Seq<u8>>) -> nat {
    pages.dom().len() * (PAGE_SIZE as nat) * 8
}

/// Within the bound, the length stays below `MAX_NODES`.
pub proof fn lemma_len(pages: Map<u64, Seq<u8>>)
    requires
        pages.dom().finite(),
        spec_bounded(pages),
    ensures
        pages.dom().len() <= MAX_PAGES,
        spec_len(pages) < MAX_NODES,
{
    lemma_bounded_len(pages.dom(), MAX_PAGES as nat);
}

/// The length of the bitfield in bits.
pub fn len_in(pager: &Pager) -> (r: u64)
    requires
        pager.wf(),
        spec_bounded(pager.pages()),
    ensures
        r == spec_len(pager.pages()),
        r < MAX_NODES,
{
    proof {
        lemma_len(pager.pages());
    }
    (pager.len() as u64) * (PAGE_SIZE as u64) * 8
}

/// The highest marked node on the left edge of the tree, going up from
/// `next`, a node of `depth`, as long as the leaves below `next` end before
/// `max`; `top` where none is marked.
pub open spec fn spec_highest(t: Set<nat>, max: nat, next: nat, top: nat, depth: nat) -> nat
    decreases 62 - depth,
{
    if depth < 62 && spec_right_span(next) < max {
        let up = spec_parent_with_depth(next, depth);
        spec_highest(
            t,
            max,
            up,
            if t.contains(up) {
                up
            } else {
                top
            },
            depth + 1,
        )
    } else {
        top
    }
}

/// The number of blocks at the start of the log that are verified, for a
/// window of length `max`.
pub open spec fn spec_blocks(t: Set<nat>, max: nat) -> nat {
    let top = spec_highest(t, max, 0, 0, 0);
    match spec_verified_by(t, top) {
        Some(v) => v / 2,
        None => 0,
    }
}

proof fn lemma_left_edge(next: nat, depth: nat)
    requires
        depth == spec_depth(next),
        next + 1 == pow2(depth),
    ensures
        spec_right_span(next) + 2 == pow2(depth + 1),
        spec_parent(next) + 1 == pow2(depth + 1),
        spec_depth(spec_parent(next)) == depth + 1,
{
    lemma_index_of_depth_offset(next);
    lemma_pow2_pos(depth);
    let p = pow2(depth);
    let o = spec_offset(next);
    assert(o == 0) by (nonlinear_arith)
        requires
            next + 1 == (2 * o + 1) * p,
            next + 1 == p,
            p > 0,
    ;
    lemma_spans(next);
    lemma_parent_between(next);
    lemma_parent(next);
}

/// The number of blocks at the start of the log that are verified.
pub fn blocks_in(pager: &Pager, offset: usize, size: usize) -> (r: u64)
    requires
        pager.wf(),
        spec_bounded(pager.pages()),
        spec_window(offset as nat, size as nat),
    ensures
        r == spec_blocks(
            spec_bits(pager.pages(), offset as nat, size as nat),
            spec_len(pager.pages()),
        ),
        2 * r <= u64::MAX,
{
    let ghost t = spec_bits(pager.pages(), offset as nat, size as nat);
    let mut top: u64 = 0;
    let mut next: u64 = 0;
    let max = len_in(pager);
    let ghost mut depth: nat = 0;
    proof {
        lemma2_to64();
        lemma2_to64_rest();
    }
    while crate::flat::right_span(next) < max
        invariant
            pager.wf(),
            spec_bounded(pager.pages()),
            spec_window(offset as nat, size as nat),
            t == spec_bits(pager.pages(), offset as nat, size as nat),
            max < MAX_NODES,
            depth == spec_depth(next as nat),
            next + 1 == pow2(depth),
            depth <= 56,
            spec_right_span(next as nat) + 2 == pow2(depth + 1),
            pow2(depth + 1) <= 0x200_0000_0000_0000,
            spec_highest(t, max as nat, next as nat, top as nat, depth) == spec_highest(
                t,
                max as nat,
                0,
                0,
                0,
            ),
        decreases 64 - depth,
    {
        proof {
            lemma_left_edge(next as nat, depth);
            lemma2_to64_rest();
            if depth >= 55 {
                if depth > 55 {
                    lemma_pow2_strictly_increases(56, depth + 1);
                }
                assert(false);
            }
        }
        next = crate::flat::parent(next);
        if get_in(pager, offset, size, next) {
            top = next;
        }
        proof {
            depth = depth + 1;
            lemma_left_edge(next as nat, depth);
            if depth < 56 {
                lemma_pow2_strictly_increases(depth + 1, 57);
            }
        }
    }
    match verified_by_in(pager, offset, size, top) {
        Some(val) => val / 2,
        None => 0,
    }
}

/// The way up that `digest` takes, at a node `next` and its `parent` of
/// `depth`, with the bits gathered so far in `digest` and the next to give in
/// `bit`. The way goes on while leaves before `max` lie under `next` or the
/// parent is off the left edge, and ends at the first marked parent.
pub open spec fn spec_digest_loop(
    t: Set<nat>,
    max: nat,
    next: nat,
    parent: nat,
    depth: nat,
    bit: u64,
    digest: u64,
) -> u64
    decreases 62 - depth,
{
    if depth < 62 && (spec_right_span(next) < max || spec_left_span(parent) > 0) {
        let seen = if t.contains(next) {
            digest | bit
        } else {
            digest
        };
        if t.contains(parent) {
            let all = seen | ((2 * bit + 1) as u64);
            if all + 1 == 4 * bit {
                1
            } else {
                all
            }
        } else {
            spec_digest_loop(
                t,
                max,
                spec_sibling(parent),
                spec_parent_with_depth(spec_sibling(parent), depth),
                depth + 1,
                (2 * bit) as u64,
                seen,
            )
        }
    } else {
        digest
    }
}

/// What of the way from node `n` to the root is verified here, bit by bit:
/// `1` where `n` itself is marked; else bit 1 for the sibling of `n`, and so on
/// upwards, with a last bit 0 for a marked parent that ends the way.
pub open spec fn spec_digest(t: Set<nat>, len: nat, n: nat) -> u64 {
    if t.contains(n) {
        1
    } else {
        let next = spec_sibling(n);
        let max = if next + 2 > len {
            next + 2
        } else {
            len
        };
        spec_digest_loop(
            t,
            max,
            next,
            spec_parent_with_depth(next, spec_depth(n)),
            spec_depth(n) + 1,
            2,
            0,
        )
    }
}

proof fn lemma_or_bounds(digest: u64, bit: u64, k: u64)
    by (bit_vector)
    requires
        k < 62,
        bit == 1u64 << k,
        digest < bit,
    ensures
        (digest | bit) < 2 * bit,
        (digest | (2 * bit + 1) as u64) < 4 * bit,
        ((digest | bit) | (2 * bit + 1) as u64) < 4 * bit,
        2 * bit == 1u64 << ((k + 1) as u64),
        4 * bit <= 0x8000_0000_0000_0000u64,
{
}

/// Where the way of `digest` stands: `cur` is the node on the way from
/// `index` to the root whose sibling is `next` and whose parent is `parent`.
pub open spec fn spec_digest_at(index: nat, cur: nat, next: nat, parent: nat, depth: nat) -> bool {
    &&& index < MAX_NODES
    &&& next == spec_sibling(cur)
    &&& parent == spec_parent(cur)
    &&& depth == spec_depth(cur) + 1
    &&& depth <= 58
    &&& spec_left_span(cur) <= index
}

proof fn lemma_digest_at(index: nat, cur: nat, next: nat, parent: nat, depth: nat)
    requires
        spec_digest_at(index, cur, next, parent, depth),
    ensures
        spec_depth(next) + 1 == depth,
        spec_depth(parent) == depth,
        spec_parent(next) == parent,
        next < 0x1000_0000_0000_0000,
        parent < 0x1000_0000_0000_0000,
        cur < 0x1000_0000_0000_0000,
        spec_right_span(next) + 2 < 0x2000_0000_0000_0000,
        spec_left_span(parent) <= index,
        depth >= 57 ==> spec_left_span(parent) == 0 && spec_right_span(next) + 2 >= pow2(58),
{
    let d = spec_depth(cur);
    let p = pow2(d);
    lemma2_to64_rest();
    lemma_sibling(cur);
    lemma_parent(cur);
    lemma_parent_between(cur);
    lemma_spans(cur);
    lemma_spans(next);
    lemma_spans(parent);
    lemma_pow2_unfold(d + 2);
    if d < 57 {
        lemma_pow2_strictly_increases(d, 57);
    }
    assert(p <= pow2(57));
    if d >= 56 {
        if d > 56 {
            lemma_pow2_strictly_increases(56, d);
        }
        let o = spec_offset(cur);
        lemma_index_of_depth_offset(cur);
        assert(cur + 1 < 2 * p);
        assert(o == 0) by (nonlinear_arith)
            requires
                cur + 1 == (2 * o + 1) * p,
                cur + 1 < 2 * p,
                p > 0,
        ;
    }
}

/// What of the way from `index` to the root is verified in the tree window.
#[verifier::rlimit(50)]
pub fn digest_in(pager: &Pager, offset: usize, size: usize, index: u64) -> (r: u64)
    requires
        pager.wf(),
        spec_bounded(pager.pages()),
        spec_window(offset as nat, size as nat),
        index < MAX_NODES,
    ensures
        r == spec_digest(
            spec_bits(pager.pages(), offset as nat, size as nat),
            spec_len(pager.pages()),
            index as nat,
        ),
{
    let ghost t = spec_bits(pager.pages(), offset as nat, size as nat);
    if get_in(pager, offset, size, index) {
        return 1;
    }
    proof {
        lemma2_to64();
        lemma2_to64_rest();
        lemma_depth_bound(index as nat, 56);
        lemma_spans(index as nat);
        lemma_sibling(index as nat);
        lemma_parent_between(index as nat);
        lemma_pow2_strictly_increases(spec_depth(index as nat) + 1, 57);
        assert(spec_digest_at(
            index as nat,
            index as nat,
            spec_sibling(index as nat),
            spec_parent(index as nat),
            spec_depth(index as nat) + 1,
        ));
        lemma_digest_at(
            index as nat,
            index as nat,
            spec_sibling(index as nat),
            spec_parent(index as nat),
            spec_depth(index as nat) + 1,
        );
    }
    let mut digest: u64 = 0;
    let mut next = crate::flat::sibling(index);
    let len = len_in(pager);
    let max = if next + 2 > len {
        next + 2
    } else {
        len
    };
    let mut bit: u64 = 2;
    let mut depth = crate::flat::depth(index);
    let mut parent = crate::flat::parent_with_depth(next, depth);
    depth += 1;
    let ghost mut cur: nat = index as nat;
    let ghost mut k: u64 = 1;
    proof {
        assert(2u64 == 1u64 << 1u64) by (bit_vector);
    }
    while crate::flat::right_span(next) < max || crate::flat::left_span(parent) > 0
        invariant
            pager.wf(),
            spec_bounded(pager.pages()),
            spec_window(offset as nat, size as nat),
            t == spec_bits(pager.pages(), offset as nat, size as nat),
            spec_digest_at(index as nat, cur, next as nat, parent as nat, depth as nat),
            spec_depth(next as nat) + 1 == depth,
            spec_depth(parent as nat) == depth,
            spec_right_span(next as nat) + 2 < 0x2000_0000_0000_0000,
            max + 2 <= 0x400_0000_0000_0000,
            1 <= k <= depth,
            bit == 1u64 << k,
            digest < bit,
            spec_digest_loop(t, max as nat, next as nat, parent as nat, depth as nat, bit, digest)
                == spec_digest(t, spec_len(pager.pages()), index as nat),
        decreases 64 - depth,
    {
        proof {
            lemma_digest_at(index as nat, cur, next as nat, parent as nat, depth as nat);
            lemma2_to64_rest();
            assert(depth <= 56);
            lemma_or_bounds(digest, bit, k);
        }
        if get_in(pager, offset, size, next) {
            digest |= bit;
        }
        if get_in(pager, offset, size, parent) {
            digest |= 2 * bit + 1;
            if digest + 1 == 4 * bit {
                return 1;
            }
            return digest;
        }
        proof {
            lemma_sibling(parent as nat);
            lemma_parent(parent as nat);
            cur = parent as nat;
            k = (k + 1) as u64;
        }
        next = crate::flat::sibling(parent);
        parent = crate::flat::parent_with_depth(next, depth);
        depth += 1;
        bit *= 2;
        proof {
            lemma_digest_at(index as nat, cur, next as nat, parent as nat, depth as nat);
        }
    }
    digest
}

/// What the remote side holds after the full roots `roots`, from number
/// `i` on, were marked there where they are marked here.
pub open spec fn spec_mark_roots(
    t: Set<nat>,
    r: PagerState,
    offset: nat,
    size: nat,
    roots: Seq<nat>,
    i: nat,
) -> PagerState
    decreases roots.len() - i,
{
    if i >= roots.len() {
        r
    } else {
        spec_mark_roots(
            t,
            if t.contains(roots[i as int]) {
                spec_set_node(r, offset, size, roots[i as int], true)
            } else {
                r
            },
            offset,
            size,
            roots,
            i + 1,
        )
    }
}

/// What the remote side holds after its digest was read, from the node
/// `next` upwards: each bit of `digest` that is set stands for a sibling that
/// the remote side has, which is marked there if it is marked here. The last
/// bit stands for `next` itself and the full roots before it.
pub open spec fn spec_mark_remote(
    t: Set<nat>,
    r: PagerState,
    offset: nat,
    size: nat,
    next: nat,
    digest: nat,
) -> PagerState
    decreases digest,
{
    if digest == 0 {
        r
    } else if digest == 1 {
        let first = if t.contains(next) {
            spec_set_node(r, offset, size, next, true)
        } else {
            r
        };
        let left = if spec_sibling(next) < next {
            spec_sibling(next)
        } else {
            next
        };
        spec_mark_roots(t, first, offset, size, spec_full_roots(spec_right_span(left) + 2), 0)
    } else {
        let sibling = spec_sibling(next);
        spec_mark_remote(
            t,
            if digest % 2 == 1 && t.contains(sibling) {
                spec_set_node(r, offset, size, sibling, true)
            } else {
                r
            },
            offset,
            size,
            spec_parent(next),
            digest / 2,
        )
    }
}

/// Those of `roots`, from number `i` on, that are not `next` and that the
/// remote side lacks.
pub open spec fn spec_missing(r: Set<nat>, roots: Seq<nat>, next: nat, i: nat) -> Seq<nat>
    decreases roots.len() - i,
{
    if i >= roots.len() {
        Seq::empty()
    } else if roots[i as int] != next && !r.contains(roots[i as int]) {
        seq![roots[i as int]] + spec_missing(r, roots, next, i + 1)
    } else {
        spec_missing(r, roots, next, i + 1)
    }
}

/// The nodes to send, gathered from `next`, a node of `depth`, upwards,
/// after `nodes`: the siblings that the remote side lacks, up to a node that
/// the remote side has, or up to a node whose sibling is not marked here, where
/// the full roots of the verified stretch end the list.
pub open spec fn spec_collect(t: Set<nat>, r: Set<nat>, next: nat, depth: nat, nodes: Seq<nat>) -> Option<
    (Seq<nat>, nat),
>
    decreases 62 - depth,
{
    if !r.contains(next) && depth < 62 {
        let sibling = spec_sibling(next);
        if !t.contains(sibling) {
            match spec_verified_by(t, next) {
                None => None,
                Some(val) => Some((nodes + spec_missing(r, spec_full_roots(val), next, 0), val)),
            }
        } else {
            spec_collect(
                t,
                r,
                spec_parent(next),
                depth + 1,
                if r.contains(sibling) {
                    nodes
                } else {
                    nodes.push(sibling)
                },
            )
        }
    } else {
        Some((nodes, 0))
    }
}

/// The nodes that the remote side needs to verify node `n`, and the end of
/// the verified stretch where the list ends with its full roots, else 0. `None`
/// where `n` is not marked here.
pub open spec fn spec_proof(
    t: Set<nat>,
    r: PagerState,
    offset: nat,
    size: nat,
    n: nat,
    digest: u64,
    hash: bool,
) -> Option<(Seq<nat>, nat)> {
    if !t.contains(n) {
        None
    } else {
        let nodes = if hash {
            seq![n]
        } else {
            Seq::empty()
        };
        if digest == 1 {
            Some((nodes, 0))
        } else {
            let marked = spec_mark_remote(t, r, offset, size, n, (digest / 2) as nat);
            spec_collect(t, spec_bits(marked.pages, offset, size), n, spec_depth(n), nodes)
        }
    }
}

/// A window of bits, one to a node of the tree, on a pager of its own.
pub struct TreeBitfield {
    pub bitfield: SparseBitfield,
}

/// The same window of bits under its other name.
pub type TreeIndex = TreeBitfield;

/// What a request for a proof says of the remote side.
pub struct ProofOpts {
    pub remote: TreeBitfield,
    pub digest: u64,
    pub hash: bool,
}

impl ProofOpts {
    /// What is said of a remote side of which nothing is known.
    pub fn new() -> (r: ProofOpts)
        ensures
            r.remote.wf(),
            r.remote@ == Set::<nat>::empty(),
            r.digest == 0,
            !r.hash,
    {
        ProofOpts { remote: TreeBitfield::new(), digest: 0, hash: false }
    }

    /// Says which nodes the remote side has marked.
    pub fn set_remote(&mut self, remote: TreeBitfield)
        ensures
            final(self).remote == remote,
            final(self).digest == old(self).digest,
            final(self).hash == old(self).hash,
    {
        self.remote = remote;
    }

    /// Gives the digest that the remote side sent.
    pub fn set_digest(&mut self, digest: u64)
        ensures
            final(self).remote == old(self).remote,
            final(self).digest == digest,
            final(self).hash == old(self).hash,
    {
        self.digest = digest;
    }

    /// Says whether the node itself is to be sent in any case.
    pub fn set_hash(&mut self, hash: bool)
        ensures
            final(self).remote == old(self).remote,
            final(self).digest == old(self).digest,
            final(self).hash == hash,
    {
        self.hash = hash;
    }
}

/// What `proof` asks of the digest: that it has no more bits than the tree
/// has levels above node `n`.
pub open spec fn spec_digest_fits(n: nat, digest: u64) -> bool {
    (digest as nat) < pow2((64 - spec_depth(n)) as nat)
}

/// Where the first way of `proof` stands: `index` lies under `next`, and the
/// digest has no more bits than there are levels above.
pub open spec fn spec_proof_at(index: nat, next: nat, digest: nat) -> bool {
    &&& index < MAX_NODES
    &&& spec_left_span(next) <= index
    &&& spec_depth(next) <= 63
    &&& digest < pow2((63 - spec_depth(next)) as nat)
}

proof fn lemma_proof_at(index: nat, next: nat, digest: nat)
    requires
        spec_proof_at(index, next, digest),
        digest >= 1,
    ensures
        spec_depth(next) <= 62,
        next <= u64::MAX,
        spec_sibling(next) <= u64::MAX,
        digest >= 2 ==> spec_depth(next) <= 61 && spec_proof_at(
            index,
            spec_parent(next),
            digest / 2,
        ),
        spec_right_span_fits(
            if spec_sibling(next) < next {
                spec_sibling(next)
            } else {
                next
            },
        ),
        spec_depth(
            if spec_sibling(next) < next {
                spec_sibling(next)
            } else {
                next
            },
        ) <= 62,
        spec_right_span(
            if spec_sibling(next) < next {
                spec_sibling(next)
            } else {
                next
            },
        ) + 2 <= u64::MAX,
{
    let d = spec_depth(next);
    let p = pow2(d);
    lemma2_to64();
    lemma2_to64_rest();
    if d == 63 {
        assert(false);
    }
    lemma_pow2_unfold((63 - d) as nat);
    if d < 62 {
        lemma_pow2_strictly_increases(d, 62);
    }
    assert(p <= pow2(62));
    lemma_spans(next);
    lemma_sibling(next);
    lemma_parent(next);
    lemma_parent_between(next);
    lemma_parent_spans(next);
    let left = if spec_sibling(next) < next {
        spec_sibling(next)
    } else {
        next
    };
    lemma_spans(left);
    if digest >= 2 {
        if d == 62 {
            assert(false);
        }
    }
}

/// Marks on the remote side what its digest says that it has: the first way
/// of `proof`.
fn mark_remote_in(
    pager: &Pager,
    offset: usize,
    size: usize,
    remote: &mut Pager,
    ro: usize,
    rs: usize,
    index: u64,
    shifted: u64,
)
    requires
        pager.wf(),
        spec_bounded(pager.pages()),
        spec_window(offset as nat, size as nat),
        old(remote).wf(),
        spec_window(ro as nat, rs as nat),
        spec_low(old(remote).pages(), ro as nat, rs as nat),
        spec_proof_at(index as nat, index as nat, shifted as nat),
    ensures
        final(remote).wf(),
        spec_low(final(remote).pages(), ro as nat, rs as nat),
        final(remote).state() == spec_mark_remote(
            spec_bits(pager.pages(), offset as nat, size as nat),
            old(remote).state(),
            ro as nat,
            rs as nat,
            index as nat,
            shifted as nat,
        ),
{
    let ghost t = spec_bits(pager.pages(), offset as nat, size as nat);
    let ghost target = spec_mark_remote(
        t,
        remote.state(),
        ro as nat,
        rs as nat,
        index as nat,
        shifted as nat,
    );
    proof {
        lemma_bounded_low(pager.pages(), offset as nat, size as nat);
    }
    let mut next = index;
    let mut digest = shifted;
    while digest > 1
        invariant
            pager.wf(),
            spec_low(pager.pages(), offset as nat, size as nat),
            spec_window(offset as nat, size as nat),
            t == spec_bits(pager.pages(), offset as nat, size as nat),
            remote.wf(),
            spec_window(ro as nat, rs as nat),
            spec_low(remote.pages(), ro as nat, rs as nat),
            spec_proof_at(index as nat, next as nat, digest as nat),
            spec_mark_remote(t, remote.state(), ro as nat, rs as nat, next as nat, digest as nat)
                == target,
        decreases digest,
    {
        proof {
            lemma_proof_at(index as nat, next as nat, digest as nat);
            assert(digest >> 1 == digest / 2) by (bit_vector);
            assert((digest & 1 > 0) == (digest % 2 == 1)) by (bit_vector);
        }
        let sib = crate::flat::sibling(next);
        if digest & 1 > 0 && get_in(pager, offset, size, sib) {
            set_node_in(remote, ro, rs, sib, true);
        }
        next = crate::flat::parent(next);
        digest >>= 1;
    }
    if digest == 1 {
        proof {
            lemma_proof_at(index as nat, next as nat, digest as nat);
        }
        if get_in(pager, offset, size, next) {
            set_node_in(remote, ro, rs, next, true);
        }
        let sib = crate::flat::sibling(next);
        if sib < next {
            next = sib;
        }
        proof {
            lemma_spans(next as nat);
        }
        let roots = crate::flat::full_roots(crate::flat::right_span(next) + 2);
        let mut i: usize = 0;
        while i < roots.len()
            invariant
                pager.wf(),
                spec_low(pager.pages(), offset as nat, size as nat),
                spec_window(offset as nat, size as nat),
                t == spec_bits(pager.pages(), offset as nat, size as nat),
                remote.wf(),
                spec_window(ro as nat, rs as nat),
                spec_low(remote.pages(), ro as nat, rs as nat),
                i <= roots.len(),
                spec_mark_roots(t, remote.state(), ro as nat, rs as nat, spec_nats(roots@), i as nat)
                    == target,
            decreases roots.len() - i,
        {
            let root = roots[i];
            if get_in(pager, offset, size, root) {
                set_node_in(remote, ro, rs, root, true);
            }
            i += 1;
        }
    }
}

/// Gathers the nodes to send, from `index` upwards: the second way of
/// `proof`.
#[verifier::loop_isolation(false)]
fn collect_in(
    pager: &Pager,
    offset: usize,
    size: usize,
    remote: &Pager,
    ro: usize,
    rs: usize,
    index: u64,
    start: Vec<u64>,
) -> (r: Option<(Vec<u64>, u64)>)
    requires
        pager.wf(),
        spec_bounded(pager.pages()),
        spec_window(offset as nat, size as nat),
        remote.wf(),
        spec_window(ro as nat, rs as nat),
        spec_bit(pager.pages(), offset as nat, size as nat, index as nat),
    ensures
        match r {
            Some((nodes, v)) => spec_collect(
                spec_bits(pager.pages(), offset as nat, size as nat),
                spec_bits(remote.pages(), ro as nat, rs as nat),
                index as nat,
                spec_depth(index as nat),
                spec_nats(start@),
            ) == Some((spec_nats(nodes@), v as nat)),
            None => spec_collect(
                spec_bits(pager.pages(), offset as nat, size as nat),
                spec_bits(remote.pages(), ro as nat, rs as nat),
                index as nat,
                spec_depth(index as nat),
                spec_nats(start@),
            ).is_none(),
        },
{
    let ghost t = spec_bits(pager.pages(), offset as nat, size as nat);
    let ghost marked = spec_bits(remote.pages(), ro as nat, rs as nat);
    let ghost goal = spec_collect(
        t,
        marked,
        index as nat,
        spec_depth(index as nat),
        spec_nats(start@),
    );
    proof {
        lemma_bounded_low(pager.pages(), offset as nat, size as nat);
        lemma_set_bit_in_bounds(pager.pages(), offset as nat, size as nat, index as nat);
    }
    let mut nodes = start;
    let mut next = index;
    while !get_in(remote, ro, rs, next)
        invariant
            pager.wf(),
            spec_bounded(pager.pages()),
            spec_low(pager.pages(), offset as nat, size as nat),
            spec_window(offset as nat, size as nat),
            t == spec_bits(pager.pages(), offset as nat, size as nat),
            remote.wf(),
            spec_window(ro as nat, rs as nat),
            marked == spec_bits(remote.pages(), ro as nat, rs as nat),
            next < MAX_NODES,
            spec_depth(next as nat) <= 55,
            spec_collect(t, marked, next as nat, spec_depth(next as nat), spec_nats(nodes@)) == goal,
        decreases 64 - spec_depth(next as nat),
    {
        let sib = crate::flat::sibling(next);
        if !get_in(pager, offset, size, sib) {
            match verified_by_in(pager, offset, size, next) {
                None => {
                    return None;
                },
                Some(val) => {
                    let roots = crate::flat::full_roots(val);
                    let ghost before = spec_nats(nodes@);
                    let mut i: usize = 0;
                    while i < roots.len()
                        invariant
                            remote.wf(),
                            spec_window(ro as nat, rs as nat),
                            marked == spec_bits(remote.pages(), ro as nat, rs as nat),
                            i <= roots.len(),
                            spec_nats(nodes@) + spec_missing(
                                marked,
                                spec_nats(roots@),
                                next as nat,
                                i as nat,
                            ) == before + spec_missing(marked, spec_nats(roots@), next as nat, 0),
                        decreases roots.len() - i,
                    {
                        let root = roots[i];
                        if root != next && !get_in(remote, ro, rs, root) {
                            proof {
                                assert(spec_nats(nodes@.push(root)) == spec_nats(nodes@) + seq![
                                    root as nat,
                                ]);
                            }
                            nodes.push(root);
                        }
                        i += 1;
                    }
                    return Some((nodes, val));
                },
            }
        } else {
            proof {
                lemma_step_low(pager.pages(), offset as nat, size as nat, next as nat);
                assert(spec_nats(nodes@.push(sib)) == spec_nats(nodes@).push(sib as nat));
            }
            if !get_in(remote, ro, rs, sib) {
                nodes.push(sib);
            }
        }
        next = crate::flat::parent(next);
    }
    Some((nodes, 0))
}

/// The nodes that the remote side needs to verify `index`, given what
/// `opts` says of the remote side.
pub fn proof_in(pager: &Pager, offset: usize, size: usize, index: u64, opts: ProofOpts) -> (r: Option<
    (Vec<u64>, u64),
>)
    requires
        pager.wf(),
        spec_bounded(pager.pages()),
        spec_window(offset as nat, size as nat),
        opts.remote.wf(),
        spec_bit(pager.pages(), offset as nat, size as nat, index as nat) ==> spec_digest_fits(
            index as nat,
            opts.digest,
        ),
    ensures
        match r {
            Some((nodes, v)) => spec_proof(
                spec_bits(pager.pages(), offset as nat, size as nat),
                opts.remote.bitfield.pager.state(),
                opts.remote.bitfield.offset as nat,
                opts.remote.bitfield.size as nat,
                index as nat,
                opts.digest,
                opts.hash,
            ) == Some((spec_nats(nodes@), v as nat)),
            None => spec_proof(
                spec_bits(pager.pages(), offset as nat, size as nat),
                opts.remote.bitfield.pager.state(),
                opts.remote.bitfield.offset as nat,
                opts.remote.bitfield.size as nat,
                index as nat,
                opts.digest,
                opts.hash,
            ).is_none(),
        },
{
    if !get_in(pager, offset, size, index) {
        return None;
    }
    let ro = opts.remote.bitfield.offset;
    let rs = opts.remote.bitfield.size;
    let hash = opts.hash;
    let digest = opts.digest;
    let mut remote = opts.remote.bitfield.pager;
    let mut nodes: Vec<u64> = Vec::new();
    if hash {
        nodes.push(index);
    }
    proof {
        assert(spec_nats(nodes@) == if hash {
            seq![index as nat]
        } else {
            Seq::<nat>::empty()
        });
    }
    if digest == 1 {
        return Some((nodes, 0));
    }
    proof {
        assert(digest >> 1 == digest / 2) by (bit_vector);
        lemma_set_bit_in_bounds(pager.pages(), offset as nat, size as nat, index as nat);
        lemma_spans(index as nat);
        lemma_pow2_unfold((64 - spec_depth(index as nat)) as nat);
    }
    mark_remote_in(pager, offset, size, &mut remote, ro, rs, index, digest >> 1);
    collect_in(pager, offset, size, &remote, ro, rs, index, nodes)
}


impl TreeBitfield {
    /// The window lies within a page, and every marked node is low enough
    /// for the arithmetic of the tree.
    pub open spec fn wf(&self) -> bool {
        self.bitfield.wf() && spec_low(
            self.bitfield.pager.pages(),
            self.bitfield.offset as nat,
            self.bitfield.size as nat,
        )
    }

    /// The nodes that are marked.
    pub open spec fn view(&self) -> Set<nat> {
        spec_bits(
            self.bitfield.pager.pages(),
            self.bitfield.offset as nat,
            self.bitfield.size as nat,
        )
    }

    /// A tree without marks, on the window of the block bits of a new pager.
    pub fn new() -> (r: TreeBitfield)
        ensures
            r.wf(),
            spec_bounded(r.bitfield.pager.pages()),
            r@ == Set::<nat>::empty(),
            spec_closed(r@),
            r.bitfield.pager.dirty() == Seq::<u64>::empty(),
    {
        let r = TreeBitfield { bitfield: SparseBitfield::new() };
        proof {
            assert forall|n: nat| !spec_bit(r.bitfield.pager.pages(), 0, 1024, n) by {
                lemma_with_bit(0, n, true, n);
            }
            assert(r@ =~= Set::<nat>::empty());
        }
        r
    }

    /// The tree on the window `bitfield`.
    pub fn with_bitfield(bitfield: SparseBitfield) -> (r: TreeBitfield)
        ensures
            r.bitfield == bitfield,
    {
        TreeBitfield { bitfield }
    }

    /// Whether node `index` is marked.
    pub fn get(&self, index: u64) -> (r: bool)
        requires
            self.bitfield.wf(),
        ensures
            r == self@.contains(index as nat),
    {
        self.bitfield.get(index)
    }

    /// Marks the leaf of block `index`, and the ancestors that have both
    /// children marked. Returns `false` where the leaf was marked already.
    pub fn set(&mut self, index: u64) -> (changed: bool)
        requires
            old(self).wf(),
            2 * index < MAX_NODES,
        ensures
            final(self).wf(),
            final(self).bitfield.offset == old(self).bitfield.offset,
            final(self).bitfield.size == old(self).bitfield.size,
            changed == !old(self)@.contains((2 * index) as nat),
            final(self).bitfield.pager.state() == spec_set_node(
                old(self).bitfield.pager.state(),
                old(self).bitfield.offset as nat,
                old(self).bitfield.size as nat,
                (2 * index) as nat,
                true,
            ),
            spec_closed(old(self)@) ==> spec_closed(final(self)@),
    {
        proof {
            if spec_closed(self@) {
                lemma_set_node_closed(
                    self.bitfield.pager.state(),
                    self.bitfield.offset as nat,
                    self.bitfield.size as nat,
                    (2 * index) as nat,
                );
            }
        }
        set_node_in(
            &mut self.bitfield.pager,
            self.bitfield.offset,
            self.bitfield.size,
            index * 2,
            true,
        )
    }

    /// The end of the verified stretch that holds node `index`: the index of
    /// the first leaf after it. `None` where the node is not marked.
    pub fn verfied_by(&self, index: u64) -> (r: Option<u64>)
        requires
            self.wf(),
            spec_bounded(self.bitfield.pager.pages()),
        ensures
            match r {
                Some(v) => spec_verified_by(self@, index as nat) == Some(v as nat) && v % 2 == 0
                    && v > index,
                None => spec_verified_by(self@, index as nat).is_none(),
            },
    {
        proof {
            lemma_verified_by(self@, index as nat);
            if self@.contains(index as nat) {
                lemma_verified_by_after(self@, index as nat);
            }
        }
        verified_by_in(&self.bitfield.pager, self.bitfield.offset, self.bitfield.size, index)
    }

    /// The number of blocks at the start of the log that are verified.
    pub fn blocks(&self) -> (r: u64)
        requires
            self.wf(),
            spec_bounded(self.bitfield.pager.pages()),
        ensures
            r == spec_blocks(self@, spec_len(self.bitfield.pager.pages())),
    {
        blocks_in(&self.bitfield.pager, self.bitfield.offset, self.bitfield.size)
    }

    /// The full roots of the blocks that are verified.
    pub fn roots(&self) -> (r: Vec<u64>)
        requires
            self.wf(),
            spec_bounded(self.bitfield.pager.pages()),
        ensures
            spec_nats(r@) == spec_full_roots(
                2 * spec_blocks(self@, spec_len(self.bitfield.pager.pages())),
            ),
    {
        roots_in(&self.bitfield.pager, self.bitfield.offset, self.bitfield.size)
    }

    /// What of the way from node `index` to the root is verified here, bit by
    /// bit.
    pub fn digest(&self, index: u64) -> (r: u64)
        requires
            self.wf(),
            spec_bounded(self.bitfield.pager.pages()),
            index < MAX_NODES,
        ensures
            r == spec_digest(self@, spec_len(self.bitfield.pager.pages()), index as nat),
    {
        digest_in(&self.bitfield.pager, self.bitfield.offset, self.bitfield.size, index)
    }

    /// The nodes that the remote side needs to verify node `index`, given what
    /// `opts` says of it.
    pub fn proof_of(&self, index: u64, opts: ProofOpts) -> (r: Option<(Vec<u64>, u64)>)
        requires
            self.wf(),
            spec_bounded(self.bitfield.pager.pages()),
            opts.remote.wf(),
            self@.contains(index as nat) ==> spec_digest_fits(index as nat, opts.digest),
        ensures
            match r {
                Some((nodes, v)) => spec_proof(
                    self@,
                    opts.remote.bitfield.pager.state(),
                    opts.remote.bitfield.offset as nat,
                    opts.remote.bitfield.size as nat,
                    index as nat,
                    opts.digest,
                    opts.hash,
                ) == Some((spec_nats(nodes@), v as nat)),
                None => spec_proof(
                    self@,
                    opts.remote.bitfield.pager.state(),
                    opts.remote.bitfield.offset as nat,
                    opts.remote.bitfield.size as nat,
                    index as nat,
                    opts.digest,
                    opts.hash,
                ).is_none(),
            },
    {
        proof_in(&self.bitfield.pager, self.bitfield.offset, self.bitfield.size, index, opts)
    }
}

/// The nodes that are marked are those whose leaves are all among the first
/// `b` blocks.
pub open spec fn spec_marked(t: Set<nat>, b: nat) -> bool {
    forall|n: nat| #[trigger] t.contains(n) <==> spec_complete(n, b)
}

/// Where the first `b` blocks are marked with all the nodes over them, the
/// way down to the right of a marked node whose leaves end before block `b`,
/// with less than its own width between, ends at the leaf of block `b`.
pub proof fn lemma_descend_marked(t: Set<nat>, b: nat, d: nat, o: nat)
    requires
        spec_marked(t, b),
        (o + 1) * pow2(d) <= b < (o + 2) * pow2(d),
    ensures
        (if t.contains(spec_descend(t, spec_index(d, o), d)) {
            spec_descend(t, spec_index(d, o), d) + 2
        } else {
            spec_descend(t, spec_index(d, o), d)
        }) == 2 * b,
    decreases d, 0nat,
{
    lemma2_to64();
    lemma_depth_offset_of_index(d, o);
    lemma_index_step(d, o);
    let top = spec_index(d, o);
    if d == 0 {
        assert((o + 1) * pow2(0) == o + 1);
        assert((o + 2) * pow2(0) == o + 2);
        lemma_complete_index(0, o, b);
    } else {
        lemma_pow2_unfold(d);
        let r = pow2((d - 1) as nat);
        assert(spec_offset_with_depth(top, d) == o);
        assert((2 * o + 2) * r == (o + 1) * (2 * r)) by (nonlinear_arith);
        assert((2 * o + 2 + 2) * r == (o + 2) * (2 * r)) by (nonlinear_arith);
        lemma_sink_marked(t, b, (d - 1) as nat, 2 * o + 2);
    }
}

/// The same for a node that need not be marked, with block `b` under it or
/// under its right neighbour.
pub proof fn lemma_sink_marked(t: Set<nat>, b: nat, e: nat, o: nat)
    requires
        spec_marked(t, b),
        o * pow2(e) <= b < (o + 2) * pow2(e),
    ensures
        (if t.contains(spec_sink(t, spec_index(e, o), e)) {
            spec_sink(t, spec_index(e, o), e) + 2
        } else {
            spec_sink(t, spec_index(e, o), e)
        }) == 2 * b,
    decreases e, 1nat,
{
    lemma2_to64();
    lemma_depth_offset_of_index(e, o);
    lemma_complete_index(e, o, b);
    lemma_index_step(e, o);
    let x = spec_index(e, o);
    if !t.contains(x) && e > 0 {
        lemma_pow2_unfold(e);
        let r = pow2((e - 1) as nat);
        assert(spec_offset_with_depth(x, e) == o);
        assert((2 * o) * r == o * (2 * r)) by (nonlinear_arith);
        assert((2 * o + 2) * r == (o + 1) * (2 * r)) by (nonlinear_arith);
        lemma_sink_marked(t, b, (e - 1) as nat, 2 * o);
        assert(spec_sink(t, x, e) == spec_sink(
            t,
            spec_index((e - 1) as nat, 2 * o),
            (e - 1) as nat,
        ));
    } else if t.contains(x) {
        lemma_descend_marked(t, b, e, o);
        assert(spec_sink(t, x, e) == spec_descend(t, x, e));
    } else {
        assert(e == 0);
        assert(o * pow2(0) == o);
        assert((o + 1) * pow2(0) == o + 1);
        assert((o + 2) * pow2(0) == o + 2);
        assert(spec_sink(t, x, e) == spec_descend(t, x, e));
        assert(spec_descend(t, x, 0) == x);
        assert(x == 2 * o);
        assert(o == b);
    }
}

/// Where the first `b` blocks are marked with all the nodes over them, the
/// climb from a marked node ends at the full root over it: a marked node
/// whose leaves end before block `b`, with less than its own width between.
pub proof fn lemma_climb_marked(t: Set<nat>, b: nat, d: nat, o: nat)
    requires
        spec_marked(t, b),
        b < pow2(60),
        (o + 1) * pow2(d) <= b,
    ensures
        (spec_offset(spec_climb(t, spec_index(d, o), d)) + 1) * pow2(
            spec_depth(spec_climb(t, spec_index(d, o), d)),
        ) <= b,
        b < (spec_offset(spec_climb(t, spec_index(d, o), d)) + 2) * pow2(
            spec_depth(spec_climb(t, spec_index(d, o), d)),
        ),
    decreases 62 - d,
{
    let top = spec_index(d, o);
    let p = pow2(d);
    let h = o / 2;
    lemma_depth_offset_of_index(d, o);
    lemma_depth_offset_of_index(d + 1, h);
    lemma_pow2_pos(d);
    lemma_pow2_unfold(d + 1);
    lemma_parent(top);
    lemma_sibling(top);
    lemma_index_of_depth_offset(spec_parent(top));
    lemma_index_of_depth_offset(spec_sibling(top));
    let up = spec_parent_with_depth(top, d);
    assert(up == spec_parent(top));
    assert(spec_depth(up) == d + 1 && spec_offset(up) == h);
    assert(up == spec_index(d + 1, h));
    assert(d < 60) by {
        if d >= 60 {
            if d > 60 {
                lemma_pow2_strictly_increases(60, d);
            }
            assert((o + 1) * p >= p) by (nonlinear_arith)
                requires
                    p > 0,
            ;
        }
    }
    assert((h + 1) * (2 * p) == (2 * h + 2) * p) by (nonlinear_arith);
    if t.contains(up) {
        assert(spec_complete(up, b));
        assert((crate::flat::spec_flip(o) + 1) * p <= (2 * h + 2) * p) by (nonlinear_arith)
            requires
                crate::flat::spec_flip(o) + 1 <= 2 * h + 2,
                p > 0,
        ;
        assert(spec_complete(spec_sibling(top), b));
        assert(t.contains(spec_sibling(top)));
        lemma_climb_marked(t, b, d + 1, h);
    } else {
        assert(!spec_complete(up, b));
        assert(spec_climb(t, top, d) == top);
        if o % 2 == 1 {
            assert(2 * h + 2 == o + 1);
        } else {
            assert(2 * h + 2 == o + 2);
        }
    }
}

/// Where the first `b` blocks are marked with all the nodes over them, every
/// marked node is verified by the leaf of block `b`: the first index after
/// all that is verified.
pub proof fn lemma_verified_by_marked(t: Set<nat>, b: nat, n: nat)
    requires
        spec_marked(t, b),
        b < pow2(60),
        t.contains(n),
    ensures
        spec_verified_by(t, n) == Some(2 * b),
{
    lemma_index_of_depth_offset(n);
    lemma_climb_marked(t, b, spec_depth(n), spec_offset(n));
    let top = spec_climb(t, n, spec_depth(n));
    lemma_index_of_depth_offset(top);
    lemma_descend_marked(t, b, spec_depth(top), spec_offset(top));
}

/// The marks are closed: a node whose two children are marked is marked.
pub open spec fn spec_closed(t: Set<nat>) -> bool {
    forall|m: nat|
        t.contains(m) && #[trigger] t.contains(spec_sibling(m)) ==> t.contains(spec_parent(m))
}

/// The marks are closed but for the parent of `c`, which may still be
/// missing.
pub open spec fn spec_closed_but(t: Set<nat>, c: nat) -> bool {
    forall|m: nat|
        m != c && spec_sibling(m) != c && t.contains(m) && #[trigger] t.contains(spec_sibling(m))
            ==> t.contains(spec_parent(m))
}

/// The walk up from a node that was just marked closes the marks again.
pub proof fn lemma_walk_up_closed(st: PagerState, offset: nat, size: nat, current: nat, depth: nat)
    requires
        spec_full_pages(st.pages),
        spec_window(offset, size),
        spec_low(st.pages, offset, size),
        current < MAX_NODES,
        depth == spec_depth(current),
        spec_closed_but(spec_bits(st.pages, offset, size), current),
    ensures
        spec_closed(spec_bits(spec_walk_up(st, offset, size, current, depth).pages, offset, size)),
    decreases 62 - depth,
{
    let t = spec_bits(st.pages, offset, size);
    let sib = spec_sibling(current);
    let parent = spec_parent(current);
    lemma_put_bit_low(st, offset, size, current, true);
    if spec_bit(st.pages, offset, size, sib) && !spec_bit(st.pages, offset, size, parent) {
        let next = spec_put_bit(st, offset, size, parent, true);
        let u = spec_bits(next.pages, offset, size);
        lemma_step_low(st.pages, offset, size, current);
        lemma_put_bit_low(st, offset, size, parent, true);
        assert forall|m: nat| u.contains(m) == (m == parent || t.contains(m)) by {
            lemma_set_bit(st.pages, offset, size, parent, true, m);
        }
        assert forall|m: nat|
            m != parent && spec_sibling(m) != parent && u.contains(m) && #[trigger] u.contains(
                spec_sibling(m),
            ) implies u.contains(spec_parent(m)) by {
            lemma_sibling(m);
            assert(t.contains(m) && t.contains(spec_sibling(m)));
        }
        lemma_walk_up_closed(next, offset, size, parent, depth + 1);
    } else {
        assert forall|m: nat| t.contains(m) && #[trigger] t.contains(spec_sibling(m)) implies t.contains(
            spec_parent(m),
        ) by {
            lemma_sibling(m);
        }
    }
}

/// Marking a node keeps the marks closed.
pub proof fn lemma_set_node_closed(st: PagerState, offset: nat, size: nat, node: nat)
    requires
        spec_full_pages(st.pages),
        spec_window(offset, size),
        spec_low(st.pages, offset, size),
        node < MAX_NODES,
        spec_closed(spec_bits(st.pages, offset, size)),
    ensures
        spec_closed(spec_bits(spec_set_node(st, offset, size, node, true).pages, offset, size)),
{
    let t = spec_bits(st.pages, offset, size);
    if !spec_bit(st.pages, offset, size, node) {
        let next = spec_put_bit(st, offset, size, node, true);
        let u = spec_bits(next.pages, offset, size);
        lemma_put_bit_low(st, offset, size, node, true);
        assert forall|m: nat| u.contains(m) == (m == node || t.contains(m)) by {
            lemma_set_bit(st.pages, offset, size, node, true, m);
        }
        assert forall|m: nat|
            m != node && spec_sibling(m) != node && u.contains(m) && #[trigger] u.contains(
                spec_sibling(m),
            ) implies u.contains(spec_parent(m)) by {
            assert(t.contains(m) && t.contains(spec_sibling(m)));
        }
        lemma_walk_up_closed(next, offset, size, node, spec_depth(node));
    }
}

/// Going up the left edge, the highest marked node is the one of the depth
/// of the logarithm of the number of blocks, however far the way goes beyond
/// it.
pub proof fn lemma_highest_marked(t: Set<nat>, b: nat, max: nat, j: nat)
    requires
        spec_marked(t, b),
        1 <= b < pow2(60),
        2 * b <= max + 1,
        j <= 62,
    ensures
        spec_highest(
            t,
            max,
            (pow2(j) - 1) as nat,
            (pow2(
                if j <= spec_log2(b) {
                    j
                } else {
                    spec_log2(b)
                },
            ) - 1) as nat,
            j,
        ) == pow2(spec_log2(b)) - 1,
    decreases 62 - j,
{
    let k = spec_log2(b);
    lemma_log2(b);
    lemma_pow2_pos(j);
    lemma_pow2_pos(k);
    let next = (pow2(j) - 1) as nat;
    lemma_depth_offset_of_index(j, 0);
    lemma_pow2_unfold(j + 1);
    assert(spec_index(j, 0) == next);
    lemma_spans(next);
    if k >= 60 {
        if k > 60 {
            lemma_pow2_strictly_increases(60, k);
        }
        assert(false);
    }
    if j < 62 && spec_right_span(next) < max {
        let up = spec_parent_with_depth(next, j);
        lemma_depth_offset_of_index(j + 1, 0);
        assert(spec_offset_with_depth(next, j) == 0);
        assert(up == spec_index(j + 1, 0));
        lemma_pow2_unfold(j + 2);
        assert(up == pow2(j + 1) - 1);
        lemma_complete_index(j + 1, 0, b);
        assert((0 + 1) * pow2(j + 1) == pow2(j + 1));
        if j + 1 <= k {
            if j + 1 < k {
                lemma_pow2_strictly_increases(j + 1, k);
            }
            assert(t.contains(up));
        } else {
            if j + 1 > k + 1 {
                lemma_pow2_strictly_increases(k + 1, j + 1);
            }
            assert(!t.contains(up));
        }
        lemma_highest_marked(t, b, max, j + 1);
    } else {
        if j < k {
            // The way cannot end below the highest marked node.
            lemma_pow2_strictly_increases(j, k);
            assert(pow2(j + 1) <= pow2(k)) by {
                if j + 1 < k {
                    lemma_pow2_strictly_increases(j + 1, k);
                }
            }
            assert(false);
        }
    }
}

/// Where the first `b` blocks are marked with all the nodes over them, and
/// the window is long enough to hold them, `b` blocks are counted.
pub proof fn lemma_blocks_marked(t: Set<nat>, b: nat, max: nat)
    requires
        spec_marked(t, b),
        b < pow2(60),
        2 * b <= max + 1,
    ensures
        spec_blocks(t, max) == b,
{
    lemma2_to64();
    if b == 0 {
        assert forall|n: nat| !t.contains(n) by {
            lemma_pow2_pos(spec_depth(n));
            assert((spec_offset(n) + 1) * pow2(spec_depth(n)) > 0) by (nonlinear_arith)
                requires
                    pow2(spec_depth(n)) > 0,
            ;
        }
        lemma_highest_none(t, max, 0, 0);
    } else {
        let k = spec_log2(b);
        lemma_log2(b);
        lemma_highest_marked(t, b, max, 0);
        let top = (pow2(k) - 1) as nat;
        assert(spec_highest(t, max, 0, 0, 0) == top);
        lemma_depth_offset_of_index(k, 0);
        lemma_pow2_unfold(k + 1);
        lemma_pow2_pos(k);
        assert(spec_index(k, 0) == top);
        lemma_complete_index(k, 0, b);
        assert((0 + 1) * pow2(k) == pow2(k));
        assert(t.contains(top));
        // The climb ends at once: the parent is not marked.
        lemma_depth_offset_of_index(k + 1, 0);
        lemma_complete_index(k + 1, 0, b);
        assert((0 + 1) * pow2(k + 1) == pow2(k + 1));
        assert(spec_offset_with_depth(top, k) == 0);
        assert(spec_parent_with_depth(top, k) == spec_index(k + 1, 0));
        assert(spec_climb(t, top, k) == top);
        assert((0 + 2) * pow2(k) == pow2(k + 1));
        lemma_descend_marked(t, b, k, 0);
        assert((2 * b) / 2 == b);
    }
}

/// Where nothing is marked, the way up the left edge finds nothing.
pub proof fn lemma_highest_none(t: Set<nat>, max: nat, next: nat, depth: nat)
    requires
        forall|n: nat| !t.contains(n),
    ensures
        spec_highest(t, max, next, 0, depth) == 0,
    decreases 62 - depth,
{
    if depth < 62 && spec_right_span(next) < max {
        lemma_highest_none(t, max, spec_parent_with_depth(next, depth), depth + 1);
    }
}

/// The full roots of the blocks that are verified.
pub fn roots_in(pager: &Pager, offset: usize, size: usize) -> (r: Vec<u64>)
    requires
        pager.wf(),
        spec_bounded(pager.pages()),
        spec_window(offset as nat, size as nat),
    ensures
        spec_nats(r@) == spec_full_roots(
            2 * spec_blocks(
                spec_bits(pager.pages(), offset as nat, size as nat),
                spec_len(pager.pages()),
            ),
        ),
{
    crate::flat::full_roots(2 * blocks_in(pager, offset, size))
}

} // verus!
