//! The Merkle accumulator: the roots of the full subtrees over the blocks of
//! a log, joined two by two as blocks arrive.

use vstd::prelude::*;
use blake2::digest::{Update, VariableOutput};
use vstd::arithmetic::power2::{pow2, lemma_pow2_pos, lemma_pow2_unfold, lemma2_to64, lemma2_to64_rest, lemma_pow2_strictly_increases};
use crate::bytes::{append_bytes, copy_range};
use crate::flat::{spec_complete, spec_depth, spec_index, spec_offset, spec_parent, spec_right_span, spec_right_span_fits, spec_full_roots, spec_roots_from, lemma_depth_offset_of_index, lemma_index_of_depth_offset, lemma_parent, lemma_parent_between, lemma_roots_append, lemma_roots_bounds, lemma_index_step};

verus! {

/// The most blocks that an accumulator takes.
pub const MAX_BLOCKS: u64 = 0x1000_0000_0000_0000;

/// The BLAKE2b hash of `data` with 32 bytes of output.
pub uninterp spec fn spec_blake2b_256(data: Seq<u8>) -> Seq<u8>;

/// `blake2::Blake2bVar` made for 32 bytes of output, fed `data` once and
/// finalized: the result is the BLAKE2b-256 hash of `data`, a function of the
/// bytes alone.
#[verifier::external_body]
fn blake2b_256(data: &[u8]) -> (r: [u8; 32])
    ensures
        r@ == spec_blake2b_256(data@),
{
    let mut hasher = blake2::Blake2bVar::new(32).unwrap();
    hasher.update(data);
    let mut out = [0u8; 32];
    hasher.finalize_variable(&mut out).unwrap();
    out
}

/// A hash function with 32 bytes of output.
pub trait Hasher {
    /// The hash of `data`.
    spec fn spec_hash(data: Seq<u8>) -> Seq<u8>;

    fn hash(data: &[u8]) -> (r: [u8; 32])
        ensures
            r@ == Self::spec_hash(data@),
    ;
}

/// BLAKE2b with 32 bytes of output.
pub struct Blake2b;

impl Hasher for Blake2b {
    open spec fn spec_hash(data: Seq<u8>) -> Seq<u8> {
        spec_blake2b_256(data)
    }

    fn hash(data: &[u8]) -> (r: [u8; 32]) {
        blake2b_256(data)
    }
}

/// What a node holds.
pub struct NodeView {
    pub index: u64,
    pub parent: u64,
    pub length: u64,
    pub data: Option<Seq<u8>>,
    pub hash: Seq<u8>,
}

/// A node of the tree: its place, the bytes of log below it, its hash, and
/// for a leaf the block itself.
#[derive(Debug)]
pub struct Node {
    pub index: u64,
    pub parent: u64,
    pub length: u64,
    pub data: Option<Vec<u8>>,
    pub hash: [u8; 32],
}

impl View for Node {
    type V = NodeView;

    open spec fn view(&self) -> NodeView {
        NodeView {
            index: self.index,
            parent: self.parent,
            length: self.length,
            data: match self.data {
                Some(d) => Some(d@),
                None => None,
            },
            hash: self.hash@,
        }
    }
}

impl Clone for Node {
    fn clone(&self) -> (r: Node)
        ensures
            r@ == self@,
    {
        let data = match &self.data {
            Some(d) => Some(copy_range(d.as_slice(), 0, d.len())),
            None => None,
        };
        proof {
            if self.data.is_some() {
                let d = self.data.unwrap()@;
                assert(d.subrange(0, d.len() as int) =~= d);
            }
        }
        Node { index: self.index, parent: self.parent, length: self.length, data, hash: self.hash }
    }
}

/// The length of block `i` of the log; 0 where the log has no such block.
pub open spec fn spec_block_len(log: Seq<Seq<u8>>, i: nat) -> nat {
    if i < log.len() {
        log[i as int].len()
    } else {
        0
    }
}

/// The sum of the lengths of the blocks under the node at `depth` and
/// `offset`.
pub open spec fn spec_node_len(log: Seq<Seq<u8>>, depth: nat, offset: nat) -> nat
    decreases depth,
{
    if depth == 0 {
        spec_block_len(log, offset)
    } else {
        spec_node_len(log, (depth - 1) as nat, 2 * offset) + spec_node_len(
            log,
            (depth - 1) as nat,
            2 * offset + 1,
        )
    }
}

/// The hash of the node at `depth` and `offset`: of a leaf, the hash of its
/// block; of another node, the hash of its children's hashes, left then right.
pub open spec fn spec_node_hash<H: Hasher>(log: Seq<Seq<u8>>, depth: nat, offset: nat) -> Seq<u8>
    decreases depth,
{
    if depth == 0 {
        H::spec_hash(
            if offset < log.len() {
                log[offset as int]
            } else {
                Seq::empty()
            },
        )
    } else {
        H::spec_hash(
            spec_node_hash::<H>(log, (depth - 1) as nat, 2 * offset) + spec_node_hash::<H>(
                log,
                (depth - 1) as nat,
                2 * offset + 1,
            ),
        )
    }
}

/// The sum of the lengths of the blocks `from` to `to - 1` of the log.
pub open spec fn spec_log_len(log: Seq<Seq<u8>>, from: nat, to: nat) -> nat
    decreases to,
{
    if to <= from {
        0
    } else {
        spec_log_len(log, from, (to - 1) as nat) + spec_block_len(log, (to - 1) as nat)
    }
}

/// The node holds the length and the hash that the log gives the node of its
/// index, and its parent's index.
pub open spec fn spec_true_node<H: Hasher>(node: NodeView, log: Seq<Seq<u8>>) -> bool {
    &&& node.parent == spec_parent(node.index as nat)
    &&& node.length == spec_node_len(
        log,
        spec_depth(node.index as nat),
        spec_offset(node.index as nat),
    )
    &&& node.hash == spec_node_hash::<H>(
        log,
        spec_depth(node.index as nat),
        spec_offset(node.index as nat),
    )
}

/// What the nodes hold.
pub open spec fn spec_views(nodes: Seq<Node>) -> Seq<NodeView> {
    Seq::new(nodes.len(), |i: int| nodes[i]@)
}

/// The leaf of a block.
pub open spec fn spec_leaf<H: Hasher>(index: u64, data: Seq<u8>) -> NodeView {
    NodeView {
        index,
        parent: spec_parent(index as nat) as u64,
        length: data.len() as u64,
        data: Some(data),
        hash: H::spec_hash(data),
    }
}

/// The parent of two nodes: its length is the sum of theirs, its hash the
/// hash of theirs, left then right.
pub open spec fn spec_join<H: Hasher>(left: NodeView, right: NodeView) -> NodeView {
    NodeView {
        index: left.parent,
        parent: spec_parent(left.parent as nat) as u64,
        length: (left.length + right.length) as u64,
        data: None,
        hash: H::spec_hash(left.hash + right.hash),
    }
}

/// The roots, and the nodes made, after the last two roots were joined as
/// long as they had the same parent.
pub open spec fn spec_joined<H: Hasher>(roots: Seq<NodeView>, made: Seq<NodeView>) -> (
    Seq<NodeView>,
    Seq<NodeView>,
)
    decreases roots.len(),
{
    if roots.len() > 1 && roots[roots.len() - 2].parent == roots[roots.len() - 1].parent {
        let parent = spec_join::<H>(roots[roots.len() - 2], roots[roots.len() - 1]);
        spec_joined::<H>(roots.drop_last().drop_last().push(parent), made.push(parent))
    } else {
        (roots, made)
    }
}

/// The roots after a block was taken in, and the nodes made for it.
pub open spec fn spec_inserted<H: Hasher>(roots: Seq<NodeView>, blocks: u64, data: Seq<u8>) -> (
    Seq<NodeView>,
    Seq<NodeView>,
) {
    spec_joined::<H>(
        roots.push(spec_leaf::<H>((2 * blocks) as u64, data)),
        seq![spec_leaf::<H>((2 * blocks) as u64, data)],
    )
}

/// The indices of the nodes.
pub open spec fn spec_indices(nodes: Seq<Node>) -> Seq<nat> {
    Seq::new(nodes.len(), |i: int| nodes[i].index as nat)
}

/// The sum of the lengths that the nodes hold.
pub open spec fn spec_sum(nodes: Seq<Node>) -> nat
    decreases nodes.len(),
{
    if nodes.len() == 0 {
        0
    } else {
        spec_sum(nodes.drop_last()) + nodes.last().length as nat
    }
}

impl Node {
    /// A node without data, with a hash that is known.
    pub fn with_hash(idx: u64, hash: &[u8], length: u64) -> (r: Node)
        requires
            hash@.len() == 32,
            spec_depth(idx as nat) < 62,
        ensures
            r.index == idx,
            r.parent == spec_parent(idx as nat),
            r.length == length,
            r.data.is_none(),
            r.hash@ == hash@,
    {
        let mut arr = [0u8; 32];
        let mut i: usize = 0;
        while i < 32
            invariant
                i <= 32,
                hash@.len() == 32,
                forall|j: int| 0 <= j < i ==> arr@[j] == hash@[j],
            decreases 32 - i,
        {
            arr[i] = hash[i];
            i += 1;
        }
        assert(arr@ =~= hash@);
        Node { index: idx, parent: crate::flat::parent(idx), length, data: None, hash: arr }
    }

    /// The leaf of a block.
    pub fn with_data<H: Hasher>(idx: u64, data: Vec<u8>) -> (r: Node)
        requires
            spec_depth(idx as nat) < 62,
        ensures
            r.index == idx,
            r.parent == spec_parent(idx as nat),
            r.length == data@.len(),
            r@.data == Some(data@),
            r.hash@ == H::spec_hash(data@),
    {
        let arr = H::hash(data.as_slice());
        Node {
            index: idx,
            parent: crate::flat::parent(idx),
            length: data.len() as u64,
            data: Some(data),
            hash: arr,
        }
    }

    /// The parent of two nodes.
    pub fn with_nodes<H: Hasher>(left: &Node, right: &Node) -> (r: Node)
        requires
            spec_depth(left.parent as nat) < 62,
            left.length + right.length <= u64::MAX,
        ensures
            r.index == left.parent,
            r.parent == spec_parent(left.parent as nat),
            r.length == left.length + right.length,
            r.data.is_none(),
            r.hash@ == H::spec_hash(left.hash@ + right.hash@),
    {
        let mut both: Vec<u8> = Vec::with_capacity(64);
        append_bytes(&mut both, left.hash.as_slice());
        append_bytes(&mut both, right.hash.as_slice());
        let arr = H::hash(both.as_slice());
        Node {
            index: left.parent,
            parent: crate::flat::parent(left.parent),
            length: left.length + right.length,
            data: None,
            hash: arr,
        }
    }
}

/// The accumulator: the roots of the full subtrees over the blocks so far.
#[derive(Debug)]
pub struct Tree {
    pub roots: Vec<Node>,
    pub blocks: u64,
}

/// Blocks beyond the end of the log do not count: a node whose leaves all
/// lie within the log keeps its length and hash when the log grows.
pub proof fn lemma_node_grows<H: Hasher>(log: Seq<Seq<u8>>, block: Seq<u8>, depth: nat, offset: nat)
    requires
        (offset + 1) * pow2(depth) <= log.len(),
    ensures
        spec_node_len(log.push(block), depth, offset) == spec_node_len(log, depth, offset),
        spec_node_hash::<H>(log.push(block), depth, offset) == spec_node_hash::<H>(
            log,
            depth,
            offset,
        ),
    decreases depth,
{
    lemma2_to64();
    lemma_pow2_pos(depth);
    if depth == 0 {
        assert((offset + 1) * pow2(0) == offset + 1);
        assert(log.push(block)[offset as int] == log[offset as int]);
    } else {
        lemma_pow2_unfold(depth);
        let r = pow2((depth - 1) as nat);
        assert((2 * offset + 2) * r == (offset + 1) * (2 * r)) by (nonlinear_arith);
        assert((2 * offset + 1) * r <= (2 * offset + 2) * r) by (nonlinear_arith)
            requires
                r >= 0,
        ;
        lemma_node_grows::<H>(log, block, (depth - 1) as nat, 2 * offset);
        lemma_node_grows::<H>(log, block, (depth - 1) as nat, 2 * offset + 1);
    }
}

/// The length of a node is the sum of the lengths of the blocks under it.
pub proof fn lemma_node_len(log: Seq<Seq<u8>>, depth: nat, offset: nat)
    ensures
        spec_node_len(log, depth, offset) == spec_log_len(
            log,
            offset * pow2(depth),
            (offset + 1) * pow2(depth),
        ),
    decreases depth,
{
    lemma2_to64();
    lemma_pow2_pos(depth);
    if depth == 0 {
        assert(offset * pow2(0) == offset);
        assert((offset + 1) * pow2(0) == offset + 1);
        assert(spec_log_len(log, offset, offset) == 0);
    } else {
        lemma_pow2_unfold(depth);
        let r = pow2((depth - 1) as nat);
        lemma_node_len(log, (depth - 1) as nat, 2 * offset);
        lemma_node_len(log, (depth - 1) as nat, 2 * offset + 1);
        assert((2 * offset) * r == offset * (2 * r)) by (nonlinear_arith);
        assert((2 * offset + 1 + 1) * r == (offset + 1) * (2 * r)) by (nonlinear_arith);
        assert((2 * offset) * r <= (2 * offset + 1) * r <= (2 * offset + 2) * r)
            by (nonlinear_arith)
            requires
                r >= 0,
        ;
        lemma_log_len_split(
            log,
            (2 * offset) * r,
            (2 * offset + 1) * r,
            (2 * offset + 2) * r,
        );
    }
}

/// The lengths of two stretches of blocks that meet add up.
pub proof fn lemma_log_len_split(log: Seq<Seq<u8>>, a: nat, b: nat, c: nat)
    requires
        a <= b <= c,
    ensures
        spec_log_len(log, a, b) + spec_log_len(log, b, c) == spec_log_len(log, a, c),
    decreases c,
{
    if c > b {
        lemma_log_len_split(log, a, b, (c - 1) as nat);
    }
}

/// The full roots of `(o + 1) * 2^d` leaves, for an even `o`, are those of
/// the first `o * 2^d` leaves and the node at depth `d` and offset `o`.
pub proof fn lemma_join_even(d: nat, o: nat)
    requires
        o % 2 == 0,
    ensures
        spec_roots_from(0, (o + 1) * pow2(d)) == spec_roots_from(0, o * pow2(d)).push(
            spec_index(d, o),
        ),
{
    let t = o / 2;
    let p = pow2(d);
    lemma_pow2_unfold(d + 1);
    lemma_pow2_pos(d);
    lemma_roots_append(0, d, t);
    assert(t * pow2(d + 1) == o * p) by (nonlinear_arith)
        requires
            o == 2 * t,
            pow2(d + 1) == 2 * p,
    ;
    assert((o + 1) * p == o * p + p) by (nonlinear_arith);
    assert(o * pow2(d + 1) == 2 * (o * p)) by (nonlinear_arith)
        requires
            pow2(d + 1) == 2 * p,
    ;
}

/// For an odd `o`, the node at depth `d` and offset `o - 1` is the last of
/// the full roots of `o * 2^d` leaves, and the parent of the nodes at offsets
/// `o - 1` and `o` is the node at depth `d + 1` and offset `(o - 1) / 2`.
pub proof fn lemma_join_odd(d: nat, o: nat)
    requires
        o % 2 == 1,
    ensures
        spec_roots_from(0, o * pow2(d)) == spec_roots_from(0, (o - 1) as nat * pow2(d)).push(
            spec_index(d, (o - 1) as nat),
        ),
        spec_parent(spec_index(d, (o - 1) as nat)) == spec_index(d + 1, o / 2),
        spec_parent(spec_index(d, o)) == spec_index(d + 1, o / 2),
        (o / 2) * pow2(d + 1) == (o - 1) * pow2(d),
        (o / 2 + 1) * pow2(d + 1) == (o + 1) * pow2(d),
        spec_depth(spec_index(d, (o - 1) as nat)) == d,
        spec_offset(spec_index(d, (o - 1) as nat)) == o - 1,
        spec_depth(spec_index(d, o)) == d,
        spec_offset(spec_index(d, o)) == o,
        spec_depth(spec_index(d + 1, o / 2)) == d + 1,
        spec_offset(spec_index(d + 1, o / 2)) == o / 2,
{
    let t = o / 2;
    let p = pow2(d);
    lemma_pow2_unfold(d + 1);
    lemma_pow2_pos(d);
    lemma_join_even(d, (o - 1) as nat);
    lemma_depth_offset_of_index(d, (o - 1) as nat);
    lemma_depth_offset_of_index(d, o);
    lemma_depth_offset_of_index(d + 1, t);
    assert(t * pow2(d + 1) == (o - 1) * p) by (nonlinear_arith)
        requires
            o == 2 * t + 1,
            pow2(d + 1) == 2 * p,
    ;
    assert((t + 1) * pow2(d + 1) == (o + 1) * p) by (nonlinear_arith)
        requires
            o == 2 * t + 1,
            pow2(d + 1) == 2 * p,
    ;
    assert(((o - 1) as nat + 1) * p == o * p);
}

/// For an even `o`, the node at depth `d` and offset `o` has no sibling
/// among the full roots before it.
pub proof fn lemma_join_differs(d: nat, o: nat, left: nat)
    requires
        o % 2 == 0,
        left < 2 * (o * pow2(d)),
    ensures
        spec_parent(left) != spec_parent(spec_index(d, o)),
{
    let right = spec_index(d, o);
    let p = pow2(d);
    lemma_pow2_unfold(d + 1);
    lemma_pow2_pos(d);
    lemma_depth_offset_of_index(d, o);
    lemma_parent_between(right);
    lemma_parent(right);
    lemma_parent_between(left);
    lemma_parent(left);
    assert(o * pow2(d + 1) == 2 * (o * p)) by (nonlinear_arith)
        requires
            pow2(d + 1) == 2 * p,
    ;
    if spec_parent(left) == spec_parent(right) {
        assert(spec_depth(left) == d);
        assert(false);
    }
}

/// Every full root of `b` blocks has its leaves among those blocks.
pub proof fn lemma_root_within(b: nat, i: int)
    requires
        0 <= i < spec_roots_from(0, b).len(),
    ensures
        (spec_offset(spec_roots_from(0, b)[i]) + 1) * pow2(spec_depth(spec_roots_from(0, b)[i]))
            <= b,
    decreases b,
{
    if b > 0 {
        let n = (b - 1) as nat;
        let d = spec_depth(n);
        let h = spec_offset(n);
        let o = 2 * h;
        let p = pow2(d);
        lemma_index_of_depth_offset(n);
        lemma_pow2_pos(d);
        assert(b == (o + 1) * p);
        lemma_join_even(d, o);
        assert(o * p < b) by (nonlinear_arith)
            requires
                b == (o + 1) * p,
                p > 0,
        ;
        let before = spec_roots_from(0, o * p);
        if i < before.len() {
            lemma_root_within(o * p, i);
            let r = before[i];
            assert(spec_roots_from(0, b)[i] == r);
        } else {
            lemma_depth_offset_of_index(d, o);
        }
    }
}

/// The lengths of the full roots of `b` blocks add up to the length of those
/// blocks: the byte offset of block `b`.
pub open spec fn spec_roots_len(log: Seq<Seq<u8>>, roots: Seq<nat>) -> nat
    decreases roots.len(),
{
    if roots.len() == 0 {
        0
    } else {
        spec_roots_len(log, roots.drop_last()) + spec_node_len(
            log,
            spec_depth(roots.last()),
            spec_offset(roots.last()),
        )
    }
}

/// The sum of the lengths of the full roots below the even index `2 * b` is
/// the byte offset of block `b`.
pub proof fn lemma_roots_len(log: Seq<Seq<u8>>, b: nat)
    ensures
        spec_roots_len(log, spec_full_roots(2 * b)) == spec_log_len(log, 0, b),
    decreases b,
{
    assert((2 * b) / 2 == b);
    if b == 0 {
        assert(spec_roots_from(0, 0) =~= Seq::<nat>::empty());
    } else {
        let n = (b - 1) as nat;
        let d = spec_depth(n);
        let h = spec_offset(n);
        let o = 2 * h;
        let p = pow2(d);
        lemma_index_of_depth_offset(n);
        lemma_pow2_pos(d);
        assert(b == (o + 1) * p);
        lemma_join_even(d, o);
        assert(o * p < b) by (nonlinear_arith)
            requires
                b == (o + 1) * p,
                p > 0,
        ;
        lemma_roots_len(log, o * p);
        assert((2 * (o * p)) / 2 == o * p);
        let before = spec_roots_from(0, o * p);
        let all = spec_roots_from(0, b);
        assert(all.drop_last() =~= before);
        lemma_depth_offset_of_index(d, o);
        lemma_node_len(log, d, o);
        lemma_log_len_split(log, 0, o * p, b);
    }
}

impl Tree {
    /// The roots are the full roots of the blocks, each knows its parent,
    /// and their lengths add up within 64 bits.
    pub open spec fn wf(&self) -> bool {
        &&& self.blocks < MAX_BLOCKS
        &&& spec_indices(self.roots@) == spec_full_roots((2 * self.blocks) as nat)
        &&& forall|i: int|
            0 <= i < self.roots@.len() ==> (#[trigger] self.roots@[i]).parent == spec_parent(
                self.roots@[i].index as nat,
            )
        &&& spec_sum(self.roots@) <= u64::MAX
    }

    /// Every root holds the length and the hash that the log gives it.
    pub open spec fn spec_holds<H: Hasher>(&self, log: Seq<Seq<u8>>) -> bool {
        &&& self.blocks == log.len()
        &&& spec_all_true::<H>(self.roots@, log)
    }

    /// An accumulator without blocks.
    pub fn new() -> (r: Tree)
        ensures
            r.wf(),
            r.blocks == 0,
            r.roots@.len() == 0,
            forall|log: Seq<Seq<u8>>|
                log.len() == 0 ==> #[trigger] r.spec_holds::<Blake2b>(log),
    {
        let r = Tree { roots: Vec::with_capacity(2), blocks: 0 };
        proof {
            assert(spec_indices(r.roots@) =~= spec_full_roots(0));
        }
        r
    }

    /// The accumulator that holds `roots`: the number of blocks is taken
    /// from the last of them.
    pub fn with_roots(roots: Vec<Node>) -> (r: Tree)
        requires
            roots@.len() > 0 ==> spec_depth(roots@.last().index as nat) < 63 && spec_right_span_fits(
                roots@.last().index as nat,
            ),
        ensures
            r.roots == roots,
            r.blocks == if roots@.len() > 0 {
                1 + spec_right_span(roots@.last().index as nat) / 2
            } else {
                0
            },
    {
        let blocks = if roots.len() > 0 {
            1 + crate::flat::right_span(roots[roots.len() - 1].index) / 2
        } else {
            0
        };
        Tree { roots, blocks }
    }

    /// Takes a block in: its leaf becomes the last root, and as long as the
    /// last two roots are the children of one parent, that parent takes their
    /// place. Returns the nodes made: the leaf, then the parents, lowest first.
    pub fn insert<H: Hasher>(&mut self, data: Vec<u8>) -> (r: Vec<Node>)
        requires
            old(self).wf(),
            old(self).blocks + 1 < MAX_BLOCKS,
            spec_sum(old(self).roots@) + data@.len() <= u64::MAX,
        ensures
            final(self).wf(),
            final(self).blocks == old(self).blocks + 1,
            (spec_views(final(self).roots@), spec_views(r@)) == spec_inserted::<H>(
                spec_views(old(self).roots@),
                old(self).blocks,
                data@,
            ),
            spec_sum(final(self).roots@) == spec_sum(old(self).roots@) + data@.len(),
            r@.len() == spec_depth(old(self).blocks as nat) + 1,
            r@[0]@.data == Some(data@),
            r@[0].index == 2 * old(self).blocks,
            r@[0].length == data@.len(),
            forall|j: int|
                0 <= j < r@.len() ==> (#[trigger] r@[j]).index == spec_index(
                    j as nat,
                    old(self).blocks as nat / pow2(j as nat),
                ),
            forall|j: int|
                0 <= j < r@.len() ==> (#[trigger] r@[j]).parent == spec_parent(r@[j].index as nat),
            forall|j: int|
                0 <= j < r@.len() ==> spec_depth((#[trigger] r@[j]).index as nat) == j
                    && r@[j].index <= 2 * old(self).blocks && spec_complete(
                    r@[j].index as nat,
                    (old(self).blocks + 1) as nat,
                ) && !spec_complete(r@[j].index as nat, old(self).blocks as nat),
            forall|j: int| 1 <= j < r@.len() ==> (#[trigger] r@[j]).data.is_none(),
            forall|j: int| 0 <= j < r@.len() ==> (#[trigger] r@[j]).length >= data@.len(),
            forall|log: Seq<Seq<u8>>| #[trigger]
                old(self).spec_holds::<H>(log) ==> final(self).spec_holds::<H>(log.push(data@))
                    && spec_all_true::<H>(r@, log.push(data@)),
    {
        let ghost before = self.roots@;
        let ghost total = (self.blocks + 1) as nat;
        let ghost block = data@;
        let mut nodes: Vec<Node> = Vec::new();
        proof {
            lemma2_to64();
            lemma2_to64_rest();
            lemma_index_step(0, self.blocks as nat);
            lemma_depth_offset_of_index(0, self.blocks as nat);
        }
        let node = Node::with_data::<H>(self.blocks * 2, data);
        self.blocks += 1;
        self.roots.push(node.clone());
        nodes.push(node);
        let ghost target = spec_inserted::<H>(spec_views(before), (total - 1) as u64, block);
        proof {
            lemma_parent_fits_small((2 * (total - 1)) as u64);
            assert(spec_views(self.roots@) =~= spec_views(before).push(
                spec_leaf::<H>((2 * (total - 1)) as u64, block),
            ));
            assert(spec_views(nodes@) =~= seq![spec_leaf::<H>((2 * (total - 1)) as u64, block)]);
        }
        let ghost mut d: nat = 0;
        let ghost mut o: nat = (total - 1) as nat;
        proof {
            assert(spec_indices(self.roots@).drop_last() =~= spec_indices(before));
            assert((total - 1) as nat / 1 == total - 1);
            lemma_newly(0, (total - 1) as nat, total);
            assert(((total - 1) as nat) * pow2(0) == total - 1);
            assert(total * pow2(0) == total);
            assert(self.roots@.drop_last() =~= before);
            assert forall|log: Seq<Seq<u8>>| #[trigger]
                spec_all_true::<H>(before, log) && log.len() == total - 1 implies spec_all_true::<H>(
                self.roots@,
                log.push(block),
            ) && spec_all_true::<H>(nodes@, log.push(block)) by {
                let grown = log.push(block);
                assert forall|i: int| 0 <= i < self.roots@.len() implies spec_true_node::<H>(
                    (#[trigger] self.roots@[i])@,
                    grown,
                ) by {
                    if i < before.len() {
                        assert(self.roots@[i] == before[i]);
                        assert(spec_true_node::<H>(before[i]@, log));
                        let r = before[i].index as nat;
                        assert(spec_indices(before)[i] == r);
                        assert((2 * (total - 1)) / 2 == total - 1);
                        lemma_root_within((total - 1) as nat, i);
                        lemma_node_grows::<H>(log, block, spec_depth(r), spec_offset(r));
                    } else {
                        assert(grown[total - 1] == block);
                    }
                }
                assert(nodes@[0]@ == self.roots@[before.len() as int]@);
            }
        }
        let mut going = true;
        while going && self.roots.len() > 1
            invariant
                total == old(self).blocks + 1,
                total < MAX_BLOCKS,
                self.blocks == total,
                before == old(self).roots@,
                self.roots@.len() >= 1,
                spec_indices(self.roots@).last() == spec_index(d, o),
                (o + 1) * pow2(d) == total,
                spec_indices(self.roots@).drop_last() == spec_roots_from(0, o * pow2(d)),
                !going ==> spec_indices(self.roots@) == spec_roots_from(0, total),
                going ==> spec_joined::<H>(spec_views(self.roots@), spec_views(nodes@)) == target,
                !going ==> (spec_views(self.roots@), spec_views(nodes@)) == target,
                forall|i: int|
                    0 <= i < self.roots@.len() ==> (#[trigger] self.roots@[i]).parent == spec_parent(
                        self.roots@[i].index as nat,
                    ),
                spec_sum(self.roots@) == spec_sum(before) + block.len(),
                spec_sum(self.roots@) <= u64::MAX,
                nodes@.len() == d + 1,
                o == (total - 1) as nat / pow2(d),
                forall|j: int|
                    0 <= j < nodes@.len() ==> (#[trigger] nodes@[j]).index == spec_index(
                        j as nat,
                        (total - 1) as nat / pow2(j as nat),
                    ),
                !going ==> o % 2 == 0,
                forall|j: int|
                    0 <= j < nodes@.len() ==> spec_depth((#[trigger] nodes@[j]).index as nat) == j
                        && nodes@[j].index <= 2 * (total - 1) && spec_complete(
                        nodes@[j].index as nat,
                        total,
                    ) && !spec_complete(nodes@[j].index as nat, (total - 1) as nat),
                forall|j: int| 0 <= j < nodes@.len() ==> (#[trigger] nodes@[j]).length >= block.len(),
                nodes@.last().length == self.roots@.last().length,
                nodes@[0]@.data == Some(block),
                nodes@[0].index == 2 * (total - 1),
                nodes@[0].length == block.len(),
                forall|j: int|
                    0 <= j < nodes@.len() ==> (#[trigger] nodes@[j]).parent == spec_parent(
                        nodes@[j].index as nat,
                    ),
                forall|j: int| 1 <= j < nodes@.len() ==> (#[trigger] nodes@[j]).data.is_none(),
                forall|log: Seq<Seq<u8>>| #[trigger]
                    spec_all_true::<H>(before, log) && log.len() == total - 1 ==> spec_all_true::<H>(
                        self.roots@,
                        log.push(block),
                    ) && spec_all_true::<H>(nodes@, log.push(block)),
            decreases self.roots@.len() + if going { 1int } else { 0int },
        {
            let n = self.roots.len();
            let ghost cur = self.roots@;
            let ghost idx = spec_indices(cur);
            proof {
                assert(idx[n - 1] == cur[n - 1].index);
                assert(idx.drop_last()[n - 2] == cur[n - 2].index);
                lemma_roots_bounds(0, o * pow2(d), n - 2);
                lemma_pow2_pos(d);
            }
            if self.roots[n - 2].parent != self.roots[n - 1].parent {
                proof {
                    assert(spec_views(cur)[n - 2] == cur[n - 2]@);
                    assert(spec_views(cur)[n - 1] == cur[n - 1]@);
                    if o % 2 == 1 {
                        lemma_join_odd(d, o);
                        assert(idx.drop_last().last() == spec_index(d, (o - 1) as nat));
                        assert(cur[n - 2].index == spec_index(d, (o - 1) as nat));
                        assert(cur[n - 2].parent == spec_parent(cur[n - 2].index as nat));
                        assert(cur[n - 1].parent == spec_parent(cur[n - 1].index as nat));
                        assert(false);
                    }
                    lemma_join_even(d, o);
                    assert(idx =~= idx.drop_last().push(idx.last()));
                }
                going = false;
            } else {
                proof {
                    if o % 2 == 0 {
                        lemma_join_differs(d, o, cur[n - 2].index as nat);
                    }
                    lemma_join_odd(d, o);
                    assert(cur[n - 2].index == spec_index(d, (o - 1) as nat));
                    assert(pow2(d + 1) <= total) by (nonlinear_arith)
                        requires
                            (o / 2 + 1) * pow2(d + 1) == total,
                    ;
                    lemma2_to64_rest();
                    assert(total < pow2(60));
                    if d + 1 >= 60 {
                        if d + 1 > 60 {
                            lemma_pow2_strictly_increases(60, d + 1);
                        }
                        assert(false);
                    }
                    assert(cur.drop_last().drop_last().push(cur[n - 2]).push(cur[n - 1]) =~= cur);
                    assert(cur.drop_last().last() == cur[n - 2]);
                    assert(spec_sum(cur.drop_last()) == spec_sum(cur.drop_last().drop_last())
                        + cur[n - 2].length);
                    assert(spec_sum(cur) == spec_sum(cur.drop_last().drop_last()) + cur[n
                        - 2].length + cur[n - 1].length);
                }
                let right = self.roots.pop().unwrap();
                let left = self.roots.pop().unwrap();
                let parent = Node::with_nodes::<H>(&left, &right);
                let ghost rest = self.roots@;
                let ghost made = nodes@;
                self.roots.push(parent.clone());
                nodes.push(parent);
                proof {
                    let now = self.roots@;
                    lemma_parent_fits_small(left.parent);
                    assert(parent@ == spec_join::<H>(cur[n - 2]@, cur[n - 1]@));
                    assert(spec_views(cur)[n - 2] == cur[n - 2]@);
                    assert(spec_views(cur)[n - 1] == cur[n - 1]@);
                    assert(spec_views(now) =~= spec_views(cur).drop_last().drop_last().push(parent@));
                    assert(spec_views(nodes@) =~= spec_views(made).push(parent@));
                    assert(rest =~= cur.drop_last().drop_last());
                    assert(now.drop_last() =~= rest);
                    assert(spec_indices(now).drop_last() =~= idx.drop_last().drop_last());
                    assert(idx.drop_last().drop_last() =~= spec_roots_from(
                        0,
                        (o - 1) as nat * pow2(d),
                    ));
                    assert forall|log: Seq<Seq<u8>>| #[trigger]
                        spec_all_true::<H>(before, log) && log.len() == total
                            - 1 implies spec_all_true::<H>(now, log.push(block))
                        && spec_all_true::<H>(nodes@, log.push(block)) by {
                        let grown = log.push(block);
                        assert(spec_all_true::<H>(cur, grown));
                        assert(spec_true_node::<H>(cur[n - 2]@, grown));
                        assert(spec_true_node::<H>(cur[n - 1]@, grown));
                        assert(2 * (o / 2) == o - 1);
                        assert(spec_true_node::<H>(now.last()@, grown));
                        assert forall|i: int| 0 <= i < now.len() implies spec_true_node::<H>(
                            (#[trigger] now[i])@,
                            grown,
                        ) by {
                            if i < now.len() - 1 {
                                assert(now[i] == cur[i]);
                            }
                        }
                        assert(nodes@.last()@ == now.last()@);
                    }
                    lemma_newly(d + 1, o / 2, total);
                    lemma_pow2_unfold(d + 1);
                    vstd::arithmetic::div_mod::lemma_div_denominator(
                        (total - 1) as int,
                        pow2(d) as int,
                        2,
                    );
                    assert(pow2(d) * 2 == pow2(d + 1));
                    d = d + 1;
                    o = o / 2;
                }
            }
        }
        proof {
            if going {
                assert(self.roots@.len() == 1);
                assert(spec_indices(self.roots@).drop_last().len() == 0);
                lemma_pow2_pos(d);
                if o > 0 {
                    assert(o * pow2(d) > 0) by (nonlinear_arith)
                        requires
                            o > 0,
                            pow2(d) > 0,
                    ;
                    lemma_floor_nonempty(o * pow2(d));
                }
                lemma_join_even(d, 0);
                assert(0 * pow2(d) == 0);
                assert(spec_indices(self.roots@) =~= spec_indices(self.roots@).drop_last().push(
                    spec_indices(self.roots@).last(),
                ));
            }
            assert((2 * total) / 2 == total);
            if going {
                assert(o == 0) by {
                    if o > 0 {
                        assert(o * pow2(d) > 0) by (nonlinear_arith)
                            requires
                                o > 0,
                                pow2(d) > 0,
                        ;
                        lemma_floor_nonempty(o * pow2(d));
                    }
                }
            }
            lemma_depth_offset_of_index(d, o / 2);
            assert((2 * (o / 2) + 1) * pow2(d) == (o + 1) * pow2(d));
        }
        nodes
    }
}

/// The nodes that become complete with block `b` are the leaf of `b` and
/// those of its ancestors that have it as their last leaf: one at each depth up
/// to the number of one bits at the end of `b`.
pub proof fn lemma_newly_complete(b: nat, n: nat)
    requires
        spec_complete(n, b + 1),
        !spec_complete(n, b),
    ensures
        spec_depth(n) <= spec_depth(b),
        n == spec_index(spec_depth(n), b / pow2(spec_depth(n))),
{
    let j = spec_depth(n);
    let o = spec_offset(n);
    let p = pow2(j);
    lemma_pow2_pos(j);
    lemma_index_of_depth_offset(n);
    assert((o + 1) * p == b + 1);
    assert(b == o * p + (p - 1)) by (nonlinear_arith)
        requires
            (o + 1) * p == b + 1,
    ;
    vstd::arithmetic::div_mod::lemma_fundamental_div_mod_converse_div(
        b as int,
        p as int,
        o as int,
        (p - 1) as int,
    );
    let db = spec_depth(b);
    let ob = spec_offset(b);
    let pb = pow2(db);
    lemma_index_of_depth_offset(b);
    lemma_pow2_pos(db);
    if db < j {
        let e = (j - db) as nat;
        vstd::arithmetic::power2::lemma_pow2_adds(e, db);
        lemma_pow2_unfold(e);
        let q = pow2((e - 1) as nat);
        assert(p == (2 * q) * pb);
        assert(((o + 1) * (2 * q)) * pb == (2 * ob + 1) * pb) by (nonlinear_arith)
            requires
                (o + 1) * p == b + 1,
                b + 1 == (2 * ob + 1) * pb,
                p == (2 * q) * pb,
        ;
        let x = (o + 1) * (2 * q);
        let y = 2 * ob + 1;
        assert(x == y) by (nonlinear_arith)
            requires
                x * pb == y * pb,
                pb > 0,
        ;
        assert((o + 1) * (2 * q) == 2 * ((o + 1) * q)) by (nonlinear_arith);
        assert(false);
    }
}

/// The node at `depth` and `offset` whose last leaf is the last of `total`
/// blocks is complete with that block and not before, and its index is at
/// most that of the block's leaf.
pub proof fn lemma_newly(depth: nat, offset: nat, total: nat)
    requires
        (offset + 1) * pow2(depth) == total,
    ensures
        spec_depth(spec_index(depth, offset)) == depth,
        spec_complete(spec_index(depth, offset), total),
        !spec_complete(spec_index(depth, offset), (total - 1) as nat),
        spec_index(depth, offset) + 2 <= 2 * total,
{
    lemma_depth_offset_of_index(depth, offset);
    lemma_pow2_pos(depth);
    let p = pow2(depth);
    assert((2 * offset + 1) * p + p == 2 * ((offset + 1) * p)) by (nonlinear_arith);
}

/// The parent of a node of depth below 62 fits in 64 bits.
proof fn lemma_parent_fits_small(n: u64)
    requires
        spec_depth(n as nat) < 62,
    ensures
        spec_parent(n as nat) <= u64::MAX,
{
    crate::flat::lemma_parent_fits(n, spec_depth(n as nat));
}

/// Where there is a block, there is a full root.
pub proof fn lemma_floor_nonempty(m: nat)
    requires
        m > 0,
    ensures
        spec_roots_from(0, m).len() > 0,
{
    crate::flat::lemma_floor_pow2_basic(m);
}

/// Every node holds the length and the hash that the log gives it.
pub open spec fn spec_all_true<H: Hasher>(nodes: Seq<Node>, log: Seq<Seq<u8>>) -> bool {
    forall|i: int| 0 <= i < nodes.len() ==> spec_true_node::<H>((#[trigger] nodes[i])@, log)
}

} // verus!
