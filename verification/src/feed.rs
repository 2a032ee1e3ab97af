//! The log: blocks are appended to it, and read back by their number.
//!
//! An append puts the block's leaf and the parents that it completes into
//! the tree file, the block into the data file, marks the block in the bitfield
//! and writes the pages that changed, and signs the roots.

use vstd::prelude::*;
use vstd::arithmetic::power2::{pow2, lemma_pow2_pos, lemma2_to64, lemma2_to64_rest};
use std::ops::Range;
use crate::bitfield::{Bitfield, MAX_BUFFER, spec_pages_of};
use crate::bytes::{append_bytes, copy_range};
use crate::flat::{spec_complete, spec_depth, spec_full_roots, spec_index, spec_offset, spec_parent, spec_right_span, lemma_depth_offset_of_index, lemma_index_of_depth_offset, lemma_roots_bounds, lemma_spans, lemma_depth_bound};
use crate::merkle::{spec_views, Blake2b, Hasher, Node, NodeView, Tree, spec_all_true, spec_blake2b_256, spec_indices, spec_log_len, spec_node_hash, spec_node_len, spec_roots_len, spec_sum, spec_true_node, lemma_join_even, lemma_log_len_split, lemma_newly_complete, lemma_node_grows, lemma_root_within, lemma_roots_len};
use crate::sign::{public_key, random_seed, sign_with, verify_with, spec_public_key, spec_signature, spec_valid_pair, spec_verifies};
use crate::storage::{encodebe, Error, FileType, Storage, spec_after_header, spec_found, spec_le64_bytes, spec_length_at, spec_lengths, spec_node_at, spec_node_bytes, spec_offset_of, spec_slot, spec_view_at, spec_write_at, lemma_node_written, lemma_slot_write, lemma_write_at_end};
use crate::tree::{spec_blocks, spec_len, MAX_NODES};

verus! {

/// The most blocks that a log takes: each has its bit in a page that the
/// bitfield admits.
pub const MAX_FEED_BLOCKS: u64 = 0x20_0000_0000_0000;

/// An append-only log with its tree, its bitfield and its keys, on a
/// storage.
pub struct Feed<S: Storage> {
    pub storage: S,
    pub blocks: u64,
    pub length: u64,
    pub key: [u8; 32],
    pub secret: [u8; 64],
    pub merkle: Tree,
    pub bitfield: Bitfield,
}

/// The log under the name that it has as the core of a feed.
pub type Hypercore<S> = Feed<S>;

/// The first `n` blocks of the log, one after the other.
pub open spec fn spec_concat(log: Seq<Seq<u8>>, n: nat) -> Seq<u8>
    decreases n,
{
    if n == 0 || n > log.len() {
        Seq::empty()
    } else {
        spec_concat(log, (n - 1) as nat) + log[n - 1]
    }
}

/// What the log gives the node `n`: its hash and its length.
pub open spec fn spec_node_of(log: Seq<Seq<u8>>, n: nat) -> (Seq<u8>, u64) {
    (
        spec_node_hash::<Blake2b>(log, spec_depth(n), spec_offset(n)),
        spec_node_len(log, spec_depth(n), spec_offset(n)) as u64,
    )
}

/// The tree file holds, for every node whose leaves are all in the log, the
/// hash and the length that the log gives it.
pub open spec fn spec_tree_ok(tree: Seq<u8>, log: Seq<Seq<u8>>) -> bool {
    forall|n: nat| #[trigger]
        spec_complete(n, log.len()) ==> spec_node_at(tree, n) == Some(spec_node_of(log, n))
}

/// The bytes that are hashed and signed for the roots: the byte 2, then for
/// each root its hash, its index and its length, the numbers in eight bytes,
/// the least significant first.
pub open spec fn spec_roots_message(roots: Seq<Node>) -> Seq<u8>
    decreases roots.len(),
{
    if roots.len() == 0 {
        seq![2u8]
    } else {
        spec_roots_message(roots.drop_last()) + roots.last().hash@ + spec_le64_bytes(
            roots.last().index,
        ) + spec_le64_bytes(roots.last().length)
    }
}

/// The key pair that signs: the first half of the secret key, then the
/// public key.
pub open spec fn spec_pair(secret: Seq<u8>, key: Seq<u8>) -> Seq<u8> {
    secret.subrange(0, 32) + key
}

/// The lengths in the tree file add up as the log says, where the nodes hold
/// what the log gives them.
pub proof fn lemma_lengths(tree: Seq<u8>, log: Seq<Seq<u8>>, roots: Seq<nat>)
    requires
        forall|i: int|
            0 <= i < roots.len() ==> spec_length_at(tree, #[trigger] roots[i]) == spec_node_len(
                log,
                spec_depth(roots[i]),
                spec_offset(roots[i]),
            ),
    ensures
        spec_lengths(tree, roots) == spec_roots_len(log, roots),
    decreases roots.len(),
{
    if roots.len() > 0 {
        let head = roots.drop_last();
        assert forall|i: int| 0 <= i < head.len() implies spec_length_at(tree, #[trigger] head[i])
            == spec_node_len(log, spec_depth(head[i]), spec_offset(head[i])) by {
            assert(head[i] == roots[i]);
        }
        lemma_lengths(tree, log, head);
        assert(roots.last() == roots[roots.len() - 1]);
    }
}

/// The length of a node is at most that of the whole log.
pub proof fn lemma_node_len_bound(log: Seq<Seq<u8>>, n: nat)
    requires
        spec_complete(n, log.len()),
    ensures
        spec_node_len(log, spec_depth(n), spec_offset(n)) <= spec_log_len(log, 0, log.len()),
{
    let d = spec_depth(n);
    let o = spec_offset(n);
    crate::merkle::lemma_node_len(log, d, o);
    lemma_pow2_pos(d);
    assert(o * pow2(d) <= (o + 1) * pow2(d)) by (nonlinear_arith)
        requires
            pow2(d) > 0,
    ;
    lemma_log_len_split(log, 0, o * pow2(d), (o + 1) * pow2(d));
    lemma_log_len_split(log, 0, (o + 1) * pow2(d), log.len());
}

/// The byte offset of block `b`, read from a tree file that holds what the
/// log gives, is the length of the blocks before it; and the leaf's slot holds
/// the length of the block.
pub proof fn lemma_offset_of(tree: Seq<u8>, log: Seq<Seq<u8>>, b: nat)
    requires
        spec_tree_ok(tree, log),
        b < log.len(),
        spec_log_len(log, 0, log.len()) <= u64::MAX,
    ensures
        spec_offset_of(tree, 2 * b) == Some((spec_log_len(log, 0, b), log[b as int].len())),
{
    let roots = spec_full_roots(2 * b);
    assert((2 * b) / 2 == b);
    assert forall|i: int| 0 <= i < roots.len() implies spec_length_at(tree, #[trigger] roots[i])
        == spec_node_len(log, spec_depth(roots[i]), spec_offset(roots[i])) by {
        lemma_root_within(b, i);
        assert(spec_complete(roots[i], log.len()));
        lemma_node_len_bound(log, roots[i]);
    }
    lemma_lengths(tree, log, roots);
    lemma_roots_len(log, b);
    lemma_depth_offset_of_index(0, b);
    lemma2_to64();
    assert(spec_index(0, b) == 2 * b);
    assert(spec_complete(2 * b, log.len()));
    lemma_node_len_bound(log, 2 * b);
}

/// The blocks lie in the data file one after the other.
pub proof fn lemma_concat(log: Seq<Seq<u8>>, n: nat, b: nat)
    requires
        b < n <= log.len(),
    ensures
        spec_concat(log, n).len() == spec_log_len(log, 0, n),
        spec_slot(spec_concat(log, n), spec_log_len(log, 0, b), log[b as int].len()) == log[b as int],
    decreases n,
{
    lemma_concat_len(log, n);
    lemma_concat_len(log, (n - 1) as nat);
    let all = spec_concat(log, n);
    let head = spec_concat(log, (n - 1) as nat);
    let off = spec_log_len(log, 0, b);
    let len = log[b as int].len();
    if b == n - 1 {
        assert(spec_slot(all, off, len) =~= log[b as int]);
    } else {
        lemma_concat(log, (n - 1) as nat, b);
        lemma_log_len_split(log, 0, b + 1, (n - 1) as nat);
        assert(spec_log_len(log, 0, b + 1) == off + len);
        assert(spec_slot(all, off, len) =~= spec_slot(head, off, len));
    }
}

/// The blocks one after the other are as long as the blocks together.
pub proof fn lemma_concat_len(log: Seq<Seq<u8>>, n: nat)
    requires
        n <= log.len(),
    ensures
        spec_concat(log, n).len() == spec_log_len(log, 0, n),
    decreases n,
{
    if n > 0 {
        lemma_concat_len(log, (n - 1) as nat);
    }
}

/// A log that grows keeps what it held.
pub proof fn lemma_log_grows(log: Seq<Seq<u8>>, block: Seq<u8>, n: nat)
    requires
        n <= log.len(),
    ensures
        spec_concat(log.push(block), n) == spec_concat(log, n),
        spec_log_len(log.push(block), 0, n) == spec_log_len(log, 0, n),
    decreases n,
{
    if n > 0 {
        lemma_log_grows(log, block, (n - 1) as nat);
        assert(log.push(block)[n - 1] == log[n - 1]);
    }
}

/// Which of the nodes that an append makes has the index `m`, if any: the one
/// of the depth of `m`.
pub open spec fn spec_written(nodes: Seq<Node>, upto: nat, m: nat) -> bool {
    spec_depth(m) < upto && spec_depth(m) < nodes.len() && nodes[spec_depth(m) as int].index == m
}

/// The tree file after the nodes of an append were written holds what the
/// grown log gives.
pub proof fn lemma_tree_grows(
    before: Seq<u8>,
    after: Seq<u8>,
    log: Seq<Seq<u8>>,
    block: Seq<u8>,
    nodes: Seq<Node>,
)
    requires
        spec_tree_ok(before, log),
        nodes.len() == spec_depth(log.len()) + 1,
        forall|j: int|
            0 <= j < nodes.len() ==> (#[trigger] nodes[j]).index == spec_index(
                j as nat,
                log.len() / pow2(j as nat),
            ) && spec_depth(nodes[j].index as nat) == j && !spec_complete(
                nodes[j].index as nat,
                log.len(),
            ),
        spec_all_true::<Blake2b>(nodes, log.push(block)),
        forall|j: int|
            0 <= j < nodes.len() ==> spec_node_at(after, (#[trigger] nodes[j]).index as nat) == Some(
                (nodes[j].hash@, nodes[j].length),
            ),
        forall|m: nat|
            !spec_written(nodes, nodes.len(), m) ==> #[trigger] spec_node_at(after, m)
                == spec_node_at(before, m),
    ensures
        spec_tree_ok(after, log.push(block)),
{
    let grown = log.push(block);
    assert forall|n: nat| #[trigger] spec_complete(n, grown.len()) implies spec_node_at(after, n)
        == Some(spec_node_of(grown, n)) by {
        if spec_complete(n, log.len()) {
            if spec_written(nodes, nodes.len(), n) {
                assert(!spec_complete(nodes[spec_depth(n) as int].index as nat, log.len()));
            }
            assert(spec_node_at(after, n) == spec_node_at(before, n));
            lemma_node_grows::<Blake2b>(log, block, spec_depth(n), spec_offset(n));
        } else {
            lemma_newly_complete(log.len(), n);
            let j = spec_depth(n) as int;
            assert(nodes[j].index == n);
            assert(spec_true_node::<Blake2b>(nodes[j]@, grown));
        }
    }
}

impl<S: Storage> Feed<S> {
    /// The parts fit together: the accumulator and the log count the same
    /// blocks and bytes.
    pub open spec fn wf(&self) -> bool {
        &&& self.storage.wf()
        &&& self.merkle.wf()
        &&& self.bitfield.wf()
        &&& self.merkle.blocks == self.blocks
        &&& self.blocks < MAX_FEED_BLOCKS
        &&& spec_sum(self.merkle.roots@) == self.length
    }

    /// The log holds these blocks: they are marked in the bitfield and lie
    /// in the data file one after the other, and the tree file holds the hashes
    /// and lengths of the nodes over them.
    pub open spec fn spec_holds(&self, log: Seq<Seq<u8>>) -> bool {
        &&& self.wf()
        &&& self.storage.spec_kept()
        &&& self.blocks == log.len()
        &&& forall|i: int| 0 <= i < log.len() ==> (#[trigger] log[i]).len() > 0
        &&& self.length == spec_log_len(log, 0, log.len())
        &&& self.merkle.spec_holds::<Blake2b>(log)
        &&& crate::bitfield::spec_filled(self.bitfield.pager.pages(), log.len())
        &&& self.bitfield.pager.dirty().len() == 0
        &&& spec_pages_kept(
            self.storage.spec_file(FileType::Bitfield),
            self.bitfield.pager.pages(),
            spec_page_count(log.len()),
        )
        &&& spec_tree_ok(self.storage.spec_file(FileType::Tree), log)
        &&& self.storage.spec_file(FileType::Data) == spec_concat(log, log.len())
    }

    /// Whether block `index` is in the log.
    pub fn has(&self, index: u64) -> (r: bool)
        requires
            self.wf(),
        ensures
            r == self.bitfield.spec_get(index as nat),
            forall|log: Seq<Seq<u8>>| #[trigger] self.spec_holds(log) ==> r == (index < log.len()),
    {
        self.bitfield.get(index)
    }

    /// Whether all the blocks of the range are in the log.
    pub fn has_range(&self, range: Range<u64>) -> (r: bool)
        requires
            self.wf(),
            range.start <= range.end,
        ensures
            r == (range.end - range.start == self.bitfield.spec_total(
                range.start as nat,
                range.end as nat,
            )),
    {
        let wanted = range.end - range.start;
        wanted == self.bitfield.total(range)
    }

    /// The number of blocks of the range that are in the log.
    pub fn downloaded(&self, range: Range<u64>) -> (r: u64)
        requires
            self.wf(),
        ensures
            r == self.bitfield.spec_total(range.start as nat, range.end as nat),
    {
        self.bitfield.total(range)
    }

    /// Block `index` of the log. `NotFound` where the block is not marked in
    /// the bitfield; `Integrity` where the block is longer than memory can
    /// address, or the lengths before it do not add up within 64 bits.
    pub fn get(&mut self, index: u64) -> (r: Result<Option<Vec<u8>>, Error>)
        requires
            old(self).wf(),
        ensures
            final(self).wf(),
            final(self).storage.spec_limit() == old(self).storage.spec_limit(),
            final(self).storage.spec_kept() == old(self).storage.spec_kept(),
            final(self).blocks == old(self).blocks,
            final(self).length == old(self).length,
            final(self).key == old(self).key,
            final(self).secret == old(self).secret,
            final(self).merkle == old(self).merkle,
            final(self).bitfield == old(self).bitfield,
            old(self).storage.spec_kept() ==> (
                forall|ft: FileType| final(self).storage.spec_file(ft) == old(self).storage.spec_file(ft)
            ),
            !old(self).bitfield.spec_get(index as nat) ==> r == Err::<Option<Vec<u8>>, Error>(
                Error::NotFound,
            ),
            old(self).storage.spec_kept() ==> (
                old(self).bitfield.spec_get(index as nat) ==> match r {
                    Ok(Some(bytes)) => spec_offset_of(
                        old(self).storage.spec_file(FileType::Tree),
                        (2 * index) as nat,
                    ).is_some() && bytes@ == spec_slot(
                        old(self).storage.spec_file(FileType::Data),
                        spec_offset_of(
                            old(self).storage.spec_file(FileType::Tree),
                            (2 * index) as nat,
                        ).unwrap().0,
                        spec_offset_of(
                            old(self).storage.spec_file(FileType::Tree),
                            (2 * index) as nat,
                        ).unwrap().1,
                    ),
                    Ok(None) => spec_offset_of(
                        old(self).storage.spec_file(FileType::Tree),
                        (2 * index) as nat,
                    ).is_none(),
                    Err(_) => true,
                }
            ),
            forall|log: Seq<Seq<u8>>| #[trigger]
                old(self).spec_holds(log) ==> final(self).spec_holds(log) && (index < log.len()
                    ==> match r {
                    Ok(Some(bytes)) => bytes@ == log[index as int],
                    Ok(None) => false,
                    Err(e) => old(self).storage.spec_limit().is_some() ==> e == Error::Integrity,
                } && (old(self).storage.spec_limit().is_some() ==> (r.is_err() <==> log[index as int].len()
                    > usize::MAX))),
    {
        if !self.bitfield.get(index) {
            return Err(Error::NotFound);
        }
        proof {
            crate::tree::lemma_set_bit_in_bounds(
                self.bitfield.pager.pages(),
                0,
                1024,
                index as nat,
            );
            assert(index < MAX_FEED_BLOCKS);
        }
        let r = self.storage.get_data(index * 2);
        proof {
            assert forall|log: Seq<Seq<u8>>| #[trigger] old(self).spec_holds(log) implies self.spec_holds(
                log,
            ) && (index < log.len() ==> match r {
                Ok(Some(bytes)) => bytes@ == log[index as int],
                Ok(None) => false,
                Err(e) => old(self).storage.spec_limit().is_some() ==> e == Error::Integrity,
            } && (old(self).storage.spec_limit().is_some() ==> (r.is_err() <==> log[index as int].len()
                > usize::MAX))) by {
                if index < log.len() {
                    lemma_offset_of(old(self).storage.spec_file(FileType::Tree), log, index as nat);
                    lemma_concat(log, log.len(), index as nat);
                    lemma_log_len_split(log, 0, index as nat, log.len());
                }
            }
        }
        r
    }

    /// The bytes that are hashed and signed for the roots.
    fn roots_message(&self) -> (r: Vec<u8>)
        ensures
            r@ == spec_roots_message(self.merkle.roots@),
    {
        let mut message: Vec<u8> = Vec::new();
        message.push(2u8);
        let mut i: usize = 0;
        proof {
            assert(self.merkle.roots@.take(0) =~= Seq::<Node>::empty());
            assert(message@ =~= seq![2u8]);
        }
        while i < self.merkle.roots.len()
            invariant
                i <= self.merkle.roots@.len(),
                message@ == spec_roots_message(self.merkle.roots@.take(i as int)),
            decreases self.merkle.roots@.len() - i,
        {
            let root = &self.merkle.roots[i];
            proof {
                assert(self.merkle.roots@.take(i + 1).drop_last() =~= self.merkle.roots@.take(
                    i as int,
                ));
                assert(self.merkle.roots@.take(i + 1).last() == self.merkle.roots@[i as int]);
            }
            append_bytes(&mut message, root.hash.as_slice());
            let index = encodebe(root.index);
            append_bytes(&mut message, index.as_slice());
            let length = encodebe(root.length);
            append_bytes(&mut message, length.as_slice());
            i += 1;
        }
        proof {
            assert(self.merkle.roots@.take(self.merkle.roots@.len() as int) =~= self.merkle.roots@);
        }
        message
    }

    /// The key pair that signs, in 64 bytes: the first half of the secret
    /// key, then the public key.
    fn pair(&self) -> (r: [u8; 64])
        ensures
            r@ == spec_pair(self.secret@, self.key@),
    {
        let mut pair = [0u8; 64];
        let mut i: usize = 0;
        while i < 64
            invariant
                i <= 64,
                forall|j: int|
                    0 <= j < i ==> pair@[j] == (if j < 32 {
                        self.secret@[j]
                    } else {
                        self.key@[j - 32]
                    }),
            decreases 64 - i,
        {
            let byte = if i < 32 {
                self.secret[i]
            } else {
                self.key[i - 32]
            };
            pair[i] = byte;
            i += 1;
        }
        proof {
            assert(pair@ =~= spec_pair(self.secret@, self.key@));
        }
        pair
    }

    /// Signs the roots and writes the signature into the slot of the number
    /// of blocks. `Crypto` where the keys are no key pair.
    fn sign_roots(&mut self) -> (r: Result<(), Error>)
        requires
            old(self).wf(),
        ensures
            final(self).wf(),
            final(self).storage.spec_limit() == old(self).storage.spec_limit(),
            final(self).storage.spec_kept() == old(self).storage.spec_kept(),
            old(self).storage.spec_kept() ==> (
                spec_valid_pair(spec_pair(old(self).secret@, old(self).key@)) && old(
                    self,
                ).storage.spec_limit().is_some() && 96 + 64 * old(self).blocks <= old(
                    self,
                ).storage.spec_limit().unwrap() ==> r.is_ok()
            ),
            final(self).blocks == old(self).blocks,
            final(self).length == old(self).length,
            final(self).key == old(self).key,
            final(self).secret == old(self).secret,
            final(self).merkle == old(self).merkle,
            final(self).bitfield == old(self).bitfield,
            old(self).storage.spec_kept() ==> (
                forall|ft: FileType|
                    ft != FileType::Signatures ==> final(self).storage.spec_file(ft) == old(
                        self,
                    ).storage.spec_file(ft)
            ),
            !spec_valid_pair(spec_pair(old(self).secret@, old(self).key@)) ==> r == Err::<(), Error>(
                Error::Crypto,
            ) && final(self).storage == old(self).storage,
            old(self).storage.spec_kept() ==> (
                r.is_ok() ==> final(self).storage.spec_file(FileType::Signatures) == spec_write_at(
                    old(self).storage.spec_file(FileType::Signatures),
                    32 + 64 * old(self).blocks as nat,
                    spec_signature(
                        spec_pair(old(self).secret@, old(self).key@),
                        spec_blake2b_256(spec_roots_message(old(self).merkle.roots@)),
                    ),
                )
            ),
    {
        let message = self.roots_message();
        let hash = Blake2b::hash(message.as_slice());
        let pair = self.pair();
        let signature = match sign_with(&pair, hash.as_slice()) {
            Some(signature) => signature,
            None => {
                return Err(Error::Crypto);
            },
        };
        let bytes = copy_range(signature.as_slice(), 0, 64);
        proof {
            assert(signature@.subrange(0, 64) =~= signature@);
        }
        self.storage.put_signature(self.blocks, bytes)
    }

    /// Writes the pages of the bitfield that changed to the storage.
    fn flush(&mut self) -> (r: Result<(), Error>)
        requires
            old(self).storage.wf(),
            old(self).bitfield.wf(),
        ensures
            final(self).storage.wf(),
            final(self).bitfield.wf(),
            final(self).storage.spec_limit() == old(self).storage.spec_limit(),
            final(self).storage.spec_kept() == old(self).storage.spec_kept(),
            old(self).storage.spec_kept() ==> (
                old(self).storage.spec_limit().is_some() && (forall|p: u64| #[trigger]
                    old(self).bitfield.pager.pages().contains_key(p) ==> 3360 + 3328 * p <= old(
                        self,
                    ).storage.spec_limit().unwrap()) ==> r.is_ok()
            ),
            final(self).blocks == old(self).blocks,
            final(self).length == old(self).length,
            final(self).key == old(self).key,
            final(self).secret == old(self).secret,
            final(self).merkle == old(self).merkle,
            final(self).bitfield.pager.pages() == old(self).bitfield.pager.pages(),
            r.is_ok() ==> final(self).bitfield.pager.dirty().len() == 0,
            old(self).storage.spec_kept() ==> (
                r.is_ok() ==> final(self).storage.spec_file(FileType::Bitfield) == spec_flushed(
                    old(self).storage.spec_file(FileType::Bitfield),
                    old(self).bitfield.pager.pages(),
                    old(self).bitfield.pager.dirty(),
                )
            ),
            old(self).storage.spec_kept() ==> (
                forall|ft: FileType|
                    ft != FileType::Bitfield ==> final(self).storage.spec_file(ft) == old(
                        self,
                    ).storage.spec_file(ft)
            ),
    {
        let mut going = true;
        while going
            invariant
                self.storage.wf(),
                self.bitfield.wf(),
                self.storage.spec_limit() == old(self).storage.spec_limit(),
                self.storage.spec_kept() == old(self).storage.spec_kept(),
                self.blocks == old(self).blocks,
                self.length == old(self).length,
                self.key == old(self).key,
                self.secret == old(self).secret,
                self.merkle == old(self).merkle,
                self.bitfield.pager.pages() == old(self).bitfield.pager.pages(),
                !going ==> self.bitfield.pager.dirty().len() == 0,
                old(self).storage.spec_kept() ==> (
                    spec_flushed(
                        self.storage.spec_file(FileType::Bitfield),
                        self.bitfield.pager.pages(),
                        self.bitfield.pager.dirty(),
                    ) == spec_flushed(
                        old(self).storage.spec_file(FileType::Bitfield),
                        old(self).bitfield.pager.pages(),
                        old(self).bitfield.pager.dirty(),
                    )
                ),
                old(self).storage.spec_kept() ==> (
                    forall|ft: FileType|
                        ft != FileType::Bitfield ==> self.storage.spec_file(ft) == old(
                            self,
                        ).storage.spec_file(ft)
                ),
            decreases self.bitfield.pager.dirty().len() + if going { 1int } else { 0int },
        {
            match self.bitfield.last_updated() {
                Some((offset, page)) => {
                    match self.storage.put_bitfield(offset, page) {
                        Ok(()) => {},
                        Err(e) => {
                            return Err(e);
                        },
                    }
                },
                None => {
                    going = false;
                },
            }
        }
        Ok(())
    }

    /// Writes the nodes that an append made into the tree file, and the
    /// block of the leaf into the data file.
    fn put_nodes(&mut self, nodes: &Vec<Node>) -> (r: Result<(), Error>)
        requires
            old(self).storage.wf(),
            nodes@.len() >= 1,
            nodes@[0].index % 2 == 0,
            nodes@[0].data.is_some(),
            nodes@[0]@.data.unwrap().len() == nodes@[0].length,
            forall|i: int|
                0 <= i < nodes@.len() ==> spec_depth((#[trigger] nodes@[i]).index as nat) == i
                    && nodes@[i].index < MAX_NODES && nodes@[i].length >= 1,
        ensures
            final(self).storage.wf(),
            final(self).storage.spec_limit() == old(self).storage.spec_limit(),
            final(self).storage.spec_kept() == old(self).storage.spec_kept(),
            old(self).storage.spec_kept() ==> (
                old(self).storage.spec_limit().is_some() && 72 + 40 * nodes@[0].index <= old(
                    self,
                ).storage.spec_limit().unwrap() && spec_lengths(
                    spec_tree_after(old(self).storage.spec_file(FileType::Tree), spec_views(nodes@), 1),
                    spec_full_roots(nodes@[0].index as nat),
                ) + nodes@[0].length <= old(self).storage.spec_limit().unwrap() && spec_lengths(
                    spec_tree_after(old(self).storage.spec_file(FileType::Tree), spec_views(nodes@), 1),
                    spec_full_roots(nodes@[0].index as nat),
                ) + nodes@[0].length <= u64::MAX && (forall|i: int|
                    0 <= i < nodes@.len() ==> (#[trigger] nodes@[i]).index <= nodes@[0].index) ==> r.is_ok()
            ),
            final(self).blocks == old(self).blocks,
            final(self).length == old(self).length,
            final(self).key == old(self).key,
            final(self).secret == old(self).secret,
            final(self).merkle == old(self).merkle,
            final(self).bitfield == old(self).bitfield,
            old(self).storage.spec_kept() ==> (
                forall|ft: FileType|
                    ft != FileType::Tree && ft != FileType::Data ==> final(self).storage.spec_file(ft)
                        == old(self).storage.spec_file(ft)
            ),
            old(self).storage.spec_kept() ==> (
                r.is_ok() ==> spec_stored(
                    old(self).storage.spec_file(FileType::Tree),
                    final(self).storage.spec_file(FileType::Tree),
                    old(self).storage.spec_file(FileType::Data),
                    final(self).storage.spec_file(FileType::Data),
                    nodes@,
                )
            ),
            old(self).storage.spec_kept() ==> (
                r.is_ok() ==> final(self).storage.spec_file(FileType::Tree) == spec_tree_after(
                    old(self).storage.spec_file(FileType::Tree),
                    spec_views(nodes@),
                    nodes@.len(),
                )
            ),
    {
        let ghost tree0 = self.storage.spec_file(FileType::Tree);
        let ghost data0 = self.storage.spec_file(FileType::Data);
        let leaf = &nodes[0];
        match self.storage.put_node(leaf.index, leaf.clone()) {
            Ok(()) => {},
            Err(e) => {
                return Err(e);
            },
        }
        let ghost tree1 = self.storage.spec_file(FileType::Tree);
        proof {
            assert(spec_views(nodes@)[0] == nodes@[0]@);
            assert(spec_tree_after(tree0, spec_views(nodes@), 0) == tree0);
            assert(old(self).storage.spec_kept() ==> tree1 == spec_tree_after(
                tree0,
                spec_views(nodes@),
                1,
            ));
        }
        let bytes = match &leaf.data {
            Some(d) => copy_range(d.as_slice(), 0, d.len()),
            None => Vec::new(),
        };
        let ghost block = nodes@[0]@.data.unwrap();
        proof {
            assert(block.subrange(0, block.len() as int) =~= block);
            assert(bytes@ == block);
            if old(self).storage.spec_kept() {
                assert forall|m: nat| #[trigger]
                    spec_node_at(tree1, m) == if m == leaf.index {
                        Some((leaf.hash@, leaf.length))
                    } else {
                        spec_node_at(tree0, m)
                    } by {
                    lemma_node_written(tree0, leaf.index as nat, leaf.hash@, leaf.length, m);
                }
            }
        }
        match self.storage.put_data(leaf.index, bytes) {
            Ok(()) => {},
            Err(e) => {
                return Err(e);
            },
        }
        let ghost data1 = self.storage.spec_file(FileType::Data);
        proof {
            assert(old(self).storage.spec_kept() ==> spec_offset_of(
                tree1,
                leaf.index as nat,
            ).is_some());
        }
        let mut j: usize = 1;
        while j < nodes.len()
            invariant
                1 <= j <= nodes@.len(),
                self.storage.wf(),
                self.storage.spec_limit() == old(self).storage.spec_limit(),
                self.storage.spec_kept() == old(self).storage.spec_kept(),
                self.blocks == old(self).blocks,
                self.length == old(self).length,
                self.key == old(self).key,
                self.secret == old(self).secret,
                self.merkle == old(self).merkle,
                self.bitfield == old(self).bitfield,
                forall|i: int|
                    0 <= i < nodes@.len() ==> spec_depth((#[trigger] nodes@[i]).index as nat) == i
                        && nodes@[i].index < MAX_NODES && nodes@[i].length >= 1,
                old(self).storage.spec_kept() ==> (
                    forall|ft: FileType|
                        ft != FileType::Tree && ft != FileType::Data ==> self.storage.spec_file(ft)
                            == old(self).storage.spec_file(ft)
                ),
                old(self).storage.spec_kept() ==> (
                    self.storage.spec_file(FileType::Data) == data1
                ),
                old(self).storage.spec_kept() ==> (
                    self.storage.spec_file(FileType::Tree) == spec_tree_after(
                        tree0,
                        spec_views(nodes@),
                        j as nat,
                    )
                ),
                old(self).storage.spec_kept() ==> (
                    forall|i: int|
                        0 <= i < j ==> spec_node_at(
                            self.storage.spec_file(FileType::Tree),
                            (#[trigger] nodes@[i]).index as nat,
                        ) == Some((nodes@[i].hash@, nodes@[i].length))
                ),
                old(self).storage.spec_kept() ==> (
                    forall|m: nat|
                        !spec_written(nodes@, j as nat, m) ==> #[trigger] spec_node_at(
                            self.storage.spec_file(FileType::Tree),
                            m,
                        ) == spec_node_at(tree0, m)
                ),
            decreases nodes@.len() - j,
        {
            let node = &nodes[j];
            let ghost before = self.storage.spec_file(FileType::Tree);
            match self.storage.put_node(node.index, node.clone()) {
                Ok(()) => {},
                Err(e) => {
                    return Err(e);
                },
            }
            proof {
                let after = self.storage.spec_file(FileType::Tree);
                assert(spec_views(nodes@)[j as int] == nodes@[j as int]@);
                if old(self).storage.spec_kept() {
                    assert forall|m: nat| #[trigger]
                        spec_node_at(after, m) == if m == node.index {
                            Some((node.hash@, node.length))
                        } else {
                            spec_node_at(before, m)
                        } by {
                        lemma_node_written(before, node.index as nat, node.hash@, node.length, m);
                    }
                    assert forall|i: int| 0 <= i < j + 1 implies spec_node_at(
                        after,
                        (#[trigger] nodes@[i]).index as nat,
                    ) == Some((nodes@[i].hash@, nodes@[i].length)) by {
                        if i < j {
                            assert(spec_depth(nodes@[i].index as nat) == i);
                            assert(nodes@[i].index != node.index);
                        }
                    }
                }
            }
            j += 1;
        }
        Ok(())
    }

    /// Appends a block to the log. An empty block changes nothing.
    ///
    /// On a log that holds its blocks, in a storage that has room for one
    /// more, the append succeeds just when the keys are a key pair, and fails
    /// with `Crypto` when they are not. An append that fails may leave some of
    /// what it writes behind.
    pub fn append(&mut self, data: Vec<u8>) -> (r: Result<(), Error>)
        requires
            old(self).wf(),
            old(self).blocks + 1 < MAX_FEED_BLOCKS,
            old(self).length + data@.len() <= u64::MAX,
        ensures
            final(self).key == old(self).key,
            final(self).secret == old(self).secret,
            old(self).storage.spec_kept() ==> (
                forall|ft: FileType|
                    ft == FileType::Key || ft == FileType::Secret ==> final(self).storage.spec_file(ft)
                        == old(self).storage.spec_file(ft)
            ),
            data@.len() == 0 ==> r.is_ok() && final(self).blocks == old(self).blocks && final(self).length
                == old(self).length && final(self).merkle == old(self).merkle && final(self).bitfield
                == old(self).bitfield,
            old(self).storage.spec_kept() ==> (
                data@.len() == 0 ==> forall|ft: FileType|
                    final(self).storage.spec_file(ft) == old(self).storage.spec_file(ft)
            ),
            data@.len() > 0 && r.is_ok() ==> spec_appended(*old(self), *final(self), data@),
            data@.len() > 0 && !spec_valid_pair(spec_pair(old(self).secret@, old(self).key@))
                ==> r.is_err(),
            forall|log: Seq<Seq<u8>>| #[trigger]
                old(self).spec_holds(log) && data@.len() > 0 && r.is_ok() ==> final(self).spec_holds(
                    log.push(data@),
                ),
            forall|log: Seq<Seq<u8>>| #[trigger]
                old(self).spec_holds(log) && data@.len() > 0 && spec_room(
                    old(self).storage.spec_limit(),
                    (old(self).blocks + 1) as nat,
                    (old(self).length + data@.len()) as nat,
                ) ==> if spec_valid_pair(spec_pair(old(self).secret@, old(self).key@)) {
                    r.is_ok()
                } else {
                    r == Err::<(), Error>(Error::Crypto)
                },
            final(self).storage.spec_limit() == old(self).storage.spec_limit(),
            final(self).storage.spec_kept() == old(self).storage.spec_kept(),
    {
        if data.len() == 0 {
            return Ok(());
        }
        self.append_block(data)
    }

    /// Appends a block that is not empty.
    fn append_block(&mut self, data: Vec<u8>) -> (r: Result<(), Error>)
        requires
            old(self).wf(),
            old(self).blocks + 1 < MAX_FEED_BLOCKS,
            old(self).length + data@.len() <= u64::MAX,
            data@.len() > 0,
        ensures
            final(self).key == old(self).key,
            final(self).secret == old(self).secret,
            old(self).storage.spec_kept() ==> (
                forall|ft: FileType|
                    ft == FileType::Key || ft == FileType::Secret ==> final(self).storage.spec_file(ft)
                        == old(self).storage.spec_file(ft)
            ),
            !spec_valid_pair(spec_pair(old(self).secret@, old(self).key@)) ==> r.is_err(),
            r.is_ok() ==> spec_appended(*old(self), *final(self), data@),
            forall|log: Seq<Seq<u8>>| #[trigger]
                old(self).spec_holds(log) && r.is_ok() ==> final(self).spec_holds(log.push(data@)),
            forall|log: Seq<Seq<u8>>| #[trigger]
                old(self).spec_holds(log) && spec_room(
                    old(self).storage.spec_limit(),
                    (old(self).blocks + 1) as nat,
                    (old(self).length + data@.len()) as nat,
                ) ==> if spec_valid_pair(spec_pair(old(self).secret@, old(self).key@)) {
                    r.is_ok()
                } else {
                    r == Err::<(), Error>(Error::Crypto)
                },
            final(self).storage.spec_limit() == old(self).storage.spec_limit(),
            final(self).storage.spec_kept() == old(self).storage.spec_kept(),
    {
        let len = data.len();
        let ghost block = data@;
        let ghost tree0 = self.storage.spec_file(FileType::Tree);
        let ghost data0 = self.storage.spec_file(FileType::Data);
        let ghost bits0 = self.storage.spec_file(FileType::Bitfield);
        let ghost blocks0 = self.blocks as nat;
        let ghost made = spec_made(*self, block);
        let nodes = self.merkle.insert::<Blake2b>(data);
        proof {
            lemma2_to64_rest();
            assert(spec_views(nodes@) == made);
            assert(spec_views(nodes@)[0] == nodes@[0]@);
        }
        let ghost ready = self.storage.spec_kept() && spec_ready(
            self.storage.spec_limit(),
            tree0,
            self.bitfield.pager.state(),
            blocks0,
            nodes@[0].hash@,
            nodes@[0].length,
        );
        proof {
            assert forall|log: Seq<Seq<u8>>| #[trigger]
                old(self).spec_holds(log) && spec_room(
                    old(self).storage.spec_limit(),
                    (old(self).blocks + 1) as nat,
                    (old(self).length + data@.len()) as nat,
                ) implies ready by {
                lemma_ready(*old(self), log, nodes@[0].hash@, nodes@[0].length);
            }
            assert(spec_tree_after(tree0, made, 0) == tree0);
            assert(spec_tree_after(tree0, made, 1) == spec_write_at(
                tree0,
                32 + 40 * nodes@[0].index as nat,
                spec_node_bytes(nodes@[0].hash@, nodes@[0].length),
            ));
        }
        match self.put_nodes(&nodes) {
            Ok(()) => {},
            Err(e) => {
                assert(!ready);
                return Err(e);
            },
        }
        let ghost tree2 = self.storage.spec_file(FileType::Tree);
        let ghost data2 = self.storage.spec_file(FileType::Data);
        proof {
            assert(blocks0 < 8 * 1024 * crate::tree::MAX_PAGES);
            assert(spec_tree_after(tree0, made, 0) == tree0);
            assert(spec_tree_after(tree0, made, 1) == spec_write_at(
                tree0,
                32 + 40 * nodes@[0].index as nat,
                spec_node_bytes(nodes@[0].hash@, nodes@[0].length),
            ));
            if old(self).storage.spec_kept() {
                assert(tree2 == spec_tree_after(tree0, made, made.len()));
                assert(data2 == spec_write_at(
                    data0,
                    spec_lengths(
                        spec_tree_after(tree0, made, 1),
                        spec_full_roots((2 * blocks0) as nat),
                    ),
                    block,
                ));
            }
        }
        let ghost marked = crate::bitfield::spec_set(self.bitfield.pager.state(), blocks0, true);
        self.bitfield.set(self.blocks, true);
        match self.flush() {
            Ok(()) => {},
            Err(e) => {
                assert(!ready);
                return Err(e);
            },
        }
        proof {
            assert(old(self).storage.spec_kept() ==> self.storage.spec_file(FileType::Bitfield)
                == spec_flushed(bits0, marked.pages, marked.dirty));
        }
        self.length += len as u64;
        self.blocks += 1;
        let r = self.sign_roots();
        proof {
            if r.is_ok() {
                assert(spec_appended(*old(self), *self, block));
                assert forall|log: Seq<Seq<u8>>| #[trigger] old(self).spec_holds(log) implies self.spec_holds(
                    log.push(block),
                ) by {
                    lemma_appended(*old(self), *self, log, block, nodes@);
                }
            }
        }
        r
    }

    /// Opens the log that the storage holds, or an empty one in an empty
    /// storage. The keys are made anew where the storage has none that sign
    /// and verify.
    ///
    /// A storage that holds a log and keys that work, and that does not fail,
    /// is opened without fail; where new keys are needed, `Crypto` says that
    /// the operating system gave no seed for them. `Integrity` says that the
    /// storage cannot hold a log: its bitfield is too long or counts too many
    /// blocks, or a root is missing from its tree file, or the lengths of the
    /// roots do not add up within 64 bits.
    pub fn new(storage: S) -> (r: Result<Feed<S>, Error>)
        requires
            storage.wf(),
        ensures
            r.is_ok() ==> r.unwrap().wf(),
            r.is_ok() ==> r.unwrap().storage.spec_limit() == storage.spec_limit(),
            r.is_ok() ==> r.unwrap().storage.spec_kept() == storage.spec_kept(),
            storage.spec_kept() ==> (
                r.is_ok() ==> r.unwrap().bitfield.pager.pages() == spec_pages_of(
                    spec_after_header(r.unwrap().storage.spec_file(FileType::Bitfield)),
                )
            ),
            r.is_ok() ==> r.unwrap().blocks == spec_blocks(
                r.unwrap().bitfield.spec_tree(),
                spec_len(r.unwrap().bitfield.pager.pages()),
            ),
            storage.spec_kept() ==> (
                r.is_ok() ==> spec_views(r.unwrap().merkle.roots@) == spec_found(
                    r.unwrap().storage.spec_file(FileType::Tree),
                    spec_full_roots((2 * r.unwrap().blocks) as nat),
                    spec_full_roots((2 * r.unwrap().blocks) as nat).len(),
                )
            ),
            storage.spec_kept() ==> (
                r.is_ok() ==> r.unwrap().storage.spec_file(FileType::Data) == storage.spec_file(
                    FileType::Data,
                )
            ),
            storage.spec_kept() ==> (
                r.is_ok() ==> forall|ft: FileType|
                    crate::storage::spec_header(ft).is_some() ==> #[trigger] r.unwrap().storage.spec_file(
                        ft,
                    ) == if storage.spec_reports(ft) {
                        storage.spec_file(ft)
                    } else {
                        spec_write_at(storage.spec_file(ft), 0, crate::storage::spec_header(ft).unwrap())
                    }
            ),
            r.is_ok() ==> spec_valid_pair(spec_pair(r.unwrap().secret@, r.unwrap().key@)),
            storage.spec_kept() ==> (
                r.is_ok() ==> spec_starts(r.unwrap().storage.spec_file(FileType::Key), r.unwrap().key@)
                    && spec_starts(r.unwrap().storage.spec_file(FileType::Secret), r.unwrap().secret@)
            ),
            r.is_ok() && spec_blank(storage) ==> r.unwrap().spec_holds(Seq::<Seq<u8>>::empty()),
            forall|log: Seq<Seq<u8>>| #[trigger]
                spec_stores(storage, log) && r.is_ok() ==> r.unwrap().spec_holds(log),
            storage.spec_kept() ==> (
                r.is_ok() && spec_keyed(storage) ==> r.unwrap().key@ == storage.spec_file(
                    FileType::Key,
                ).subrange(0, 32) && r.unwrap().secret@ == storage.spec_file(FileType::Secret).subrange(
                    0,
                    64,
                ) && r.unwrap().storage.spec_file(FileType::Key) == storage.spec_file(FileType::Key)
                    && r.unwrap().storage.spec_file(FileType::Secret) == storage.spec_file(
                    FileType::Secret,
                )
            ),
            forall|log: Seq<Seq<u8>>| #[trigger]
                spec_stores(storage, log) && spec_keyed(storage) && storage.spec_limit().is_some()
                    && 32 <= storage.spec_limit().unwrap() ==> r.is_ok(),
            forall|log: Seq<Seq<u8>>| #[trigger]
                spec_stores(storage, log) && storage.spec_limit().is_some() && 64
                    <= storage.spec_limit().unwrap() && r.is_err() ==> r matches Err(Error::Crypto),
            storage.spec_kept() ==> (
                storage.spec_limit().is_some() && 64 <= storage.spec_limit().unwrap() ==> ((r matches Err(
                    Error::Integrity,
                )) <==> spec_unsound(storage)) && (r.is_err() && !spec_unsound(storage) ==> r matches Err(
                    Error::Crypto,
                ))
            ),
    {
        let mut storage = storage;
        let ghost first = storage;
        match storage.setup() {
            Ok(()) => {},
            Err(e) => {
                return Err(e);
            },
        }
        let ghost bits = storage.spec_file(FileType::Bitfield);
        let ghost tree = storage.spec_file(FileType::Tree);
        proof {
            if first.spec_kept() {
                let pages = spec_pages_of(spec_after_header(first.spec_file(FileType::Bitfield)));
                lemma_unsound_kept(
                    first,
                    bits,
                    tree,
                    spec_blocks(crate::tree::spec_bits(pages, 1024, 2048), spec_len(pages)),
                );
            }
        }
        proof {
            assert forall|log: Seq<Seq<u8>>| #[trigger] spec_stores(first, log) implies bits.len()
                + 3328 <= u64::MAX && spec_after_header(bits).len() <= MAX_BUFFER by {
                lemma_opens_bits(first, log, bits);
            }
        }
        let state = match storage.get_state() {
            Ok(state) => state,
            Err(e) => {
                return Err(e);
            },
        };
        if state.bitfield.len() as u64 > MAX_BUFFER {
            return Err(Error::Integrity);
        }
        let bitfield = Bitfield::from_buffer(state.bitfield);
        let blocks = bitfield.blocks();
        proof {
            assert forall|log: Seq<Seq<u8>>| #[trigger] spec_stores(first, log) implies blocks
                == log.len() && spec_found(
                tree,
                spec_full_roots((2 * blocks) as nat),
                spec_full_roots((2 * blocks) as nat).len(),
            ).len() == spec_full_roots((2 * blocks) as nat).len() && spec_lengths(
                tree,
                spec_full_roots((2 * blocks) as nat),
            ) <= u64::MAX by {
                lemma_opens_bits(first, log, bits);
                lemma_filled_blocks(bitfield.pager.pages(), log.len());
                lemma_opens_tree(first, log, tree);
            }
        }
        if blocks >= MAX_FEED_BLOCKS {
            return Err(Error::Integrity);
        }
        let (roots, length) = match Self::load_roots(&mut storage, blocks) {
            Ok(loaded) => loaded,
            Err(e) => {
                return Err(e);
            },
        };
        let (key, secret) = match Self::load_keys(&mut storage, state.key, state.secret) {
            Ok(keys) => keys,
            Err(e) => {
                return Err(e);
            },
        };
        let merkle = Tree::with_roots(roots);
        let feed = Feed { storage, blocks, length, key, secret, merkle, bitfield };
        proof {
            if spec_blank(first) {
                assert(first.spec_file(FileType::Bitfield).len() == 0);
                assert(first.spec_file(FileType::Data).len() == 0);
                assert(first.spec_file(FileType::Tree).len() == 0);
                lemma_blank(feed.storage.spec_file(FileType::Bitfield));
                lemma_nothing_complete();
                assert(crate::bitfield::spec_filled(feed.bitfield.pager.pages(), 0));
                assert(feed.storage.spec_file(FileType::Data) =~= spec_concat(
                    Seq::<Seq<u8>>::empty(),
                    0,
                ));
            }
            assert forall|log: Seq<Seq<u8>>| #[trigger] spec_stores(first, log) implies feed.spec_holds(
                log,
            ) by {
                lemma_reopened(first, feed, log);
            }
        }
        Ok(feed)
    }

    /// The roots of a log of `blocks` blocks, read from the tree file, and
    /// the sum of their lengths. `Integrity` where a root is missing or the
    /// lengths do not add up within 64 bits.
    fn load_roots(storage: &mut S, blocks: u64) -> (r: Result<(Vec<Node>, u64), Error>)
        requires
            old(storage).wf(),
            blocks < MAX_FEED_BLOCKS,
        ensures
            final(storage).wf(),
            final(storage).spec_limit() == old(storage).spec_limit(),
            final(storage).spec_kept() == old(storage).spec_kept(),
            old(storage).spec_kept() ==> (
                forall|ft: FileType| final(storage).spec_file(ft) == old(storage).spec_file(ft)
            ),
            old(storage).spec_kept() ==> (
                old(storage).spec_limit().is_some() ==> (r.is_err() <==> spec_rootless(
                    old(storage).spec_file(FileType::Tree),
                    blocks as nat,
                )) && (r.is_err() ==> r matches Err(Error::Integrity))
            ),
            match r {
                Ok((roots, length)) => {
                    &&& old(storage).spec_kept() ==> spec_views(roots@) == spec_found(
                        old(storage).spec_file(FileType::Tree),
                        spec_full_roots((2 * blocks) as nat),
                        spec_full_roots((2 * blocks) as nat).len(),
                    )
                    &&& spec_indices(roots@) == spec_full_roots((2 * blocks) as nat)
                    &&& forall|k: int|
                        0 <= k < roots@.len() ==> (#[trigger] roots@[k]).parent == spec_parent(
                            roots@[k].index as nat,
                        )
                    &&& length == spec_sum(roots@)
                    &&& roots@.len() > 0 ==> spec_depth(roots@.last().index as nat) < 63
                        && crate::flat::spec_right_span_fits(roots@.last().index as nat) && 1
                        + spec_right_span(roots@.last().index as nat) / 2 == blocks
                    &&& roots@.len() == 0 ==> blocks == 0
                },
                Err(_) => true,
            },
    {
        let ghost tree = storage.spec_file(FileType::Tree);
        let ghost all = spec_full_roots((2 * blocks) as nat);
        let roots = match storage.get_roots(blocks) {
            Ok(roots) => roots,
            Err(e) => {
                return Err(e);
            },
        };
        let wanted = crate::flat::full_roots(2 * blocks);
        if roots.len() != wanted.len() {
            return Err(Error::Integrity);
        }
        let length = match sum_lengths(&roots) {
            Some(length) => length,
            None => {
                proof {
                    if old(storage).spec_kept() {
                        lemma_found_all(tree, all, all.len());
                        assert forall|k: int| 0 <= k < all.len() implies (#[trigger] roots@[k]).length
                            == spec_length_at(tree, all[k]) by {
                            assert(spec_views(roots@)[k] == roots@[k]@);
                        }
                        lemma_sum_slots(tree, all, roots@);
                    }
                }
                return Err(Error::Integrity);
            },
        };
        proof {
            if old(storage).spec_kept() {
                lemma_found_all(tree, all, all.len());
                assert forall|k: int| 0 <= k < all.len() implies (#[trigger] roots@[k]).length
                    == spec_length_at(tree, all[k]) by {
                    assert(spec_views(roots@)[k] == roots@[k]@);
                }
                lemma_sum_slots(tree, all, roots@);
            }
            assert((2 * blocks) / 2 == blocks);
            lemma2_to64_rest();
            assert(spec_indices(roots@) == all);
            assert forall|k: int| 0 <= k < roots@.len() implies (#[trigger] roots@[k]).index
                == all[k] && roots@[k].parent == spec_parent(roots@[k].index as nat) by {
                assert(spec_indices(roots@)[k] == all[k]);
            }
            if blocks > 0 {
                lemma_last_root(blocks as nat);
                assert(roots@.last().index == all.last());
            } else {
                assert(all.len() == 0);
            }
        }
        Ok((roots, length))
    }

    /// The keys of the log: those that the storage holds, if they sign and
    /// verify; else new ones, which are written to the storage.
    fn load_keys(storage: &mut S, key: Option<[u8; 32]>, secret: Option<[u8; 64]>) -> (r: Result<
        ([u8; 32], [u8; 64]),
        Error,
    >)
        requires
            old(storage).wf(),
            old(storage).spec_kept() ==> crate::storage::spec_key_of(
                old(storage).spec_file(FileType::Key),
                key,
            ) && crate::storage::spec_secret_of(old(storage).spec_file(FileType::Secret), secret),
        ensures
            final(storage).wf(),
            final(storage).spec_limit() == old(storage).spec_limit(),
            final(storage).spec_kept() == old(storage).spec_kept(),
            old(storage).spec_kept() ==> (
                forall|ft: FileType|
                    ft != FileType::Key && ft != FileType::Secret ==> final(storage).spec_file(ft)
                        == old(storage).spec_file(ft)
            ),
            match r {
                Ok((k, s)) => spec_valid_pair(spec_pair(s@, k@)),
                Err(_) => true,
            },
            old(storage).spec_kept() ==> (
                match r {
                    Ok((k, s)) => spec_starts(final(storage).spec_file(FileType::Key), k@)
                        && spec_starts(final(storage).spec_file(FileType::Secret), s@),
                    Err(_) => true,
                }
            ),
            old(storage).spec_kept() ==> (
                key.is_some() && secret.is_some() && spec_keys_work(key.unwrap()@, secret.unwrap()@)
                    ==> r == Ok::<([u8; 32], [u8; 64]), Error>((key.unwrap(), secret.unwrap()))
                    && forall|ft: FileType| final(storage).spec_file(ft) == old(storage).spec_file(ft)
            ),
            old(storage).spec_kept() ==> (
                old(storage).spec_limit().is_some() && 64 <= old(storage).spec_limit().unwrap()
                    && r.is_err() ==> r matches Err(Error::Crypto)
            ),
    {
        match (key, secret) {
            (Some(k), Some(s)) => {
                let probe: Vec<u8> = vec![86u8, 101, 114, 105, 102, 121, 32, 77, 101, 46];
                proof {
                    assert(probe@ =~= spec_probe());
                }
                let mut pair = [0u8; 64];
                let mut i: usize = 0;
                while i < 64
                    invariant
                        i <= 64,
                        forall|j: int|
                            0 <= j < i ==> pair@[j] == (if j < 32 {
                                s@[j]
                            } else {
                                k@[j - 32]
                            }),
                    decreases 64 - i,
                {
                    let byte = if i < 32 {
                        s[i]
                    } else {
                        k[i - 32]
                    };
                    pair[i] = byte;
                    i += 1;
                }
                proof {
                    assert(pair@ =~= spec_pair(s@, k@));
                }
                match sign_with(&pair, probe.as_slice()) {
                    Some(signature) => {
                        if verify_with(&k, probe.as_slice(), &signature) {
                            return Ok((k, s));
                        }
                    },
                    None => {},
                }
            },
            _ => {},
        }
        match random_seed() {
            Some(seed) => {
                let r = fresh_keys(storage, seed);
                proof {
                    if r.is_ok() {
                        let key = r.unwrap().0;
                        let secret = r.unwrap().1;
                        let keys = old(storage).spec_file(FileType::Key);
                        let secrets = old(storage).spec_file(FileType::Secret);
                        assert(spec_write_at(keys, 0, key@).subrange(0, 32) =~= key@);
                        assert(spec_write_at(secrets, 0, secret@).subrange(0, 64) =~= secret@);
                        assert(spec_pair(secret@, key@) =~= seed@ + key@);
                    }
                }
                r
            },
            None => Err(Error::Crypto),
        }
    }
}

/// The file starts with these bytes.
pub open spec fn spec_starts(file: Seq<u8>, bytes: Seq<u8>) -> bool {
    file.len() >= bytes.len() && file.subrange(0, bytes.len() as int) == bytes
}

/// The message that stored keys are tried on.
pub open spec fn spec_probe() -> Seq<u8> {
    seq![86u8, 101, 114, 105, 102, 121, 32, 77, 101, 46]
}

/// Whether the keys are a key pair whose signature of the probe verifies.
pub open spec fn spec_keys_work(key: Seq<u8>, secret: Seq<u8>) -> bool {
    &&& spec_valid_pair(spec_pair(secret, key))
    &&& spec_verifies(key, spec_probe(), spec_signature(spec_pair(secret, key), spec_probe()))
}

/// Whether the storage holds keys that work.
pub open spec fn spec_keyed<S: Storage>(storage: S) -> bool {
    &&& storage.spec_file(FileType::Key).len() >= 32
    &&& storage.spec_file(FileType::Secret).len() >= 64
    &&& spec_keys_work(
        storage.spec_file(FileType::Key).subrange(0, 32),
        storage.spec_file(FileType::Secret).subrange(0, 64),
    )
}

/// A tree file that cannot hold a log of `blocks` blocks: the slot of a
/// full root is blank, or the lengths of the full roots do not add up within
/// 64 bits.
pub open spec fn spec_rootless(tree: Seq<u8>, blocks: nat) -> bool {
    let all = spec_full_roots(2 * blocks);
    spec_found(tree, all, all.len()).len() != all.len() || spec_lengths(tree, all) > u64::MAX
}

/// A storage that cannot be opened as a log: the bitfield is longer than
/// `MAX_BUFFER`, or counts `MAX_FEED_BLOCKS` blocks or more, or the tree file
/// cannot hold a log of the blocks counted.
pub open spec fn spec_unsound<S: Storage>(storage: S) -> bool {
    let bits = spec_after_header(storage.spec_file(FileType::Bitfield));
    let pages = spec_pages_of(bits);
    let blocks = spec_blocks(crate::tree::spec_bits(pages, 1024, 2048), spec_len(pages));
    ||| bits.len() > MAX_BUFFER
    ||| blocks >= MAX_FEED_BLOCKS
    ||| spec_rootless(storage.spec_file(FileType::Tree), blocks)
}

/// Tree files with the same nodes in their slots give the same roots and
/// the same lengths.
pub proof fn lemma_same_nodes(a: Seq<u8>, b: Seq<u8>, roots: Seq<nat>, upto: nat)
    requires
        forall|n: nat| spec_node_at(a, n) == spec_node_at(b, n),
    ensures
        spec_found(a, roots, upto) == spec_found(b, roots, upto),
        spec_lengths(a, roots) == spec_lengths(b, roots),
    decreases upto, roots.len(),
{
    if !(upto == 0 || upto > roots.len()) {
        lemma_same_nodes(a, b, roots, (upto - 1) as nat);
    }
    lemma_same_lengths(a, b, roots);
}

/// Tree files with the same nodes in their slots hold the same lengths.
pub proof fn lemma_same_lengths(a: Seq<u8>, b: Seq<u8>, roots: Seq<nat>)
    requires
        forall|n: nat| spec_node_at(a, n) == spec_node_at(b, n),
    ensures
        spec_lengths(a, roots) == spec_lengths(b, roots),
    decreases roots.len(),
{
    if roots.len() > 0 {
        lemma_same_lengths(a, b, roots.drop_last());
    }
}

/// Writing the headers anew leaves a storage as sound or unsound as it was.
pub proof fn lemma_unsound_kept<S: Storage>(storage: S, bits: Seq<u8>, tree: Seq<u8>, blocks: nat)
    requires
        bits == storage.spec_file(FileType::Bitfield) || bits == spec_write_at(
            storage.spec_file(FileType::Bitfield),
            0,
            crate::storage::spec_bitfield_header(),
        ),
        tree == storage.spec_file(FileType::Tree) || tree == spec_write_at(
            storage.spec_file(FileType::Tree),
            0,
            crate::storage::spec_tree_header(),
        ),
    ensures
        spec_after_header(bits) == spec_after_header(storage.spec_file(FileType::Bitfield)),
        spec_rootless(tree, blocks) == spec_rootless(storage.spec_file(FileType::Tree), blocks),
{
    let tree0 = storage.spec_file(FileType::Tree);
    lemma_header_written(
        storage.spec_file(FileType::Bitfield),
        crate::storage::spec_bitfield_header(),
        0,
    );
    assert forall|n: nat| spec_node_at(tree, n) == spec_node_at(tree0, n) by {
        lemma_header_written(tree0, crate::storage::spec_tree_header(), n);
    }
    let all = spec_full_roots(2 * blocks);
    lemma_same_nodes(tree, tree0, all, all.len());
}

/// Where every one of the first `upto` slots holds a node, as many nodes
/// are found.
pub proof fn lemma_found_each(tree: Seq<u8>, roots: Seq<nat>, upto: nat)
    requires
        upto <= roots.len(),
        forall|k: int| 0 <= k < upto ==> spec_node_at(tree, #[trigger] roots[k]).is_some(),
    ensures
        spec_found(tree, roots, upto).len() == upto,
    decreases upto,
{
    if upto > 0 {
        lemma_found_each(tree, roots, (upto - 1) as nat);
    }
}

/// The lengths of nodes that hold what their slots hold add up to the
/// lengths in the slots.
pub proof fn lemma_sum_slots(tree: Seq<u8>, all: Seq<nat>, roots: Seq<Node>)
    requires
        roots.len() == all.len(),
        forall|k: int|
            0 <= k < all.len() ==> (#[trigger] roots[k]).length == spec_length_at(tree, all[k]),
    ensures
        spec_sum(roots) == spec_lengths(tree, all),
    decreases all.len(),
{
    if all.len() > 0 {
        let head = roots.drop_last();
        assert forall|k: int| 0 <= k < all.drop_last().len() implies (#[trigger] head[k]).length
            == spec_length_at(tree, all.drop_last()[k]) by {
            assert(head[k] == roots[k]);
        }
        lemma_sum_slots(tree, all.drop_last(), head);
        assert(roots.last() == roots[all.len() - 1]);
    }
}

/// The bitfield file of a storage that holds a log, with or without its
/// header written anew, is short enough to be read whole.
pub proof fn lemma_opens_bits<S: Storage>(storage: S, log: Seq<Seq<u8>>, bits: Seq<u8>)
    requires
        spec_stores(storage, log),
        bits == storage.spec_file(FileType::Bitfield) || bits == spec_write_at(
            storage.spec_file(FileType::Bitfield),
            0,
            crate::storage::spec_bitfield_header(),
        ),
    ensures
        bits.len() + 3328 <= u64::MAX,
        spec_after_header(bits).len() <= MAX_BUFFER,
        spec_after_header(bits) == spec_after_header(storage.spec_file(FileType::Bitfield)),
{
    lemma_header_written(
        storage.spec_file(FileType::Bitfield),
        crate::storage::spec_bitfield_header(),
        0,
    );
    lemma_page_count(log.len(), 0);
    assert(spec_page_count(log.len()) <= 0x100_0000_0000);
}

/// The tree file of a storage that holds a log, with or without its header
/// written anew, holds every full root of the log, and their lengths add up
/// to the length of the log.
pub proof fn lemma_opens_tree<S: Storage>(storage: S, log: Seq<Seq<u8>>, tree: Seq<u8>)
    requires
        spec_stores(storage, log),
        tree == storage.spec_file(FileType::Tree) || tree == spec_write_at(
            storage.spec_file(FileType::Tree),
            0,
            crate::storage::spec_tree_header(),
        ),
    ensures
        spec_found(tree, spec_full_roots(2 * log.len()), spec_full_roots(2 * log.len()).len()).len()
            == spec_full_roots(2 * log.len()).len(),
        spec_lengths(tree, spec_full_roots(2 * log.len())) == spec_log_len(log, 0, log.len()),
{
    let b = log.len();
    let all = spec_full_roots(2 * b);
    let tree0 = storage.spec_file(FileType::Tree);
    assert((2 * b) / 2 == b);
    assert forall|k: int| 0 <= k < all.len() implies spec_node_at(tree, #[trigger] all[k]).is_some()
        && spec_length_at(tree, all[k]) == spec_node_len(
        log,
        spec_depth(all[k]),
        spec_offset(all[k]),
    ) by {
        lemma_root_within(b, k);
        assert(spec_complete(all[k], b));
        lemma_node_len_bound(log, all[k]);
        lemma_header_written(tree0, crate::storage::spec_tree_header(), all[k]);
    }
    lemma_found_each(tree, all, all.len());
    lemma_lengths(tree, log, all);
    lemma_roots_len(log, b);
}

/// Whether a storage with this limit is certain to take the files of a log
/// of `blocks` blocks and `length` bytes: the slots of its nodes and of its
/// signatures, the pages of its bitfield, and its blocks.
pub open spec fn spec_room(limit: Option<nat>, blocks: nat, length: nat) -> bool {
    match limit {
        Some(n) => {
            &&& 32 + 80 * blocks <= n
            &&& 32 + 64 * (blocks + 1) <= n
            &&& 32 + 3328 * spec_page_count(blocks) <= n
            &&& length <= n
        },
        None => false,
    }
}

/// The lengths of the full roots before the next leaf add up to the length
/// of the log, also once that leaf is written.
pub proof fn lemma_leaf_offset(tree: Seq<u8>, log: Seq<Seq<u8>>, hash: Seq<u8>, length: u64)
    requires
        spec_tree_ok(tree, log),
        spec_log_len(log, 0, log.len()) <= u64::MAX,
        hash.len() == 32,
        length > 0,
    ensures
        spec_lengths(
            spec_write_at(tree, 32 + 40 * (2 * log.len()), spec_node_bytes(hash, length)),
            spec_full_roots(2 * log.len()),
        ) == spec_log_len(log, 0, log.len()),
{
    let b = log.len();
    let after = spec_write_at(tree, 32 + 40 * (2 * b), spec_node_bytes(hash, length));
    let roots = spec_full_roots(2 * b);
    assert((2 * b) / 2 == b);
    assert forall|i: int| 0 <= i < roots.len() implies spec_length_at(after, #[trigger] roots[i])
        == spec_node_len(log, spec_depth(roots[i]), spec_offset(roots[i])) by {
        lemma_root_within(b, i);
        lemma_roots_bounds(0, b, i);
        assert(spec_complete(roots[i], log.len()));
        lemma_node_len_bound(log, roots[i]);
        lemma_node_written(tree, 2 * b, hash, length, roots[i]);
    }
    lemma_lengths(after, log, roots);
    lemma_roots_len(log, b);
}

/// Whether a storage with this limit is certain to take what the append of
/// block `blocks` writes: the nodes, the block where the full roots before it
/// lead, every page of the bitfield with the block marked, and the signature.
pub open spec fn spec_ready(
    limit: Option<nat>,
    tree: Seq<u8>,
    st: crate::pager::PagerState,
    blocks: nat,
    hash: Seq<u8>,
    length: u64,
) -> bool {
    match limit {
        Some(n) => {
            &&& 72 + 80 * blocks <= n
            &&& spec_lengths(
                spec_write_at(tree, 32 + 40 * (2 * blocks), spec_node_bytes(hash, length)),
                spec_full_roots(2 * blocks),
            ) + length <= n
            &&& spec_lengths(
                spec_write_at(tree, 32 + 40 * (2 * blocks), spec_node_bytes(hash, length)),
                spec_full_roots(2 * blocks),
            ) + length <= u64::MAX
            &&& forall|p: u64| #[trigger]
                crate::bitfield::spec_set(st, blocks, true).pages.contains_key(p) ==> 3360 + 3328 * p
                    <= n
            &&& 160 + 64 * blocks <= n
        },
        None => false,
    }
}

/// A storage with room for the log with one block more is ready for the
/// append of that block.
pub proof fn lemma_ready<S: Storage>(feed: Feed<S>, log: Seq<Seq<u8>>, hash: Seq<u8>, length: u64)
    requires
        feed.spec_holds(log),
        hash.len() == 32,
        length > 0,
        feed.length + length <= u64::MAX,
        spec_room(feed.storage.spec_limit(), log.len() + 1, (feed.length + length) as nat),
    ensures
        spec_ready(
            feed.storage.spec_limit(),
            feed.storage.spec_file(FileType::Tree),
            feed.bitfield.pager.state(),
            log.len(),
            hash,
            length,
        ),
{
    let b = log.len();
    let st = feed.bitfield.pager.state();
    let n = feed.storage.spec_limit().unwrap();
    lemma_leaf_offset(feed.storage.spec_file(FileType::Tree), log, hash, length);
    crate::bitfield::lemma_set_filled(st, b);
    assert forall|p: u64| #[trigger]
        crate::bitfield::spec_set(st, b, true).pages.contains_key(p) implies 3360 + 3328 * p
        <= n by {
        lemma_page_count(b + 1, p);
    }
}

/// Makes the keys of a seed and writes them to the storage: the public key
/// that belongs to the seed, and as the secret key the seed followed by the
/// public key. Fails only where the storage fails to write.
pub fn fresh_keys<S: Storage>(storage: &mut S, seed: [u8; 32]) -> (r: Result<
    ([u8; 32], [u8; 64]),
    Error,
>)
    requires
        old(storage).wf(),
    ensures
        final(storage).wf(),
        final(storage).spec_limit() == old(storage).spec_limit(),
        final(storage).spec_kept() == old(storage).spec_kept(),
        match r {
            Ok((k, s)) => k@ == spec_public_key(seed@) && s@ == seed@ + k@ && spec_valid_pair(s@),
            Err(_) => true,
        },
        old(storage).spec_kept() ==> (
            forall|ft: FileType|
                ft != FileType::Key && ft != FileType::Secret ==> final(storage).spec_file(ft)
                    == old(storage).spec_file(ft)
        ),
        old(storage).spec_kept() ==> (
            old(storage).spec_limit().is_some() && 64 <= old(storage).spec_limit().unwrap()
                ==> r.is_ok()
        ),
        old(storage).spec_kept() ==> (
            r.is_ok() ==> final(storage).spec_file(FileType::Key) == spec_write_at(
                old(storage).spec_file(FileType::Key),
                0,
                r.unwrap().0@,
            ) && final(storage).spec_file(FileType::Secret) == spec_write_at(
                old(storage).spec_file(FileType::Secret),
                0,
                r.unwrap().1@,
            )
        ),
{
    let key = public_key(&seed);
    let mut secret = [0u8; 64];
    let mut i: usize = 0;
    while i < 64
        invariant
            i <= 64,
            forall|j: int|
                0 <= j < i ==> secret@[j] == (if j < 32 {
                    seed@[j]
                } else {
                    key@[j - 32]
                }),
        decreases 64 - i,
    {
        let byte = if i < 32 {
            seed[i]
        } else {
            key[i - 32]
        };
        secret[i] = byte;
        i += 1;
    }
    proof {
        assert(secret@ =~= seed@ + key@);
    }
    match storage.put_key(key) {
        Ok(()) => {},
        Err(e) => {
            return Err(e);
        },
    }
    match storage.put_secret(secret) {
        Ok(()) => {},
        Err(e) => {
            return Err(e);
        },
    }
    Ok((key, secret))
}

/// What an append of a block that is not empty leaves: one block and its
/// bytes more; the roots joined; the nodes made in their slots of the tree
/// file; the block in the data file, where the lengths of the full roots
/// before it lead; the block marked in the bitfield and the pages that changed
/// written; and the signature of the roots in the slot of the new number of
/// blocks.
pub open spec fn spec_appended<S: Storage>(before: Feed<S>, after: Feed<S>, data: Seq<u8>) -> bool {
    &&& after.wf()
    &&& after.blocks == before.blocks + 1
    &&& after.length == before.length + data.len()
    &&& (spec_views(after.merkle.roots@), spec_made(before, data))
        == crate::merkle::spec_inserted::<Blake2b>(
        spec_views(before.merkle.roots@),
        before.blocks,
        data,
    )
    &&& after.bitfield.pager.pages() == crate::bitfield::spec_set(
        before.bitfield.pager.state(),
        before.blocks as nat,
        true,
    ).pages
    &&& after.bitfield.pager.dirty().len() == 0
    &&& before.storage.spec_kept() ==> spec_written_out(before, after, data)
}

/// What an append leaves in the files of a storage that says what its files
/// hold.
pub open spec fn spec_written_out<S: Storage>(before: Feed<S>, after: Feed<S>, data: Seq<u8>) -> bool {
    &&& after.storage.spec_file(FileType::Tree) == spec_tree_after(
        before.storage.spec_file(FileType::Tree),
        spec_made(before, data),
        spec_made(before, data).len(),
    )
    &&& after.storage.spec_file(FileType::Data) == spec_write_at(
        before.storage.spec_file(FileType::Data),
        spec_lengths(
            spec_tree_after(before.storage.spec_file(FileType::Tree), spec_made(before, data), 1),
            spec_full_roots((2 * before.blocks) as nat),
        ),
        data,
    )
    &&& after.storage.spec_file(FileType::Bitfield) == spec_flushed(
        before.storage.spec_file(FileType::Bitfield),
        crate::bitfield::spec_set(before.bitfield.pager.state(), before.blocks as nat, true).pages,
        crate::bitfield::spec_set(before.bitfield.pager.state(), before.blocks as nat, true).dirty,
    )
    &&& after.storage.spec_file(FileType::Signatures) == spec_write_at(
        before.storage.spec_file(FileType::Signatures),
        32 + 64 * (before.blocks + 1) as nat,
        spec_signature(
            spec_pair(before.secret@, before.key@),
            spec_blake2b_256(spec_roots_message(after.merkle.roots@)),
        ),
    )
}

/// The number of pages that hold the bits of `blocks` blocks.
pub open spec fn spec_page_count(blocks: nat) -> nat {
    (blocks + 8191) / 8192
}

/// Page `q` of the bitfield file.
pub open spec fn spec_page_at(file: Seq<u8>, q: nat) -> Seq<u8> {
    spec_slot(file, 32 + q * 3328, 3328)
}

/// The bitfield file holds the first `n` pages, and nothing after them.
pub open spec fn spec_pages_kept(file: Seq<u8>, pages: Map<u64, Seq<u8>>, n: nat) -> bool {
    &&& forall|q: nat| q < n ==> #[trigger] spec_page_at(file, q) == pages[q as u64]
    &&& file.len() <= 32 + n * 3328
    &&& n > 0 ==> file.len() == 32 + n * 3328
}

/// After the pages in the queue were written, the file holds those pages as
/// they are now, and the others as it held them.
pub proof fn lemma_flushed(file: Seq<u8>, pages: Map<u64, Seq<u8>>, dirty: Seq<u64>, q: nat, n: nat)
    requires
        forall|i: int|
            0 <= i < dirty.len() ==> pages.contains_key(#[trigger] dirty[i]) && pages[dirty[i]].len()
                == 3328 && dirty[i] < n,
        q <= u64::MAX,
    ensures
        spec_page_at(spec_flushed(file, pages, dirty), q) == if dirty.contains(q as u64) {
            pages[q as u64]
        } else {
            spec_page_at(file, q)
        },
        spec_flushed(file, pages, dirty).len() >= file.len(),
        spec_flushed(file, pages, dirty).len() <= if file.len() > 32 + n * 3328 {
            file.len()
        } else {
            32 + n * 3328
        },
        dirty.contains(q as u64) ==> spec_flushed(file, pages, dirty).len() >= 32 + (q + 1) * 3328,
    decreases dirty.len(),
{
    if dirty.len() > 0 {
        let last = dirty.last();
        let rest = dirty.drop_last();
        let next = spec_write_at(file, (32 + last * 3328) as nat, pages[last]);
        assert(pages.contains_key(dirty[dirty.len() - 1]));
        lemma_slot_write(file, (32 + last * 3328) as nat, pages[last], 32 + q * 3328, 3328);
        assert forall|i: int| 0 <= i < rest.len() implies pages.contains_key(#[trigger] rest[i])
            && pages[rest[i]].len() == 3328 && rest[i] < n by {
            assert(rest[i] == dirty[i]);
        }
        lemma_flushed(next, pages, rest, q, n);
        if dirty.contains(q as u64) {
            let i = choose|i: int| 0 <= i < dirty.len() && dirty[i] == q as u64;
            if i < rest.len() {
                assert(rest[i] == q as u64);
            }
        }
        if rest.contains(q as u64) {
            let i = choose|i: int| 0 <= i < rest.len() && rest[i] == q as u64;
            assert(dirty[i] == q as u64);
        }
        assert(spec_page_at(next, q) == if q == last {
            pages[last]
        } else {
            spec_page_at(file, q)
        });
    }
}

/// A file that kept the pages keeps them after the pages that changed were
/// written.
pub proof fn lemma_kept_on(
    file: Seq<u8>,
    before: crate::pager::PagerState,
    after: crate::pager::PagerState,
    n0: nat,
    n1: nat,
)
    requires
        spec_pages_kept(file, before.pages, n0),
        crate::bitfield::spec_dense(before.pages, n0),
        crate::bitfield::spec_dense(after.pages, n1),
        n0 <= n1 <= u64::MAX,
        crate::sparse::spec_full_pages(after.pages),
        before.dirty.len() == 0,
        crate::tree::spec_queued(before, after),
        forall|i: int| 0 <= i < after.dirty.len() ==> after.pages.contains_key(#[trigger] after.dirty[i]),
    ensures
        spec_pages_kept(spec_flushed(file, after.pages, after.dirty), after.pages, n1),
{
    let r = spec_flushed(file, after.pages, after.dirty);
    assert forall|i: int| 0 <= i < after.dirty.len() implies after.pages.contains_key(
        #[trigger] after.dirty[i],
    ) && after.pages[after.dirty[i]].len() == 3328 && after.dirty[i] < n1 by {}
    assert forall|q: nat| q < n1 implies #[trigger] spec_page_at(r, q) == after.pages[q as u64] by {
        lemma_flushed(file, after.pages, after.dirty, q, n1);
        assert(after.pages.contains_key(q as u64));
        if !after.dirty.contains(q as u64) {
            assert(before.pages.contains_key(q as u64));
            assert(q < n0);
            assert(spec_page_at(file, q) == before.pages[q as u64]);
        }
    }
    lemma_flushed(file, after.pages, after.dirty, 0, n1);
    if n1 > 0 {
        let top = (n1 - 1) as nat;
        lemma_flushed(file, after.pages, after.dirty, top, n1);
        assert(after.pages.contains_key(top as u64));
        if n1 > n0 {
            assert(!before.pages.contains_key(top as u64));
            assert(after.dirty.contains(top as u64));
        }
    }
}

/// A file that keeps the pages holds them one after the other after its
/// header: read back, they are the same pages.
pub proof fn lemma_kept_pages(file: Seq<u8>, pages: Map<u64, Seq<u8>>, n: nat)
    requires
        spec_pages_kept(file, pages, n),
        crate::sparse::spec_full_pages(pages),
        crate::bitfield::spec_dense(pages, n),
        n <= u64::MAX,
    ensures
        spec_after_header(file) == crate::bitfield::spec_flatten(pages, n),
        spec_pages_of(spec_after_header(file)) == pages,
{
    let flat = crate::bitfield::spec_flatten(pages, n);
    let body = spec_after_header(file);
    assert forall|q: u64| q < n implies #[trigger] pages.contains_key(q) by {}
    crate::bitfield::lemma_flatten_len(pages, n);
    if n == 0 {
        assert(body =~= flat);
    } else {
        assert(body.len() == flat.len());
        assert forall|i: int| 0 <= i < body.len() implies body[i] == flat[i] by {
            let q = (i / 3328) as nat;
            let at = i % 3328;
            assert(q < n) by (nonlinear_arith)
                requires
                    q == i / 3328,
                    0 <= i < n * 3328,
            ;
            crate::bitfield::lemma_flatten_prefix(pages, n, q);
            let page = pages[q as u64];
            assert(pages.contains_key(q as u64));
            assert(spec_page_at(file, q) == page);
            assert(q * 3328 + 3328 <= n * 3328) by (nonlinear_arith)
                requires
                    q + 1 <= n,
            ;
            assert(flat.subrange((q * 3328) as int, (q * 3328 + 3328) as int)[at] == flat[i]);
            assert(spec_page_at(file, q)[at] == file[32 + i]);
        }
        assert(body =~= flat);
    }
    crate::bitfield::lemma_to_vec_from_buffer(pages, n);
}

/// The nodes that an append of `data` makes: the leaf of the block and the
/// parents that it completes.
pub open spec fn spec_made<S: Storage>(feed: Feed<S>, data: Seq<u8>) -> Seq<NodeView> {
    crate::merkle::spec_inserted::<Blake2b>(spec_views(feed.merkle.roots@), feed.blocks, data).1
}

/// The tree file after the first `upto` of the nodes were written into
/// their slots, one after the other.
pub open spec fn spec_tree_after(tree: Seq<u8>, nodes: Seq<NodeView>, upto: nat) -> Seq<u8>
    decreases upto,
{
    if upto == 0 || upto > nodes.len() {
        tree
    } else {
        spec_write_at(
            spec_tree_after(tree, nodes, (upto - 1) as nat),
            32 + 40 * nodes[upto - 1].index as nat,
            spec_node_bytes(nodes[upto - 1].hash, nodes[upto - 1].length),
        )
    }
}

/// The bitfield file after the pages in the queue were written, the last of
/// the queue first.
pub open spec fn spec_flushed(file: Seq<u8>, pages: Map<u64, Seq<u8>>, dirty: Seq<u64>) -> Seq<u8>
    decreases dirty.len(),
{
    if dirty.len() == 0 {
        file
    } else {
        spec_flushed(
            spec_write_at(file, (32 + dirty.last() * 3328) as nat, pages[dirty.last()]),
            pages,
            dirty.drop_last(),
        )
    }
}

/// Every file of the storage is empty.
pub open spec fn spec_blank<S: Storage>(storage: S) -> bool {
    storage.spec_kept() && forall|ft: FileType| #[trigger] storage.spec_file(ft).len() == 0
}

/// What `put_nodes` leaves in the tree file and the data file: the slot of
/// each node holds the node, the other slots hold what they held, and the block
/// of the leaf lies where the lengths of the full roots before the leaf lead.
pub open spec fn spec_stored(
    tree0: Seq<u8>,
    tree2: Seq<u8>,
    data0: Seq<u8>,
    data2: Seq<u8>,
    nodes: Seq<Node>,
) -> bool {
    &&& forall|i: int|
        0 <= i < nodes.len() ==> spec_node_at(tree2, (#[trigger] nodes[i]).index as nat) == Some(
            (nodes[i].hash@, nodes[i].length),
        )
    &&& forall|m: nat|
        !spec_written(nodes, nodes.len(), m) ==> #[trigger] spec_node_at(tree2, m) == spec_node_at(
            tree0,
            m,
        )
    &&& data2 == spec_write_at(
        data0,
        spec_lengths(
            spec_write_at(
                tree0,
                32 + 40 * nodes[0].index as nat,
                spec_node_bytes(nodes[0].hash@, nodes[0].length),
            ),
            spec_full_roots(nodes[0].index as nat),
        ),
        nodes[0]@.data.unwrap(),
    )
}

/// The sum of the lengths of the nodes, if it fits in 64 bits.
fn sum_lengths(roots: &Vec<Node>) -> (r: Option<u64>)
    ensures
        match r {
            Some(length) => length == spec_sum(roots@),
            None => spec_sum(roots@) > u64::MAX,
        },
{
    let mut length: u64 = 0;
    let mut i: usize = 0;
    proof {
        assert(roots@.take(0) =~= Seq::<Node>::empty());
    }
    while i < roots.len()
        invariant
            i <= roots@.len(),
            length == spec_sum(roots@.take(i as int)),
        decreases roots@.len() - i,
    {
        proof {
            assert(roots@.take(i + 1).drop_last() =~= roots@.take(i as int));
            assert(roots@.take(i + 1).last() == roots@[i as int]);
            lemma_sum_grows(roots@, (i + 1) as nat);
        }
        length = match length.checked_add(roots[i].length) {
            Some(sum) => sum,
            None => {
                return None;
            },
        };
        i += 1;
    }
    proof {
        assert(roots@.take(roots@.len() as int) =~= roots@);
    }
    Some(length)
}

/// The sum of the lengths of the first nodes is at most that of them all.
proof fn lemma_sum_grows(roots: Seq<Node>, n: nat)
    requires
        n <= roots.len(),
    ensures
        spec_sum(roots.take(n as int)) <= spec_sum(roots),
    decreases roots.len() - n,
{
    if n < roots.len() {
        lemma_sum_grows(roots, n + 1);
        assert(roots.take((n + 1) as int).drop_last() =~= roots.take(n as int));
    } else {
        assert(roots.take(n as int) =~= roots);
    }
}

/// A bitfield file of at most a header holds no pages, and so no blocks.
proof fn lemma_blank(file: Seq<u8>)
    requires
        file.len() <= 32,
    ensures
        spec_pages_of(spec_after_header(file)) == Map::<u64, Seq<u8>>::empty(),
        forall|b: nat|
            !crate::sparse::spec_bit(spec_pages_of(spec_after_header(file)), 0, 1024, b),
        spec_blocks(
            crate::tree::spec_bits(spec_pages_of(spec_after_header(file)), 1024, 2048),
            spec_len(spec_pages_of(spec_after_header(file))),
        ) == 0,
        crate::bitfield::spec_filled(spec_pages_of(spec_after_header(file)), 0),
{
    lemma_nothing_complete();
    let pages = spec_pages_of(spec_after_header(file));
    assert(pages =~= Map::<u64, Seq<u8>>::empty());
    assert forall|b: nat| !crate::sparse::spec_bit(pages, 0, 1024, b) by {
        crate::sparse::lemma_with_bit(0, b, true, b);
    }
    assert forall|b: nat| !crate::sparse::spec_bit(pages, 1024, 2048, b) by {
        crate::sparse::lemma_with_bit(0, b, true, b);
    }
    assert(pages.dom() =~= Set::<u64>::empty());
    assert(spec_len(pages) == 0);
}

/// The length of a log with one block more.
pub proof fn lemma_log_len_push(log: Seq<Seq<u8>>, block: Seq<u8>)
    ensures
        spec_log_len(log.push(block), 0, log.len() + 1) == spec_log_len(log, 0, log.len())
            + block.len(),
        forall|i: int|
            0 <= i < log.len() ==> (#[trigger] log.push(block)[i]) == log[i],
{
    lemma_log_grows(log, block, log.len());
}

/// A log that held `log` holds `log` with the new block, once the nodes of
/// the block are stored, the block is marked and the counts are raised.
pub proof fn lemma_appended<S: Storage>(
    before: Feed<S>,
    after: Feed<S>,
    log: Seq<Seq<u8>>,
    block: Seq<u8>,
    nodes: Seq<Node>,
)
    requires
        before.spec_holds(log),
        block.len() > 0,
        after.wf(),
        after.blocks == before.blocks + 1,
        after.length == before.length + block.len(),
        after.merkle.spec_holds::<Blake2b>(log.push(block)),
        spec_all_true::<Blake2b>(nodes, log.push(block)),
        nodes.len() == spec_depth(log.len()) + 1,
        nodes[0]@.data == Some(block),
        nodes[0].index == 2 * log.len(),
        nodes[0].length == block.len(),
        forall|j: int|
            0 <= j < nodes.len() ==> (#[trigger] nodes[j]).index == spec_index(
                j as nat,
                log.len() / pow2(j as nat),
            ) && spec_depth(nodes[j].index as nat) == j && !spec_complete(
                nodes[j].index as nat,
                log.len(),
            ),
        spec_stored(
            before.storage.spec_file(FileType::Tree),
            after.storage.spec_file(FileType::Tree),
            before.storage.spec_file(FileType::Data),
            after.storage.spec_file(FileType::Data),
            nodes,
        ),
        after.bitfield.pager.pages() == crate::bitfield::spec_set(
            before.bitfield.pager.state(),
            log.len(),
            true,
        ).pages,
        after.bitfield.pager.dirty().len() == 0,
        after.storage.spec_file(FileType::Bitfield) == spec_flushed(
            before.storage.spec_file(FileType::Bitfield),
            crate::bitfield::spec_set(before.bitfield.pager.state(), log.len(), true).pages,
            crate::bitfield::spec_set(before.bitfield.pager.state(), log.len(), true).dirty,
        ),
        forall|i: int|
            0 <= i < crate::bitfield::spec_set(
                before.bitfield.pager.state(),
                log.len(),
                true,
            ).dirty.len() ==> crate::bitfield::spec_set(
                before.bitfield.pager.state(),
                log.len(),
                true,
            ).pages.contains_key(
                #[trigger] crate::bitfield::spec_set(
                    before.bitfield.pager.state(),
                    log.len(),
                    true,
                ).dirty[i],
            ),
        after.storage.spec_kept(),
    ensures
        after.spec_holds(log.push(block)),
{
    let st0 = before.bitfield.pager.state();
    let st1 = crate::bitfield::spec_set(st0, log.len(), true);
    crate::bitfield::lemma_set_queued(st0, log.len(), true);
    crate::bitfield::lemma_set_filled(st0, log.len());
    lemma_page_count(log.len(), 0);
    assert(crate::bitfield::spec_dense(st0.pages, spec_page_count(log.len()))) by {
        assert forall|p: u64| #[trigger] st0.pages.contains_key(p) <==> p < spec_page_count(
            log.len(),
        ) by {
            assert(st0.pages.contains_key(p) <==> p * 8192 < log.len());
            lemma_page_count(log.len(), p);
        }
    }
    assert(crate::bitfield::spec_dense(st1.pages, spec_page_count(log.len() + 1))) by {
        assert forall|p: u64| #[trigger] st1.pages.contains_key(p) <==> p < spec_page_count(
            log.len() + 1,
        ) by {
            assert(st1.pages.contains_key(p) <==> p * 8192 < log.len() + 1);
            lemma_page_count(log.len() + 1, p);
        }
    }
    lemma_kept_on(
        before.storage.spec_file(FileType::Bitfield),
        st0,
        st1,
        spec_page_count(log.len()),
        spec_page_count(log.len() + 1),
    );
    let grown = log.push(block);
    lemma_stored(
        before.storage.spec_file(FileType::Tree),
        after.storage.spec_file(FileType::Tree),
        before.storage.spec_file(FileType::Data),
        after.storage.spec_file(FileType::Data),
        log,
        block,
        nodes,
    );
    lemma_log_len_push(log, block);
    crate::bitfield::lemma_set_filled(before.bitfield.pager.state(), log.len());
    assert forall|i: int| 0 <= i < grown.len() implies (#[trigger] grown[i]).len() > 0 by {
        if i < log.len() {
            assert(grown[i] == log[i]);
        }
    }
}

/// After the nodes of an append were stored, the tree file and the data file
/// hold the log with the new block.
pub proof fn lemma_stored(
    tree0: Seq<u8>,
    tree2: Seq<u8>,
    data0: Seq<u8>,
    data2: Seq<u8>,
    log: Seq<Seq<u8>>,
    block: Seq<u8>,
    nodes: Seq<Node>,
)
    requires
        spec_tree_ok(tree0, log),
        data0 == spec_concat(log, log.len()),
        spec_log_len(log, 0, log.len()) <= u64::MAX,
        spec_stored(tree0, tree2, data0, data2, nodes),
        nodes.len() == spec_depth(log.len()) + 1,
        nodes[0]@.data == Some(block),
        nodes[0].index == 2 * log.len(),
        nodes[0].hash@.len() == 32,
        nodes[0].length > 0,
        forall|j: int|
            0 <= j < nodes.len() ==> (#[trigger] nodes[j]).index == spec_index(
                j as nat,
                log.len() / pow2(j as nat),
            ) && spec_depth(nodes[j].index as nat) == j && !spec_complete(
                nodes[j].index as nat,
                log.len(),
            ),
        spec_all_true::<Blake2b>(nodes, log.push(block)),
    ensures
        spec_tree_ok(tree2, log.push(block)),
        data2 == spec_concat(log.push(block), log.len() + 1),
{
    let grown = log.push(block);
    lemma_tree_grows(tree0, tree2, log, block, nodes);
    let b = log.len();
    let leaf = nodes[0];
    let tree1 = spec_write_at(
        tree0,
        32 + 40 * leaf.index as nat,
        spec_node_bytes(leaf.hash@, leaf.length),
    );
    lemma_leaf_offset(tree0, log, leaf.hash@, leaf.length);
    lemma_concat_len(log, b);
    lemma_write_at_end(data0, block);
    lemma_log_grows(log, block, b);
    assert(grown[b as int] == block);
    assert(spec_concat(grown, b + 1) == spec_concat(grown, b) + block);
}

/// Every block of a log that is held is marked in the bitfield, and lies in
/// the data file where the tree file leads: what `has` and `get` answer from.
/// So after the appends of blocks `0` to `b`, `has(b)` holds and `get(b)` is
/// block `b`.
pub proof fn lemma_held<S: Storage>(feed: Feed<S>, log: Seq<Seq<u8>>, b: nat)
    requires
        feed.spec_holds(log),
        b < log.len(),
    ensures
        feed.bitfield.spec_get(b),
        spec_offset_of(feed.storage.spec_file(FileType::Tree), 2 * b) == Some(
            (spec_log_len(log, 0, b), log[b as int].len()),
        ),
        spec_slot(
            feed.storage.spec_file(FileType::Data),
            spec_log_len(log, 0, b),
            log[b as int].len(),
        ) == log[b as int],
{
    lemma_offset_of(feed.storage.spec_file(FileType::Tree), log, b);
    lemma_concat(log, log.len(), b);
}

/// Of a log that holds `B` blocks, `B` are counted in any stretch from the
/// start that reaches them all: so in the first `8 * B` bits.
pub proof fn lemma_total<S: Storage>(feed: Feed<S>, log: Seq<Seq<u8>>, to: nat)
    requires
        feed.spec_holds(log),
        to >= log.len(),
    ensures
        feed.bitfield.spec_total(0, to) == log.len(),
        feed.bitfield.spec_total(0, 8 * log.len()) == log.len(),
{
    crate::bitfield::lemma_count_prefix(feed.bitfield.pager.pages(), log.len(), to);
    crate::bitfield::lemma_count_prefix(feed.bitfield.pager.pages(), log.len(), 8 * log.len());
}

/// The roots of a log that holds `B` blocks are the full roots below the
/// index `2 * B`, in order, and each holds the sum of the lengths of its
/// blocks.
pub proof fn lemma_roots<S: Storage>(feed: Feed<S>, log: Seq<Seq<u8>>)
    requires
        feed.spec_holds(log),
    ensures
        spec_indices(feed.merkle.roots@) == spec_full_roots(2 * log.len()),
        forall|i: int|
            0 <= i < feed.merkle.roots@.len() ==> (#[trigger] feed.merkle.roots@[i]).length
                == spec_node_len(
                log,
                spec_depth(feed.merkle.roots@[i].index as nat),
                spec_offset(feed.merkle.roots@[i].index as nat),
            ),
{
}

/// The pages that hold the bits of `b` blocks are those whose first block is
/// among them.
pub proof fn lemma_page_count(b: nat, p: u64)
    ensures
        p * 8192 < b <==> p < spec_page_count(b),
        spec_page_count(b) <= spec_page_count(b + 1) <= b + 1,
{
}

/// The storage holds the log: the blocks lie in the data file one after the
/// other, the tree file holds the nodes over them, and the bitfield file holds
/// the pages in which the blocks, and no others, are marked.
pub open spec fn spec_stores<S: Storage>(storage: S, log: Seq<Seq<u8>>) -> bool {
    &&& storage.spec_kept()
    &&& log.len() < MAX_FEED_BLOCKS
    &&& forall|i: int| 0 <= i < log.len() ==> (#[trigger] log[i]).len() > 0
    &&& spec_log_len(log, 0, log.len()) <= u64::MAX
    &&& crate::bitfield::spec_filled(
        spec_pages_of(spec_after_header(storage.spec_file(FileType::Bitfield))),
        log.len(),
    )
    &&& spec_pages_kept(
        storage.spec_file(FileType::Bitfield),
        spec_pages_of(spec_after_header(storage.spec_file(FileType::Bitfield))),
        spec_page_count(log.len()),
    )
    &&& spec_tree_ok(storage.spec_file(FileType::Tree), log)
    &&& storage.spec_file(FileType::Data) == spec_concat(log, log.len())
}

/// The pages in which the first `b` blocks are marked are the pages that
/// hold their bits.
pub proof fn lemma_filled_dense(pages: Map<u64, Seq<u8>>, b: nat)
    requires
        crate::bitfield::spec_filled(pages, b),
    ensures
        crate::bitfield::spec_dense(pages, spec_page_count(b)),
{
    assert forall|p: u64| #[trigger] pages.contains_key(p) <==> p < spec_page_count(b) by {
        assert(pages.contains_key(p) <==> p * 8192 < b);
        lemma_page_count(b, p);
    }
}

/// What a log that holds blocks leaves in its storage holds those blocks.
pub proof fn lemma_holds_stores<S: Storage>(feed: Feed<S>, log: Seq<Seq<u8>>)
    requires
        feed.spec_holds(log),
    ensures
        spec_stores(feed.storage, log),
{
    lemma_filled_dense(feed.bitfield.pager.pages(), log.len());
    lemma_page_count(log.len(), 0);
    lemma_kept_pages(
        feed.storage.spec_file(FileType::Bitfield),
        feed.bitfield.pager.pages(),
        spec_page_count(log.len()),
    );
}

/// A header written at the start of a file leaves what follows the header.
pub proof fn lemma_header_written(file: Seq<u8>, header: Seq<u8>, q: nat)
    requires
        header.len() == 32,
    ensures
        spec_after_header(spec_write_at(file, 0, header)) == spec_after_header(file),
        spec_page_at(spec_write_at(file, 0, header), q) == spec_page_at(file, q),
        spec_node_at(spec_write_at(file, 0, header), q) == spec_node_at(file, q),
        spec_write_at(file, 0, header).len() == if file.len() < 32 {
            32
        } else {
            file.len()
        },
{
    let after = spec_write_at(file, 0, header);
    assert(spec_after_header(after) =~= spec_after_header(file));
    lemma_slot_write(file, 0, header, 32 + q * 3328, 3328);
    lemma_slot_write(file, 0, header, 32 + 40 * q, 40);
}

/// The bitfield in which the first `b` blocks are marked counts `b` blocks.
pub proof fn lemma_filled_blocks(pages: Map<u64, Seq<u8>>, b: nat)
    requires
        crate::bitfield::spec_filled(pages, b),
        pages.dom().finite(),
        b < MAX_FEED_BLOCKS,
    ensures
        spec_blocks(crate::tree::spec_bits(pages, 1024, 2048), spec_len(pages)) == b,
{
    let n = spec_page_count(b);
    assert forall|k: u64| pages.dom().contains(k) <==> k < n by {
        assert(pages.contains_key(k) <==> k * 8192 < b);
        lemma_page_count(b, k);
    }
    lemma_page_count(b, 0);
    lemma_dense_len(pages.dom(), n);
    lemma2_to64_rest();
    let t = crate::tree::spec_bits(pages, 1024, 2048);
    assert(crate::tree::spec_marked(t, b)) by {
        assert forall|m: nat| #[trigger] t.contains(m) <==> spec_complete(m, b) by {
            assert(crate::sparse::spec_bit(pages, 1024, 2048, m) <==> spec_complete(m, b));
        }
    }
    crate::tree::lemma_blocks_marked(t, b, spec_len(pages));
}

/// The lengths that the nodes hold add up to the lengths that the log gives
/// the nodes of their indices, where each holds its own.
pub proof fn lemma_sum(roots: Seq<Node>, log: Seq<Seq<u8>>)
    requires
        forall|k: int|
            0 <= k < roots.len() ==> (#[trigger] roots[k]).length == spec_node_len(
                log,
                spec_depth(roots[k].index as nat),
                spec_offset(roots[k].index as nat),
            ),
    ensures
        spec_sum(roots) == spec_roots_len(log, spec_indices(roots)),
    decreases roots.len(),
{
    if roots.len() > 0 {
        let head = roots.drop_last();
        assert forall|k: int| 0 <= k < head.len() implies (#[trigger] head[k]).length
            == spec_node_len(
            log,
            spec_depth(head[k].index as nat),
            spec_offset(head[k].index as nat),
        ) by {
            assert(head[k] == roots[k]);
        }
        lemma_sum(head, log);
        assert(spec_indices(roots).drop_last() =~= spec_indices(head));
        assert(spec_indices(roots).last() == roots.last().index);
    }
}

/// A log opened on a storage that holds blocks holds those blocks.
pub proof fn lemma_reopened<S: Storage>(storage: S, feed: Feed<S>, log: Seq<Seq<u8>>)
    requires
        spec_stores(storage, log),
        feed.wf(),
        feed.storage.spec_kept(),
        feed.storage.spec_file(FileType::Data) == storage.spec_file(FileType::Data),
        feed.storage.spec_file(FileType::Tree) == storage.spec_file(FileType::Tree)
            || feed.storage.spec_file(FileType::Tree) == spec_write_at(
            storage.spec_file(FileType::Tree),
            0,
            crate::storage::spec_tree_header(),
        ),
        feed.storage.spec_file(FileType::Bitfield) == storage.spec_file(FileType::Bitfield)
            || feed.storage.spec_file(FileType::Bitfield) == spec_write_at(
            storage.spec_file(FileType::Bitfield),
            0,
            crate::storage::spec_bitfield_header(),
        ),
        feed.bitfield.pager.pages() == spec_pages_of(
            spec_after_header(feed.storage.spec_file(FileType::Bitfield)),
        ),
        feed.bitfield.pager.dirty().len() == 0,
        feed.blocks == spec_blocks(
            feed.bitfield.spec_tree(),
            spec_len(feed.bitfield.pager.pages()),
        ),
        spec_views(feed.merkle.roots@) == spec_found(
            feed.storage.spec_file(FileType::Tree),
            spec_full_roots((2 * feed.blocks) as nat),
            spec_full_roots((2 * feed.blocks) as nat).len(),
        ),
    ensures
        feed.spec_holds(log),
{
    let b = log.len();
    let file0 = storage.spec_file(FileType::Bitfield);
    let file1 = feed.storage.spec_file(FileType::Bitfield);
    let tree0 = storage.spec_file(FileType::Tree);
    let tree1 = feed.storage.spec_file(FileType::Tree);
    let pages = feed.bitfield.pager.pages();
    lemma_header_written(file0, crate::storage::spec_bitfield_header(), 0);
    lemma_header_written(tree0, crate::storage::spec_tree_header(), 0);
    assert(spec_after_header(file1) == spec_after_header(file0));
    lemma_filled_blocks(pages, b);
    assert(feed.blocks == b);
    // The bitfield file.
    assert(spec_pages_kept(file1, pages, spec_page_count(b))) by {
        assert forall|q: nat| q < spec_page_count(b) implies #[trigger] spec_page_at(file1, q)
            == pages[q as u64] by {
            lemma_header_written(file0, crate::storage::spec_bitfield_header(), q);
            assert(spec_page_at(file0, q) == pages[q as u64]);
        }
    }
    // The tree file.
    assert(spec_tree_ok(tree1, log)) by {
        assert forall|n: nat| #[trigger] spec_complete(n, log.len()) implies spec_node_at(tree1, n)
            == Some(spec_node_of(log, n)) by {
            lemma_header_written(tree0, crate::storage::spec_tree_header(), n);
        }
    }
    // The roots.
    let all = spec_full_roots((2 * b) as nat);
    let roots = feed.merkle.roots@;
    assert((2 * b) / 2 == b);
    assert(spec_indices(roots).len() == all.len());
    lemma_found_all(tree1, all, all.len());
    assert forall|k: int| 0 <= k < roots.len() implies spec_true_node::<Blake2b>(
        (#[trigger] roots[k])@,
        log,
    ) && roots[k].length == spec_node_len(
        log,
        spec_depth(roots[k].index as nat),
        spec_offset(roots[k].index as nat),
    ) by {
        assert(spec_views(roots)[k] == roots[k]@);
        assert(spec_indices(roots)[k] == roots[k].index);
        lemma_root_within(b, k);
        assert(spec_complete(all[k], b));
        lemma_node_len_bound(log, all[k]);
    }
    lemma_sum(roots, log);
    lemma_roots_len(log, b);
}

/// No node is complete where there are no blocks.
pub proof fn lemma_nothing_complete()
    ensures
        forall|n: nat| !(#[trigger] spec_complete(n, 0)),
{
    assert forall|n: nat| !(#[trigger] spec_complete(n, 0)) by {
        lemma_pow2_pos(spec_depth(n));
        assert((spec_offset(n) + 1) * pow2(spec_depth(n)) > 0) by (nonlinear_arith)
            requires
                pow2(spec_depth(n)) > 0,
        ;
    }
}

/// A finite set of the numbers below `n` has `n` members.
pub proof fn lemma_dense_len(s: Set<u64>, n: nat)
    requires
        s.finite(),
        n <= u64::MAX,
        forall|k: u64| s.contains(k) <==> k < n,
    ensures
        s.len() == n,
    decreases n,
{
    if n == 0 {
        assert(s =~= Set::<u64>::empty());
    } else {
        let last = (n - 1) as u64;
        lemma_dense_len(s.remove(last), (n - 1) as nat);
    }
}

/// The bitfield of a log that holds `B` blocks counts `B` blocks, and its
/// roots are the full roots below the index `2 * B`.
pub proof fn lemma_blocks<S: Storage>(feed: Feed<S>, log: Seq<Seq<u8>>)
    requires
        feed.spec_holds(log),
    ensures
        spec_blocks(feed.bitfield.spec_tree(), spec_len(feed.bitfield.pager.pages())) == log.len(),
        spec_full_roots(
            2 * spec_blocks(feed.bitfield.spec_tree(), spec_len(feed.bitfield.pager.pages())),
        ) == spec_indices(feed.merkle.roots@),
{
    lemma_filled_blocks(feed.bitfield.pager.pages(), log.len());
}

/// In a log that holds `B` blocks, the nodes that are verified are those
/// whose leaves are all among the blocks, and each is verified by the leaf of
/// block `B`.
pub proof fn lemma_verified<S: Storage>(feed: Feed<S>, log: Seq<Seq<u8>>, n: nat)
    requires
        feed.spec_holds(log),
    ensures
        feed.bitfield.spec_tree().contains(n) <==> spec_complete(n, log.len()),
        crate::tree::spec_verified_by(feed.bitfield.spec_tree(), n) == if spec_complete(
            n,
            log.len(),
        ) {
            Some(2 * log.len())
        } else {
            None
        },
{
    let t = feed.bitfield.spec_tree();
    lemma2_to64_rest();
    assert(crate::tree::spec_marked(t, log.len())) by {
        assert forall|m: nat| #[trigger] t.contains(m) <==> spec_complete(m, log.len()) by {
            assert(crate::sparse::spec_bit(feed.bitfield.pager.pages(), 1024, 2048, m)
                <==> spec_complete(m, log.len()));
        }
    }
    if t.contains(n) {
        crate::tree::lemma_verified_by_marked(t, log.len(), n);
    }
}

/// Where as many nodes were found as there are roots, every root was found.
pub proof fn lemma_found_all(tree: Seq<u8>, roots: Seq<nat>, upto: nat)
    requires
        upto <= roots.len(),
    ensures
        spec_found(tree, roots, upto).len() <= upto,
        spec_found(tree, roots, upto).len() == upto ==> forall|k: int|
            0 <= k < upto ==> spec_node_at(tree, roots[k]).is_some() && #[trigger] spec_found(
                tree,
                roots,
                upto,
            )[k] == spec_view_at(roots[k], spec_node_at(tree, roots[k]).unwrap()),
    decreases upto,
{
    if upto > 0 {
        lemma_found_all(tree, roots, (upto - 1) as nat);
    }
}

/// The last full root of `b` blocks has the last block as its last leaf.
pub proof fn lemma_last_root(b: nat)
    requires
        b > 0,
        b < MAX_FEED_BLOCKS,
    ensures
        spec_full_roots(2 * b).len() > 0,
        spec_right_span(spec_full_roots(2 * b).last()) + 2 == 2 * b,
        spec_depth(spec_full_roots(2 * b).last()) < 63,
        spec_full_roots(2 * b).last() < 2 * b,
{
    assert((2 * b) / 2 == b);
    let n = (b - 1) as nat;
    let d = spec_depth(n);
    let h = spec_offset(n);
    let o = 2 * h;
    let p = pow2(d);
    lemma_index_of_depth_offset(n);
    lemma_pow2_pos(d);
    assert(b == (o + 1) * p);
    lemma_join_even(d, o);
    lemma_depth_offset_of_index(d, o);
    let last = spec_index(d, o);
    lemma_spans(last);
    assert(last + 1 == (2 * o + 1) * p);
    assert((2 * o + 1) * p + p == 2 * ((o + 1) * p)) by (nonlinear_arith);
    lemma2_to64_rest();
    lemma_depth_bound(last, 56);
}

} // verus!
