use dat::bitfield::Bitfield;
use dat::sparse::SparseBitfield;
use dat::tree::{ProofOpts, TreeBitfield};

fn tree_of(blocks: &[u64]) -> TreeBitfield {
    let mut tree = TreeBitfield::new();
    for &b in blocks {
        tree.set(b);
    }
    tree
}

#[test]
fn tree_set_marks_parents_of_marked_pairs() {
    let mut tree = TreeBitfield::new();
    assert!(!tree.get(0));
    assert!(tree.set(0));
    assert!(!tree.set(0));
    assert!(tree.get(0));
    assert!(!tree.get(1));
    assert!(tree.set(1));
    assert!(tree.get(2));
    assert!(tree.get(1));
    assert!(!tree.get(3));
    tree.set(3);
    assert!(tree.get(6));
    assert!(!tree.get(5));
    tree.set(2);
    assert!(tree.get(4));
    assert!(tree.get(5));
    assert!(tree.get(3));
    assert!(!tree.get(7));
}

#[test]
fn tree_verified_by() {
    let tree = TreeBitfield::new();
    assert_eq!(tree.verfied_by(0), None);
    let tree = tree_of(&[0]);
    assert_eq!(tree.verfied_by(0), Some(2));
    assert_eq!(tree.verfied_by(2), None);
    let tree = tree_of(&[0, 1]);
    assert_eq!(tree.verfied_by(0), Some(4));
    assert_eq!(tree.verfied_by(2), Some(4));
    assert_eq!(tree.verfied_by(1), Some(4));
    let tree = tree_of(&[0, 1, 2]);
    assert_eq!(tree.verfied_by(0), Some(6));
    assert_eq!(tree.verfied_by(4), Some(6));
    let tree = tree_of(&[0, 1, 2, 3]);
    assert_eq!(tree.verfied_by(0), Some(8));
    assert_eq!(tree.verfied_by(3), Some(8));
    let tree = tree_of(&[0, 1, 3]);
    assert_eq!(tree.verfied_by(0), Some(4));
    assert_eq!(tree.verfied_by(6), Some(8));
}

#[test]
fn tree_verified_by_is_even_and_none_only_for_unmarked() {
    let tree = tree_of(&[0, 1, 2, 3, 4, 6, 7, 9, 12]);
    for n in 0..40u64 {
        match tree.verfied_by(n) {
            Some(v) => {
                assert!(tree.get(n));
                assert_eq!(v % 2, 0);
            },
            None => assert!(!tree.get(n)),
        }
    }
}

#[test]
fn tree_blocks_and_roots() {
    assert_eq!(TreeBitfield::new().blocks(), 0);
    assert_eq!(TreeBitfield::new().roots(), Vec::<u64>::new());
    assert_eq!(tree_of(&[0]).blocks(), 1);
    assert_eq!(tree_of(&[0, 1]).blocks(), 2);
    assert_eq!(tree_of(&[0, 1, 2]).blocks(), 3);
    assert_eq!(tree_of(&[0, 1, 2]).roots(), vec![1, 4]);
    assert_eq!(tree_of(&[0, 1, 2, 3]).blocks(), 4);
    assert_eq!(tree_of(&[0, 1, 2, 3]).roots(), vec![3]);
    assert_eq!(tree_of(&[0, 1, 2, 3, 4]).blocks(), 5);
    assert_eq!(tree_of(&[0, 1, 2, 3, 4]).roots(), vec![3, 8]);
    assert_eq!(tree_of(&[1, 2]).blocks(), 0);
}

#[test]
fn tree_digest() {
    let tree = TreeBitfield::new();
    assert_eq!(tree.digest(0), 0);
    let tree = tree_of(&[0, 1]);
    assert_eq!(tree.digest(0), 1);
    assert_eq!(tree.digest(1), 1);
    assert_eq!(tree.digest(2), 1);
    assert_eq!(tree.digest(4), 4);
    assert_eq!(tree.digest(6), 4);
    let tree = tree_of(&[0, 1, 3]);
    assert_eq!(tree.digest(4), 2 + 4);
    let tree = tree_of(&[2]);
    // The sibling is marked, the parent is not.
    assert_eq!(tree.digest(6), 2);
    // The parent of the sibling pair is marked: the way ends there.
    let tree = tree_of(&[2, 3]);
    assert_eq!(tree.digest(4), 1);
    // The uncle is marked: bit 2.
    assert_eq!(tree.digest(0), 0b100);
}

#[test]
fn tree_digest_ends_at_a_marked_parent() {
    // Only the parent of the leaves 0 and 2 is marked.
    let mut bits = SparseBitfield::new();
    bits.set(1, true);
    let tree = TreeBitfield::with_bitfield(bits);
    assert_eq!(tree.digest(0), 0b101);
    assert_eq!(tree.digest(2), 0b101);
    // The sibling and the parent are marked: all that is needed is there.
    let mut bits = SparseBitfield::new();
    bits.set(1, true);
    bits.set(2, true);
    let tree = TreeBitfield::with_bitfield(bits);
    assert_eq!(tree.digest(0), 1);
}

#[test]
fn tree_proof_of_a_block() {
    let tree = tree_of(&[0, 1]);
    assert_eq!(tree.proof_of(4, ProofOpts::new()), None);
    assert_eq!(tree.proof_of(0, ProofOpts::new()), Some((vec![2], 4)));
    assert_eq!(tree.proof_of(2, ProofOpts::new()), Some((vec![0], 4)));
    let tree = tree_of(&[0, 1, 2, 3]);
    assert_eq!(tree.proof_of(0, ProofOpts::new()), Some((vec![2, 5], 8)));
    assert_eq!(tree.proof_of(4, ProofOpts::new()), Some((vec![6, 1], 8)));
    let tree = tree_of(&[0, 1, 2]);
    assert_eq!(tree.proof_of(4, ProofOpts::new()), Some((vec![1], 6)));
}

#[test]
fn tree_proof_with_options() {
    let tree = tree_of(&[0, 1, 2, 3]);
    let mut opts = ProofOpts::new();
    opts.set_hash(true);
    assert_eq!(tree.proof_of(0, opts), Some((vec![0, 2, 5], 8)));
    // A digest of 1: the remote side has the node already.
    let mut opts = ProofOpts::new();
    opts.set_digest(1);
    assert_eq!(tree.proof_of(0, opts), Some((vec![], 0)));
    let mut opts = ProofOpts::new();
    opts.set_digest(1);
    opts.set_hash(true);
    assert_eq!(tree.proof_of(0, opts), Some((vec![0], 0)));
    // A digest that ends with the block's own level: the remote side has
    // the block and the full roots up to it.
    let mut opts = ProofOpts::new();
    opts.set_digest(0b10);
    assert_eq!(tree.proof_of(0, opts), Some((vec![], 0)));
    // A digest that ends one level up: the remote side has the parent.
    let mut opts = ProofOpts::new();
    opts.set_digest(0b100);
    assert_eq!(tree.proof_of(0, opts), Some((vec![2], 0)));
    // The same with the sibling of the block.
    let mut opts = ProofOpts::new();
    opts.set_digest(0b110);
    assert_eq!(tree.proof_of(0, opts), Some((vec![], 0)));
    // A digest of the right side that ends at the left: the full roots
    // before are marked, the sibling is sent.
    let mut opts = ProofOpts::new();
    opts.set_digest(0b100);
    assert_eq!(tree.proof_of(4, opts), Some((vec![6], 0)));
    // The remote side has marked the block itself.
    let mut remote = TreeBitfield::new();
    remote.set(0);
    let mut opts = ProofOpts::new();
    opts.set_remote(remote);
    assert_eq!(tree.proof_of(0, opts), Some((vec![], 0)));
}

#[test]
fn bitfield_tree_follows_the_blocks() {
    let mut bitfield = Bitfield::new();
    assert_eq!(bitfield.blocks(), 0);
    assert_eq!(bitfield.roots(), Vec::<u64>::new());
    for b in 0..5 {
        bitfield.set(b, true);
    }
    assert_eq!(bitfield.blocks(), 5);
    assert_eq!(bitfield.roots(), vec![3, 8]);
    assert_eq!(bitfield.verfied_by(0), Some(10));
    assert_eq!(bitfield.verfied_by(12), None);
    assert_eq!(bitfield.digest(0), 1);
    assert_eq!(bitfield.digest(10), 2 + 8);
    assert_eq!(bitfield.proof_of(8, ProofOpts::new()), Some((vec![3], 10)));
    assert_eq!(bitfield.proof_of(10, ProofOpts::new()), None);
}
