use dat::feed::Feed;
use dat::memory::MemoryStorage;
use dat::merkle::{Blake2b, Tree};
use dat::storage::{Error, FileType, Storage};
use blake2::digest::{Update, VariableOutput};
use ed25519_dalek::Verifier;

fn open() -> Feed<MemoryStorage> {
    Feed::new(MemoryStorage::new()).unwrap()
}

#[test]
fn empty_open() {
    let mut feed = open();
    assert_eq!(feed.blocks, 0);
    assert_eq!(feed.length, 0);
    assert_eq!(feed.merkle.roots.len(), 0);
    assert_eq!(feed.bitfield.roots(), Vec::<u64>::new());
    assert_eq!(feed.storage.get_signature(0).unwrap(), None);
    assert!(!feed.has(0));
    assert_eq!(feed.get(0), Err(Error::NotFound));
}

#[test]
fn four_blocks() {
    let mut feed = open();
    for _ in 0..4 {
        feed.append(b"test".to_vec()).unwrap();
    }
    assert_eq!(feed.merkle.roots.len(), 1);
    assert_eq!(feed.bitfield.roots().len(), 1);
    assert_eq!(feed.blocks, 4);
    assert_eq!(feed.length, 16);
    assert_eq!(feed.get(2).unwrap(), Some(b"test".to_vec()));
    assert!(feed.has_range(0..4));
    assert!(!feed.has_range(0..5));
    assert_eq!(feed.downloaded(0..4), 4);
    assert_eq!(feed.get(4), Err(Error::NotFound));
}

#[test]
fn five_blocks() {
    let mut feed = open();
    for _ in 0..5 {
        feed.append(b"test".to_vec()).unwrap();
    }
    assert_eq!(feed.merkle.roots.len(), 2);
    assert_eq!(feed.bitfield.roots(), vec![3, 8]);
    assert_eq!(feed.bitfield.blocks(), 5);
    assert_eq!(feed.blocks, 5);
}

#[test]
fn one_root_at_1024_blocks_and_more_after() {
    let mut feed = open();
    for _ in 0..1024 {
        feed.append(b"test".to_vec()).unwrap();
    }
    assert_eq!(feed.merkle.roots.len(), 1);
    assert_eq!(feed.bitfield.roots().len(), 1);
    feed.append(b"test".to_vec()).unwrap();
    assert!(feed.merkle.roots.len() > 1);
    assert!(feed.bitfield.roots().len() > 1);
}

#[test]
fn blocks_of_many_lengths_come_back() {
    let mut feed = open();
    let mut blocks: Vec<Vec<u8>> = Vec::new();
    for i in 0..40usize {
        let block: Vec<u8> = (0..(1 + (i * 37) % 19)).map(|j| (i * 31 + j) as u8).collect();
        feed.append(block.clone()).unwrap();
        blocks.push(block);
        for (b, block) in blocks.iter().enumerate() {
            assert!(feed.has(b as u64));
            assert_eq!(&feed.get(b as u64).unwrap().unwrap(), block);
        }
        assert!(!feed.has(blocks.len() as u64));
        let roots: Vec<u64> = feed.merkle.roots.iter().map(|node| node.index).collect();
        assert_eq!(roots, dat::flat::full_roots(2 * blocks.len() as u64));
        assert_eq!(feed.bitfield.roots(), roots);
        let total: usize = blocks.iter().map(|block| block.len()).sum();
        assert_eq!(feed.length, total as u64);
        assert_eq!(feed.downloaded(0..8 * blocks.len() as u64), blocks.len() as u64);
    }
    let data: Vec<u8> = blocks.concat();
    assert_eq!(feed.storage.read_archive(FileType::Data, 0, data.len() + 10).unwrap(), data);
}

#[test]
fn byte_offsets_are_sums_of_the_full_roots() {
    let mut feed = open();
    let mut offset = 0u64;
    for i in 0..33u64 {
        let block = vec![i as u8; 1 + (i as usize * 5) % 11];
        feed.append(block.clone()).unwrap();
        assert_eq!(feed.storage.get_offset(2 * i).unwrap(), Some((offset, block.len() as u64)));
        let mut sum = 0;
        for root in dat::flat::full_roots(2 * i) {
            sum += feed.storage.get_node(root).unwrap().unwrap().length;
        }
        assert_eq!(sum, offset);
        offset += block.len() as u64;
    }
}

#[test]
fn an_empty_block_changes_nothing() {
    let mut feed = open();
    feed.append(b"one".to_vec()).unwrap();
    feed.append(Vec::new()).unwrap();
    assert_eq!(feed.blocks, 1);
    assert_eq!(feed.length, 3);
    assert_eq!(feed.storage.get_signature(2).unwrap(), None);
}

#[test]
fn signatures_verify_under_the_key() {
    let mut feed = open();
    feed.append(b"first".to_vec()).unwrap();
    feed.append(b"second".to_vec()).unwrap();
    let signature = feed.storage.get_signature(2).unwrap().unwrap();
    assert_eq!(signature.len(), 64);
    // The message: 2, then hash, index and length of each root.
    let root = &feed.merkle.roots[0];
    let mut message = vec![2u8];
    message.extend_from_slice(&root.hash);
    message.extend_from_slice(&1u64.to_le_bytes());
    message.extend_from_slice(&11u64.to_le_bytes());
    let mut hasher = blake2::Blake2bVar::new(32).unwrap();
    hasher.update(&message);
    let mut hash = [0u8; 32];
    hasher.finalize_variable(&mut hash).unwrap();
    let key = ed25519_dalek::VerifyingKey::from_bytes(&feed.key).unwrap();
    let mut bytes = [0u8; 64];
    bytes.copy_from_slice(&signature);
    assert!(key.verify(&hash, &ed25519_dalek::Signature::from_bytes(&bytes)).is_ok());
    assert!(key.verify(&message, &ed25519_dalek::Signature::from_bytes(&bytes)).is_err());
    assert_ne!(&signature[..32], &hash[..]);
    // The keys were written, the secret with the public key as its second half.
    assert_eq!(feed.storage.get_key().unwrap(), Some(feed.key));
    assert_eq!(feed.storage.get_secret().unwrap(), Some(feed.secret));
    assert_eq!(&feed.secret[32..], &feed.key[..]);
    assert_eq!(feed.storage.get_signature(1).unwrap().unwrap().len(), 64);
    assert_eq!(feed.storage.get_signature(0).unwrap(), None);
}

#[test]
fn keys_that_are_no_pair_fail_to_sign() {
    let mut feed = open();
    feed.key = [0u8; 32];
    assert_eq!(feed.append(b"test".to_vec()), Err(Error::Crypto));
}

#[test]
fn reopening_finds_the_log() {
    let mut feed = open();
    for i in 0..11u8 {
        feed.append(vec![i; 3 + i as usize]).unwrap();
    }
    let key = feed.key;
    let secret = feed.secret;
    let length = feed.length;
    let mut again = Feed::new(feed.storage).unwrap();
    assert_eq!(again.blocks, 11);
    assert_eq!(again.length, length);
    assert_eq!(again.key, key);
    assert_eq!(again.secret, secret);
    assert_eq!(again.merkle.roots.len(), 3);
    assert_eq!(again.merkle.blocks, 11);
    for i in 0..11u8 {
        assert_eq!(again.get(i as u64).unwrap(), Some(vec![i; 3 + i as usize]));
    }
    again.append(b"more".to_vec()).unwrap();
    assert_eq!(again.blocks, 12);
    assert_eq!(again.get(11).unwrap(), Some(b"more".to_vec()));
    assert_eq!(again.get(10).unwrap(), Some(vec![10u8; 13]));
}

#[test]
fn keys_in_the_storage_that_do_not_verify_are_replaced() {
    let mut storage = MemoryStorage::new();
    storage.put_key([1u8; 32]).unwrap();
    storage.put_secret([2u8; 64]).unwrap();
    let mut feed = Feed::new(storage).unwrap();
    assert_ne!(feed.key, [1u8; 32]);
    assert_eq!(feed.storage.get_key().unwrap(), Some(feed.key));
    feed.append(b"test".to_vec()).unwrap();
}

#[test]
fn a_tree_taken_up_from_its_roots_goes_on() {
    let mut tree = Tree::new();
    let mut nodes = Vec::new();
    for i in 0..6u8 {
        nodes = tree.insert::<Blake2b>(vec![i; 4]);
    }
    // The sixth block is a right child: its leaf and its parent are made.
    assert_eq!(nodes.len(), 2);
    assert_eq!(nodes[0].index, 10);
    assert_eq!(nodes[1].index, 9);
    assert_eq!(nodes[1].length, 8);
    let roots: Vec<u64> = tree.roots.iter().map(|node| node.index).collect();
    assert_eq!(roots, vec![3, 9]);
    let mut copy = Tree::with_roots(tree.roots.clone());
    assert_eq!(copy.blocks, 6);
    assert_eq!(Tree::with_roots(Vec::new()).blocks, 0);
    let made = copy.insert::<Blake2b>(vec![6; 4]);
    assert_eq!(made.len(), 1);
    assert_eq!(made[0].index, 12);
    let made = copy.insert::<Blake2b>(vec![7; 4]);
    let indices: Vec<u64> = made.iter().map(|node| node.index).collect();
    assert_eq!(indices, vec![14, 13, 11, 7]);
    assert_eq!(copy.roots.len(), 1);
    assert_eq!(copy.roots[0].length, 32);
}

#[test]
fn reopening_across_bitfield_pages() {
    let mut feed = open();
    for i in 0..8195u32 {
        feed.append(vec![(i % 251) as u8 + 1; 1 + (i % 3) as usize]).unwrap();
    }
    assert_eq!(feed.bitfield.pager.len(), 2);
    assert_eq!(feed.bitfield.blocks(), 8195);
    let length = feed.length;
    let mut again = Feed::new(feed.storage).unwrap();
    assert_eq!(again.blocks, 8195);
    assert_eq!(again.length, length);
    assert_eq!(again.bitfield.pager.len(), 2);
    assert_eq!(again.get(8191).unwrap(), Some(vec![(8191 % 251) as u8 + 1; 1 + (8191 % 3)]));
    assert_eq!(again.get(8194).unwrap(), Some(vec![(8194 % 251) as u8 + 1; 1 + (8194 % 3)]));
    assert_eq!(again.get(8195), Err(Error::NotFound));
    assert_eq!(again.downloaded(0..8 * 8195), 8195);
    again.append(b"more".to_vec()).unwrap();
    assert_eq!(again.get(8195).unwrap(), Some(b"more".to_vec()));
}

#[test]
fn every_verified_node_is_verified_by_the_next_leaf() {
    let mut feed = open();
    for _ in 0..6 {
        feed.append(b"test".to_vec()).unwrap();
    }
    for node in [0u64, 1, 2, 3, 4, 5, 6, 8, 9, 10] {
        assert_eq!(feed.bitfield.verfied_by(node), Some(12));
    }
    for node in [7u64, 11, 12, 13, 14] {
        assert_eq!(feed.bitfield.verfied_by(node), None);
    }
}

#[test]
fn reopening_keeps_keys_that_work() {
    let mut feed = open();
    feed.append(b"one".to_vec()).unwrap();
    let key = feed.key;
    let secret = feed.secret;
    let mut storage = feed.storage;
    assert_eq!(storage.get_key().unwrap(), Some(key));
    assert_eq!(storage.get_secret().unwrap(), Some(secret));
    let mut again = Feed::new(storage).unwrap();
    assert_eq!(again.key, key);
    assert_eq!(again.secret, secret);
    again.append(b"two".to_vec()).unwrap();
    assert_eq!(again.get(0).unwrap(), Some(b"one".to_vec()));
    assert_eq!(again.get(1).unwrap(), Some(b"two".to_vec()));
}

#[test]
fn a_storage_that_cannot_hold_a_log_is_refused() {
    // The bitfield says that block 0 is verified, and the tree file is blank.
    let mut page = vec![0u8; 3328];
    page[1024] = 1;
    let mut storage = MemoryStorage::new();
    storage.put_bitfield(0, page).unwrap();
    assert_eq!(Feed::new(storage).err(), Some(Error::Integrity));

    // Three blocks are verified, and the lengths of their roots overflow.
    let mut page = vec![0u8; 3328];
    page[1024] = 0b0001_0111;
    assert_eq!(dat::bitfield::Bitfield::from_buffer(page.clone()).blocks(), 3);
    let mut storage = MemoryStorage::new();
    storage.put_bitfield(0, page).unwrap();
    storage.put_node(1, dat::merkle::Node::with_hash(1, &[1u8; 32], u64::MAX)).unwrap();
    storage.put_node(4, dat::merkle::Node::with_hash(4, &[2u8; 32], 1)).unwrap();
    assert_eq!(Feed::new(storage).err(), Some(Error::Integrity));

    // With lengths that add up, the same storage is opened.
    let mut page = vec![0u8; 3328];
    page[1024] = 0b0001_0111;
    let mut storage = MemoryStorage::new();
    storage.put_bitfield(0, page).unwrap();
    storage.put_node(1, dat::merkle::Node::with_hash(1, &[1u8; 32], 8)).unwrap();
    storage.put_node(4, dat::merkle::Node::with_hash(4, &[2u8; 32], 1)).unwrap();
    let feed = Feed::new(storage).unwrap();
    assert_eq!(feed.blocks, 3);
    assert_eq!(feed.length, 9);
}
