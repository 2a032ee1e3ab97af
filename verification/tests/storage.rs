use blake2::digest::{Update, VariableOutput};
use dat::cached::CachedStorage;
use dat::memory::MemoryStorage;
use dat::merkle::{Blake2b, Node};
use dat::storage::{be64, be64_bytes, create_header, encodebe, parse_node, Error, FileType, Storage};

#[test]
fn headers_of_the_three_files() {
    let tree = create_header(FileType::Tree).unwrap();
    let mut expected = [0u8; 32];
    expected[..15].copy_from_slice(&[5, 2, 87, 2, 0, 0, 40, 7, b'B', b'L', b'A', b'K', b'E', b'2', b'b']);
    assert_eq!(tree, expected);
    let signatures = create_header(FileType::Signatures).unwrap();
    let mut expected = [0u8; 32];
    expected[..15]
        .copy_from_slice(&[5, 2, 87, 1, 0, 0, 64, 7, b'E', b'd', b'2', b'5', b'5', b'1', b'9']);
    assert_eq!(signatures, expected);
    let bitfield = create_header(FileType::Bitfield).unwrap();
    let mut expected = [0u8; 32];
    expected[..8].copy_from_slice(&[5, 2, 87, 0, 0, 0x0D, 0, 0]);
    assert_eq!(bitfield, expected);
    assert_eq!(create_header(FileType::Key), None);
    assert_eq!(create_header(FileType::Secret), None);
    assert_eq!(create_header(FileType::Data), None);
}

#[test]
fn file_types() {
    assert_eq!(FileType::Tree.filename(), "metadata.tree");
    assert_eq!(FileType::Signatures.filename(), "metadata.signatures");
    assert_eq!(FileType::Bitfield.filename(), "metadata.bitfield");
    assert_eq!(FileType::Key.filename(), "metadata.key");
    assert_eq!(FileType::Secret.filename(), "metadata.secret_key");
    assert_eq!(FileType::Data.filename(), "metadata.data");
    assert_eq!(FileType::Tree.magic_number(), Some(2));
    assert_eq!(FileType::Signatures.magic_number(), Some(1));
    assert_eq!(FileType::Bitfield.magic_number(), Some(0));
    assert_eq!(FileType::Data.magic_number(), None);
    assert_eq!(FileType::Tree.entry_size(), Some(40));
    assert_eq!(FileType::Signatures.entry_size(), Some(64));
    assert_eq!(FileType::Bitfield.entry_size(), Some(3328));
    assert_eq!(FileType::Key.entry_size(), None);
    assert_eq!(FileType::Tree.hash_name(), Some(b"BLAKE2b".to_vec()));
    assert_eq!(FileType::Signatures.hash_name(), Some(b"Ed25519".to_vec()));
    assert_eq!(FileType::Bitfield.hash_name(), Some(Vec::new()));
    assert_eq!(FileType::Secret.hash_name(), None);
    assert!(FileType::Tree.has_header());
    assert!(!FileType::Data.has_header());
}

#[test]
fn numbers_in_eight_bytes() {
    assert_eq!(be64_bytes(0x0102_0304_0506_0708), [1, 2, 3, 4, 5, 6, 7, 8]);
    assert_eq!(be64_bytes(300), [0, 0, 0, 0, 0, 0, 1, 44]);
    assert_eq!(be64(&[1, 2, 3, 4, 5, 6, 7, 8]), 0x0102_0304_0506_0708);
    assert_eq!(be64(&[0xFF; 8]), u64::MAX);
    assert_eq!(encodebe(0x0102_0304_0506_0708), vec![8, 7, 6, 5, 4, 3, 2, 1]);
    assert_eq!(encodebe(300), vec![44, 1, 0, 0, 0, 0, 0, 0]);
}

#[test]
fn memory_reads_what_was_written() {
    let mut storage = MemoryStorage::new();
    assert!(!storage.init_archive(FileType::Data));
    assert_eq!(storage.read_archive(FileType::Data, 0, 10).unwrap(), Vec::<u8>::new());
    storage.write_archive(FileType::Data, 4, &[1, 2, 3]).unwrap();
    // The gap before the write reads as zeros.
    assert_eq!(storage.read_archive(FileType::Data, 0, 10).unwrap(), vec![0, 0, 0, 0, 1, 2, 3]);
    assert_eq!(storage.read_archive(FileType::Data, 5, 1).unwrap(), vec![2]);
    assert_eq!(storage.read_archive(FileType::Data, 7, 4).unwrap(), Vec::<u8>::new());
    storage.write_archive(FileType::Data, 5, &[9]).unwrap();
    assert_eq!(storage.read_archive(FileType::Data, 4, 3).unwrap(), vec![1, 9, 3]);
    // Writing nothing changes nothing.
    storage.write_archive(FileType::Data, 100, &[]).unwrap();
    assert_eq!(storage.read_archive(FileType::Data, 0, 200).unwrap().len(), 7);
    // The files are apart.
    assert_eq!(storage.read_archive(FileType::Tree, 0, 10).unwrap(), Vec::<u8>::new());
    assert_eq!(storage.read_slot(FileType::Data, 5, 4).unwrap(), vec![9, 3, 0, 0]);
}

#[test]
fn setup_writes_the_headers() {
    let mut storage = MemoryStorage::new();
    storage.setup().unwrap();
    assert_eq!(
        storage.read_archive(FileType::Tree, 0, 64).unwrap(),
        create_header(FileType::Tree).unwrap().to_vec()
    );
    assert_eq!(
        storage.read_archive(FileType::Signatures, 0, 64).unwrap(),
        create_header(FileType::Signatures).unwrap().to_vec()
    );
    assert_eq!(
        storage.read_archive(FileType::Bitfield, 0, 64).unwrap(),
        create_header(FileType::Bitfield).unwrap().to_vec()
    );
    assert_eq!(storage.read_archive(FileType::Key, 0, 64).unwrap().len(), 0);
    assert_eq!(storage.read_archive(FileType::Data, 0, 64).unwrap().len(), 0);
    let state = storage.get_state().unwrap();
    assert_eq!(state.bitfield.len(), 0);
    assert!(state.key.is_none());
    assert!(state.secret.is_none());
}

#[test]
fn nodes_in_their_slots() {
    let mut storage = MemoryStorage::new();
    storage.setup().unwrap();
    assert!(storage.get_node(0).unwrap().is_none());
    assert!(storage.get_node(7).unwrap().is_none());
    let mut hash = [0u8; 32];
    hash[0] = 0xAB;
    hash[31] = 0xCD;
    storage.put_node(3, Node::with_hash(3, &hash, 0x0102_0304)).unwrap();
    let node = storage.get_node(3).unwrap().unwrap();
    assert_eq!(node.index, 3);
    assert_eq!(node.parent, 7);
    assert_eq!(node.length, 0x0102_0304);
    assert_eq!(node.hash, hash);
    assert!(node.data.is_none());
    assert!(storage.get_node(2).unwrap().is_none());
    assert!(storage.get_node(4).unwrap().is_none());
    // The slot: 32 bytes of hash, then the length, most significant first.
    let slot = storage.read_archive(FileType::Tree, 32 + 40 * 3, 40).unwrap();
    assert_eq!(&slot[..32], &hash[..]);
    assert_eq!(&slot[32..], &[0, 0, 0, 0, 1, 2, 3, 4]);
    assert!(parse_node(5, &[0u8; 40]).is_none());
    assert_eq!(parse_node(5, &slot).unwrap().parent, 3);
}

#[test]
fn offsets_are_sums_of_root_lengths() {
    let mut storage = MemoryStorage::new();
    let hash = [1u8; 32];
    // Three blocks of 5, 7 and 2 bytes: leaves 0, 2, 4 and the parent 1.
    storage.put_node(0, Node::with_hash(0, &hash, 5)).unwrap();
    storage.put_node(2, Node::with_hash(2, &hash, 7)).unwrap();
    storage.put_node(1, Node::with_hash(1, &hash, 12)).unwrap();
    storage.put_node(4, Node::with_hash(4, &hash, 2)).unwrap();
    assert_eq!(storage.get_offset(0).unwrap(), Some((0, 5)));
    assert_eq!(storage.get_offset(2).unwrap(), Some((5, 7)));
    assert_eq!(storage.get_offset(4).unwrap(), Some((12, 2)));
    assert_eq!(storage.get_offset(6).unwrap(), None);
    storage.put_data(0, vec![1; 5]).unwrap();
    storage.put_data(2, vec![2; 7]).unwrap();
    storage.put_data(4, vec![3; 2]).unwrap();
    assert_eq!(storage.get_data(2).unwrap(), Some(vec![2; 7]));
    assert_eq!(storage.get_data(4).unwrap(), Some(vec![3; 2]));
    assert_eq!(storage.get_data(6).unwrap(), None);
    assert_eq!(
        storage.read_archive(FileType::Data, 0, 100).unwrap(),
        vec![1, 1, 1, 1, 1, 2, 2, 2, 2, 2, 2, 2, 3, 3]
    );
    let roots = storage.get_roots(3).unwrap();
    assert_eq!(roots.len(), 2);
    assert_eq!(roots[0].index, 1);
    assert_eq!(roots[0].length, 12);
    assert_eq!(roots[1].index, 4);
    // A blank slot among the roots is left out.
    assert_eq!(storage.get_roots(4).unwrap().len(), 0);
}

#[test]
fn put_data_refuses_another_length() {
    let mut storage = MemoryStorage::new();
    storage.put_node(0, Node::with_hash(0, &[1u8; 32], 5)).unwrap();
    assert_eq!(storage.put_data(0, vec![1; 4]), Err(Error::Integrity));
    assert_eq!(storage.read_archive(FileType::Data, 0, 10).unwrap().len(), 0);
    // Without a node, nothing is written.
    assert_eq!(storage.put_data(2, vec![1; 4]), Ok(()));
    assert_eq!(storage.read_archive(FileType::Data, 0, 10).unwrap().len(), 0);
}

#[test]
fn signatures_keys_and_bitfield_pages() {
    let mut storage = MemoryStorage::new();
    storage.setup().unwrap();
    assert_eq!(storage.get_signature(0).unwrap(), None);
    assert_eq!(storage.next_signature(0).unwrap(), None);
    storage.put_signature(1, vec![7u8; 64]).unwrap();
    assert_eq!(storage.get_signature(0).unwrap(), None);
    assert_eq!(storage.get_signature(1).unwrap(), Some(vec![7u8; 64]));
    assert_eq!(storage.next_signature(0).unwrap(), Some(vec![7u8; 64]));
    assert_eq!(storage.next_signature(1).unwrap(), Some(vec![7u8; 64]));
    assert_eq!(storage.next_signature(2).unwrap(), None);
    assert_eq!(storage.read_archive(FileType::Signatures, 32 + 64, 64).unwrap(), vec![7u8; 64]);
    assert_eq!(storage.get_key().unwrap(), None);
    assert_eq!(storage.get_secret().unwrap(), None);
    storage.put_key([3u8; 32]).unwrap();
    storage.put_secret([4u8; 64]).unwrap();
    assert_eq!(storage.get_key().unwrap(), Some([3u8; 32]));
    assert_eq!(storage.get_secret().unwrap(), Some([4u8; 64]));
    storage.put_bitfield(3328, vec![9u8; 3328]).unwrap();
    let state = storage.get_state().unwrap();
    assert_eq!(state.bitfield.len(), 2 * 3328);
    assert_eq!(state.bitfield[3327], 0);
    assert_eq!(state.bitfield[3328], 9);
    assert_eq!(state.key, Some([3u8; 32]));
    assert_eq!(state.secret, Some([4u8; 64]));
}

#[test]
fn cached_storage_answers_like_the_storage_behind_it() {
    let mut storage = CachedStorage::new(MemoryStorage::new());
    storage.setup().unwrap();
    let mut hash = [0u8; 32];
    hash[5] = 1;
    assert!(storage.get_node(2).unwrap().is_none());
    storage.put_node(2, Node::with_hash(2, &hash, 9)).unwrap();
    let first = storage.get_node(2).unwrap().unwrap();
    let second = storage.get_node(2).unwrap().unwrap();
    assert_eq!(first.index, 2);
    assert_eq!(first.length, 9);
    assert_eq!(first.hash, hash);
    assert_eq!(second.index, 2);
    assert_eq!(second.parent, 1);
    assert_eq!(second.length, 9);
    assert_eq!(second.hash, hash);
    // A node that is written again is read anew.
    storage.put_node(2, Node::with_hash(2, &hash, 11)).unwrap();
    assert_eq!(storage.get_node(2).unwrap().unwrap().length, 11);
    assert_eq!(storage.get_offset(2).unwrap(), Some((0, 11)));
}

#[test]
fn node_hashes_are_blake2b_with_32_bytes() {
    let mut hasher = blake2::Blake2bVar::new(32).unwrap();
    hasher.update(b"test");
    let mut leaf = [0u8; 32];
    hasher.finalize_variable(&mut leaf).unwrap();
    let left = Node::with_data::<Blake2b>(0, b"test".to_vec());
    assert_eq!(left.hash, leaf);
    assert_ne!(&left.hash[..4], b"test");
    assert_eq!(left.length, 4);
    assert_eq!(left.parent, 1);
    assert_eq!(left.data, Some(b"test".to_vec()));
    let right = Node::with_data::<Blake2b>(2, b"more".to_vec());
    let parent = Node::with_nodes::<Blake2b>(&left, &right);
    let mut hasher = blake2::Blake2bVar::new(32).unwrap();
    hasher.update(&left.hash);
    hasher.update(&right.hash);
    let mut both = [0u8; 32];
    hasher.finalize_variable(&mut both).unwrap();
    assert_eq!(parent.hash, both);
    assert_eq!(parent.index, 1);
    assert_eq!(parent.parent, 3);
    assert_eq!(parent.length, 8);
    assert!(parent.data.is_none());
}

#[test]
fn lengths_that_do_not_add_up_are_refused() {
    let mut storage = MemoryStorage::new();
    storage.put_node(1, Node::with_hash(1, &[1u8; 32], u64::MAX)).unwrap();
    storage.put_node(4, Node::with_hash(4, &[2u8; 32], 5)).unwrap();
    storage.put_node(6, Node::with_hash(6, &[3u8; 32], 7)).unwrap();
    // Before leaf 4 lies the one root 1: its length is the offset.
    assert_eq!(storage.get_offset(4), Ok(Some((u64::MAX, 5))));
    // Before leaf 6 lie the roots 1 and 4.
    assert_eq!(storage.get_offset(6), Err(Error::Integrity));
    assert_eq!(storage.get_data(6), Err(Error::Integrity));
    assert_eq!(storage.put_data(6, vec![0; 7]), Err(Error::Integrity));
}
