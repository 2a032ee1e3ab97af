use dat::bitfield::{Bitfield, IndexBitfield};
use dat::cached::CachedStorage;
use dat::feed::{fresh_keys, Feed};
use dat::memory::MemoryStorage;
use dat::merkle::Node;
use dat::pager::{Pager, PAGE_SIZE};
use dat::sparse::SparseBitfield;
use dat::storage::{Error, FileType, Storage};
use dat::tree::{TreeBitfield, TreeIndex};

/// A storage that cannot be read.
struct Unreadable;

impl Storage for Unreadable {
    fn init_archive(&mut self, _file_type: FileType) -> bool {
        true
    }

    fn read_archive(&mut self, _: FileType, _: u64, _: usize) -> Result<Vec<u8>, Error> {
        Err(Error::Io)
    }

    fn write_archive(&mut self, _: FileType, _: u64, _: &[u8]) -> Result<(), Error> {
        Ok(())
    }
}

#[test]
fn a_storage_that_fails_fails_the_log() {
    assert_eq!(Feed::new(Unreadable).err(), Some(Error::Io));
    assert_eq!(Unreadable.get_node(3).err(), Some(Error::Io));
    assert_eq!(Unreadable.get_offset(4), Err(Error::Io));
    assert_eq!(Unreadable.get_data(4), Err(Error::Io));
    assert_eq!(Unreadable.get_signature(1), Err(Error::Io));
    assert_eq!(Unreadable.get_key(), Err(Error::Io));
    assert!(Unreadable.get_state().is_err());
    assert_eq!(Unreadable.setup(), Ok(()));
}

#[test]
fn index_bitfield_sums_bytes_up() {
    let mut index = IndexBitfield::with_bitfield(SparseBitfield::with_pager(Pager::new(), 3072, 256));
    // Block 0 lies in byte 0: first pair of the first byte.
    assert!(index.set(0, 0x01));
    assert_eq!(index.bitfield.get_byte(0), 0b0100_0000);
    assert!(!index.set(3, 0x09));
    assert!(index.set(7, 0xFF));
    assert_eq!(index.bitfield.get_byte(0), 0b1100_0000);
    // Block 8 lies in byte 1: second pair.
    assert!(index.set(8, 0x80));
    assert_eq!(index.bitfield.get_byte(0), 0b1101_0000);
    // Block 24 lies in byte 3: fourth pair; block 32 in byte 4: next byte.
    assert!(index.set(24, 0xFF));
    assert_eq!(index.bitfield.get_byte(0), 0b1101_0011);
    assert!(index.set(32, 0x10));
    assert_eq!(index.bitfield.get_byte(8), 0b0100_0000);
    assert!(index.set(7, 0x00));
    assert_eq!(index.bitfield.get_byte(0), 0b0001_0011);
    assert_eq!(index.bitfield.pager.get(0).unwrap()[3072], 0b0001_0011);
}

#[test]
fn the_tree_of_a_bitfield_is_a_copy() {
    let mut bitfield = Bitfield::new();
    for b in 0..3 {
        bitfield.set(b, true);
    }
    let tree: TreeIndex = bitfield.get_tree();
    assert!(tree.get(0));
    assert!(tree.get(1));
    assert!(tree.get(4));
    assert!(!tree.get(3));
    assert_eq!(tree.blocks(), 3);
    assert_eq!(tree.verfied_by(0), Some(6));
    bitfield.set(3, true);
    assert!(!tree.get(6));
    assert!(bitfield.get_tree().get(3));
    let other: TreeBitfield = TreeIndex::new();
    assert_eq!(other.blocks(), 0);
}

#[test]
fn pager_lists_its_pages() {
    let mut pager = Pager::new();
    assert_eq!(pager.iter().len(), 0);
    pager.set(4, 1, 7);
    pager.set(0, 2, 9);
    pager.insert(9, vec![3u8; PAGE_SIZE]);
    let mut pages = pager.iter();
    pages.sort();
    assert_eq!(pages.len(), 3);
    assert_eq!(pages[0].0, 0);
    assert_eq!(pages[0].1[2], 9);
    assert_eq!(pages[1].0, 4);
    assert_eq!(pages[1].1[1], 7);
    assert_eq!(pages[2].0, 9);
    assert_eq!(pages[2].1, vec![3u8; PAGE_SIZE]);
    let copy = pager.snapshot();
    assert_eq!(copy.len(), 3);
    assert_eq!(copy.get(4).unwrap()[1], 7);
    let mut copy = copy;
    assert_eq!(copy.last_updated(), None);
    assert_eq!(pager.last_updated(), Some(0));
}

/// A memory storage that counts the reads of its tree file.
struct Counting {
    inner: MemoryStorage,
    reads: std::rc::Rc<std::cell::Cell<usize>>,
}

impl Storage for Counting {
    fn init_archive(&mut self, file_type: FileType) -> bool {
        self.inner.init_archive(file_type)
    }

    fn read_archive(&mut self, ft: FileType, offset: u64, len: usize) -> Result<Vec<u8>, Error> {
        if ft == FileType::Tree {
            self.reads.set(self.reads.get() + 1);
        }
        self.inner.read_archive(ft, offset, len)
    }

    fn write_archive(&mut self, ft: FileType, offset: u64, buf: &[u8]) -> Result<(), Error> {
        self.inner.write_archive(ft, offset, buf)
    }
}

#[test]
fn a_node_read_once_comes_from_the_cache() {
    let reads = std::rc::Rc::new(std::cell::Cell::new(0));
    let mut inner = Counting { inner: MemoryStorage::new(), reads: reads.clone() };
    inner.put_node(3, Node::with_hash(3, &[7u8; 32], 9)).unwrap();
    let mut storage = CachedStorage::new(inner);
    let first = storage.get_node(3).unwrap().unwrap();
    assert_eq!(reads.get(), 1);
    let second = storage.get_node(3).unwrap().unwrap();
    assert_eq!(reads.get(), 1);
    assert_eq!(first.hash, second.hash);
    assert_eq!(second.length, 9);
    // A blank slot is not kept, and a write to the tree file empties the cache.
    assert!(storage.get_node(4).unwrap().is_none());
    assert!(storage.get_node(4).unwrap().is_none());
    assert_eq!(reads.get(), 3);
    storage.put_node(3, Node::with_hash(3, &[8u8; 32], 10)).unwrap();
    assert_eq!(storage.get_node(3).unwrap().unwrap().length, 10);
    assert_eq!(reads.get(), 4);
}

#[test]
fn fresh_keys_are_those_of_the_seed() {
    let seed = [9u8; 32];
    let mut storage = MemoryStorage::new();
    let (key, secret) = fresh_keys(&mut storage, seed).unwrap();
    let signing = ed25519_dalek::SigningKey::from_bytes(&seed);
    assert_eq!(key, signing.verifying_key().to_bytes());
    assert_eq!(&secret[..32], &seed[..]);
    assert_eq!(&secret[32..], &key[..]);
    assert_ne!(key, seed);
    assert_eq!(storage.get_key().unwrap(), Some(key));
    assert_eq!(storage.get_secret().unwrap(), Some(secret));
    let feed = Feed::new(storage).unwrap();
    assert_eq!(feed.key, key);
    assert_eq!(feed.secret, secret);
}
