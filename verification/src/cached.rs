//! A storage that keeps the tree nodes it has read in a cache of the least
//! recently used, in front of another storage.

use vstd::prelude::*;
use lru_cache::LruCache;
use crate::merkle::{Node, NodeView};
use crate::storage::{Error, FileType, Storage, spec_node_at};

verus! {

/// The most nodes that the cache holds.
pub const CACHE_SIZE: usize = 65536;

/// `lru_cache::LruCache`: a map that drops what was used least recently
/// when it holds more than its capacity. Nothing is known of it but what the
/// four functions below say.
#[verifier::external_type_specification]
#[verifier::external_body]
#[verifier::reject_recursive_types(K)]
#[verifier::reject_recursive_types(V)]
#[verifier::reject_recursive_types(S)]
pub struct ExLruCache<K: Eq + std::hash::Hash, V, S: std::hash::BuildHasher>(LruCache<K, V, S>);

/// What an `LruCache` of nodes holds, by key.
pub uninterp spec fn spec_cached(cache: LruCache<u64, Node>) -> Map<u64, NodeView>;

/// The most pairs that an `LruCache` of nodes keeps: the capacity that it
/// was made with.
pub uninterp spec fn spec_capacity(cache: LruCache<u64, Node>) -> nat;

/// No nodes.
pub open spec fn spec_no_nodes() -> Map<u64, NodeView> {
    Map::empty()
}

/// `LruCache::new`: a cache that holds nothing, with the capacity given.
#[verifier::external_body]
fn cache_new(capacity: usize) -> (r: LruCache<u64, Node>)
    ensures
        spec_cached(r) == spec_no_nodes(),
        spec_capacity(r) == capacity,
{
    LruCache::new(capacity)
}

/// `LruCache::get_mut`: the value kept under the key, if there is one; what
/// the cache holds stays as it is. The wrapper hands out a copy.
#[verifier::external_body]
fn cache_get(cache: &mut LruCache<u64, Node>, key: u64) -> (r: Option<Node>)
    ensures
        spec_cached(*final(cache)) == spec_cached(*old(cache)),
        spec_capacity(*final(cache)) == spec_capacity(*old(cache)),
        match r {
            Some(node) => spec_cached(*old(cache)).contains_key(key) && node@ == spec_cached(
                *old(cache),
            )[key],
            None => !spec_cached(*old(cache)).contains_key(key),
        },
{
    cache.get_mut(&key).map(|node| node.clone())
}

/// `LruCache::insert`: puts the value under the key as the pair used last,
/// and then drops the pair used least recently if the cache holds more than
/// its capacity. For a capacity of at least one that is another pair, so the
/// new pair stays; of the others, each is as it was or gone.
#[verifier::external_body]
fn cache_insert(cache: &mut LruCache<u64, Node>, key: u64, node: Node)
    ensures
        spec_capacity(*final(cache)) == spec_capacity(*old(cache)),
        spec_capacity(*old(cache)) >= 1 ==> spec_cached(*final(cache)).contains_key(key),
        spec_cached(*final(cache)).contains_key(key) ==> spec_cached(*final(cache))[key] == node@,
        forall|k: u64|
            k != key && #[trigger] spec_cached(*final(cache)).contains_key(k) ==> spec_cached(
                *old(cache),
            ).contains_key(k) && spec_cached(*final(cache))[k] == spec_cached(*old(cache))[k],
{
    cache.insert(key, node);
}

/// `LruCache::clear`: the cache holds nothing afterwards.
#[verifier::external_body]
fn cache_clear(cache: &mut LruCache<u64, Node>)
    ensures
        spec_cached(*final(cache)) == spec_no_nodes(),
        spec_capacity(*final(cache)) == spec_capacity(*old(cache)),
{
    cache.clear();
}

/// A storage with a cache of the tree nodes that were read last.
pub struct CachedStorage<T: Storage> {
    cache: LruCache<u64, Node>,
    storage: T,
}

impl<T: Storage> CachedStorage<T> {
    /// Every node in the cache has the place of its key; and where the
    /// storage says what its files hold, it is the node in the slot of its key.
    pub closed spec fn spec_fresh(&self) -> bool {
        forall|k: u64| #[trigger]
            spec_cached(self.cache).contains_key(k) ==> {
                &&& spec_cached(self.cache)[k].index == k
                &&& spec_cached(self.cache)[k].parent == crate::flat::spec_parent(k as nat)
                &&& spec_cached(self.cache)[k].data.is_none()
                &&& self.storage.spec_kept() ==> spec_node_at(
                    self.storage.spec_file(FileType::Tree),
                    k as nat,
                ).is_some() && spec_cached(self.cache)[k] == crate::storage::spec_view_at(
                    k as nat,
                    spec_node_at(self.storage.spec_file(FileType::Tree), k as nat).unwrap(),
                )
            }
    }

    /// Whether the cache holds the node at `index`.
    pub closed spec fn spec_remembers(&self, index: u64) -> bool {
        spec_cached(self.cache).contains_key(index)
    }

    /// The storage behind the cache.
    pub closed spec fn spec_inner(&self) -> T {
        self.storage
    }

    /// A cache of up to `CACHE_SIZE` nodes in front of `storage`.
    pub fn new(storage: T) -> (r: CachedStorage<T>)
        requires
            storage.wf(),
        ensures
            r.wf(),
            r.spec_inner() == storage,
            forall|index: u64| !r.spec_remembers(index),
    {
        CachedStorage { cache: cache_new(CACHE_SIZE), storage }
    }
}

impl<T: Storage> Storage for CachedStorage<T> {
    open spec fn spec_file(&self, file_type: FileType) -> Seq<u8> {
        self.spec_inner().spec_file(file_type)
    }

    closed spec fn wf(&self) -> bool {
        self.storage.wf() && self.spec_fresh() && spec_capacity(self.cache) >= 1
    }

    open spec fn spec_reports(&self, file_type: FileType) -> bool {
        self.spec_inner().spec_reports(file_type)
    }

    open spec fn spec_kept(&self) -> bool {
        self.spec_inner().spec_kept()
    }

    open spec fn spec_limit(&self) -> Option<nat> {
        self.spec_inner().spec_limit()
    }

    fn init_archive(&mut self, file_type: FileType) -> (r: bool) {
        self.storage.init_archive(file_type)
    }

    fn read_archive(&mut self, file_type: FileType, offset: u64, len: usize) -> (r: Result<
        Vec<u8>,
        Error,
    >)
        ensures
            forall|k: u64| #[trigger] final(self).spec_remembers(k) == old(self).spec_remembers(k),
    {
        self.storage.read_archive(file_type, offset, len)
    }

    /// Writes through; a write to the tree file empties the cache.
    fn write_archive(&mut self, file_type: FileType, offset: u64, buf: &[u8]) -> (r: Result<
        (),
        Error,
    >)
        ensures
            forall|k: u64|
                #[trigger] final(self).spec_remembers(k) == (file_type != FileType::Tree && old(
                    self,
                ).spec_remembers(k)),
    {
        if file_type == FileType::Tree {
            cache_clear(&mut self.cache);
        }
        self.storage.write_archive(file_type, offset, buf)
    }

    /// Looks in the cache first, and keeps what it reads from the storage. A
    /// node that the cache holds is returned whether or not the storage behind
    /// it can be read, and a node that was read is held afterwards.
    fn get_node(&mut self, index: u64) -> (r: Result<Option<Node>, Error>)
        ensures
            old(self).spec_remembers(index) ==> r.is_ok() && final(self).spec_inner() == old(
                self,
            ).spec_inner(),
            r.is_ok() && r.unwrap().is_some() ==> final(self).spec_remembers(index),
    {
        match cache_get(&mut self.cache, index) {
            Some(node) => {
                proof {
                    vstd::arithmetic::power2::lemma2_to64_rest();
                    crate::flat::lemma_depth_bound(index as nat, 56);
                    crate::flat::lemma_parent_fits(index, crate::flat::spec_depth(index as nat));
                }
                return Ok(Some(node));
            },
            None => {},
        }
        match self.storage.get_node(index) {
            Ok(Some(node)) => {
                cache_insert(&mut self.cache, index, node.clone());
                Ok(Some(node))
            },
            Ok(None) => Ok(None),
            Err(e) => Err(e),
        }
    }
}

} // verus!
