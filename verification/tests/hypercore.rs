use dat::cached::CachedStorage;
use dat::feed::Hypercore;
use dat::memory::MemoryStorage;

#[test]
fn test_memory_storage() {
    let storage = MemoryStorage::new();
    let mut feed = Hypercore::new(storage).unwrap();
    let data = vec![0u8; 1024 * 64];

    for i in 0..64 {
        feed.append(data.clone()).unwrap();
        assert_eq!(feed.get(i).unwrap().unwrap(), data.clone());
    }
}

#[test]
fn test_cached_storage() {
    let storage = MemoryStorage::new();
    let cached = CachedStorage::new(storage);
    let mut feed = Hypercore::new(cached).unwrap();
    let data = vec![0u8; 1024 * 64];

    for i in 0..64 {
        feed.append(data.clone()).unwrap();
        for _ in 0..64 {
            assert_eq!(feed.get(i).unwrap().unwrap(), data.clone());
        }
    }
}
