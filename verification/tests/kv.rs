//! The two-tier store on its own.

use skipagg::kv::KVStorage;

#[test]
fn kv_two_tier_recall_and_misses() {
    let mut kv: KVStorage<u64> = KVStorage::new(2);
    for k in 0..10u64 {
        kv.put(k, 100 + k);
    }
    // Every key ever put stays readable: eviction demotes to the base, and
    // the base is never shrunk.
    for k in 0..10u64 {
        assert_eq!(kv.get(k), Some(100 + k));
    }
    assert_eq!(kv.get(42), None);
    // Reads served from the base were counted as misses; an absent key is
    // not a miss.
    let after_reads = kv.cache_miss();
    assert!(after_reads >= 8);
    assert_eq!(kv.cache_miss(), after_reads);
    // Overwriting a key keeps the latest value.
    kv.put(3, 999);
    assert_eq!(kv.get(3), Some(999));
}
