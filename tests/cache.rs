use std::sync::Mutex;

use addrindexrs::cache::{BlockTxIDsCache, SizedLruCache};
use addrindexrs::errors::Error;
use addrindexrs::util::FullHash;
use bitcoin_hashes::sha256d::Hash as Sha256dHash;
use bitcoin_hashes::Hash as HashTrait;

#[test]
fn test_sized_lru_cache_hit_and_miss() {
    let mut cache = SizedLruCache::<i8, i32>::new(100,);

    assert_eq!(cache.get(&1), None); // no such key

    cache.put(1, 10, 50); // add new key-value
    assert_eq!(cache.get(&1), Some(&10));

    cache.put(3, 30, 50); // drop oldest key (1)
    cache.put(2, 20, 50);
    assert_eq!(cache.get(&1), None);
    assert_eq!(cache.get(&2), Some(&20));
    assert_eq!(cache.get(&3), Some(&30));

    cache.put(3, 33, 50); // replace existing value
    assert_eq!(cache.get(&1), None);
    assert_eq!(cache.get(&2), Some(&20));
    assert_eq!(cache.get(&3), Some(&33));

    cache.put(9, 90, 9999); // larger than cache capacity, don't drop the cache
    assert_eq!(cache.get(&1), None);
    assert_eq!(cache.get(&2), Some(&20));
    assert_eq!(cache.get(&3), Some(&33));
    assert_eq!(cache.get(&9), None);
}

fn gen_hash(seed: u8) -> FullHash {
    let bytes: Vec<u8> = (seed..seed + 32).collect();
    Sha256dHash::hash(&bytes[..]).into_inner()
}

#[test]
fn test_blocktxids_cache_hit_and_miss() {
    let block1 = gen_hash(1);
    let block2 = gen_hash(2);
    let block3 = gen_hash(3);
    let txids = vec![gen_hash(4), gen_hash(5)];

    let misses: Mutex<usize> = Mutex::new(0);
    let miss_func = || {
        *misses.lock().unwrap() += 1;
        Ok(txids.clone())
    };

    // 200 bytes ~ 32 (bytes/hash) * (1 key hash + 2 value hashes) * 2 txns
    let mut cache = BlockTxIDsCache::new(200);

    // cache miss
    let result = cache.get_or_else(&block1, &miss_func).unwrap();
    assert_eq!(1, *misses.lock().unwrap());
    assert_eq!(txids, result);

    // cache hit
    let result = cache.get_or_else(&block1, &miss_func).unwrap();
    assert_eq!(1, *misses.lock().unwrap());
    assert_eq!(txids, result);

    // cache size is 200, test that blockhash1 falls out of cache
    cache.get_or_else(&block2, &miss_func).unwrap();
    assert_eq!(2, *misses.lock().unwrap());
    cache.get_or_else(&block3, &miss_func).unwrap();
    assert_eq!(3, *misses.lock().unwrap());
    cache.get_or_else(&block1, &miss_func).unwrap();
    assert_eq!(4, *misses.lock().unwrap());

    // cache hits
    cache.get_or_else(&block3, &miss_func).unwrap();
    cache.get_or_else(&block1, &miss_func).unwrap();
    assert_eq!(4, *misses.lock().unwrap());
}

#[test]
fn load_error_is_returned_and_not_cached() {
    let mut cache = BlockTxIDsCache::new(1000);
    let block = gen_hash(7);
    let failing = || Err(Error::NoHeaders);
    assert_eq!(cache.get_or_else(&block, failing), Err(Error::NoHeaders));
    let calls: Mutex<usize> = Mutex::new(0);
    let loader = || {
        *calls.lock().unwrap() += 1;
        Ok(vec![gen_hash(8)])
    };
    assert_eq!(cache.get_or_else(&block, &loader), Ok(vec![gen_hash(8)]));
    assert_eq!(cache.get_or_else(&block, &loader), Ok(vec![gen_hash(8)]));
    assert_eq!(1, *calls.lock().unwrap());
}

#[test]
fn txid_list_larger_than_capacity_is_not_cached() {
    // 32 * (1 + 2) = 96 bytes exceed a capacity of 95.
    let mut cache = BlockTxIDsCache::new(95);
    let block = gen_hash(9);
    let calls: Mutex<usize> = Mutex::new(0);
    let loader = || {
        *calls.lock().unwrap() += 1;
        Ok(vec![gen_hash(10), gen_hash(11)])
    };
    cache.get_or_else(&block, &loader).unwrap();
    cache.get_or_else(&block, &loader).unwrap();
    assert_eq!(2, *calls.lock().unwrap());
}

#[test]
fn sized_lru_get_promotes_entry() {
    let mut cache = SizedLruCache::<u64, u64>::new(100);
    cache.put(1, 10, 50);
    cache.put(2, 20, 50);
    // reading 1 makes 2 the least recently used
    assert_eq!(cache.get(&1), Some(&10));
    cache.put(3, 30, 50);
    assert_eq!(cache.get(&2), None);
    assert_eq!(cache.get(&1), Some(&10));
    assert_eq!(cache.get(&3), Some(&30));
}

#[test]
fn sized_lru_entry_of_exact_capacity_fits() {
    let mut cache = SizedLruCache::<u64, u64>::new(100);
    cache.put(1, 10, 40);
    cache.put(2, 20, 100);
    assert_eq!(cache.get(&1), None);
    assert_eq!(cache.get(&2), Some(&20));
}
