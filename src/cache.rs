use vstd::prelude::*;

use crate::errors::Error;
use crate::util::{same_hash, FullHash};

verus! {

/// Keys of a cache: equality that verified code can decide.
pub trait CacheKey: Sized + Copy {
    fn same(&self, other: &Self) -> (r: bool)
        ensures
            r == (*self == *other),
    ;
}

impl CacheKey for i8 {
    fn same(&self, other: &i8) -> (r: bool) {
        *self == *other
    }
}

impl CacheKey for u64 {
    fn same(&self, other: &u64) -> (r: bool) {
        *self == *other
    }
}

impl CacheKey for FullHash {
    fn same(&self, other: &FullHash) -> (r: bool) {
        let r = same_hash(self, other);
        if r {
            assert(*self =~= *other);
        }
        r
    }
}

/// Total size of the entries of `s`.
pub open spec fn total_size<K, V>(s: Seq<(K, V, usize)>) -> int
    decreases s.len(),
{
    if s.len() == 0 {
        0
    } else {
        total_size(s.drop_last()) + s.last().2
    }
}

proof fn lemma_total_size_remove<K, V>(s: Seq<(K, V, usize)>, i: int)
    requires
        0 <= i < s.len(),
    ensures
        total_size(s.remove(i)) == total_size(s) - s[i].2,
    decreases s.len(),
{
    if i < s.len() - 1 {
        lemma_total_size_remove(s.drop_last(), i);
        assert(s.remove(i).drop_last() =~= s.drop_last().remove(i));
        assert(s.remove(i).last() == s.last());
    } else {
        assert(s.remove(i) =~= s.drop_last());
    }
}

proof fn lemma_total_size_nonneg<K, V>(s: Seq<(K, V, usize)>)
    ensures
        total_size(s) >= 0,
        forall|i: int| 0 <= i < s.len() ==> (#[trigger] s[i]).2 <= total_size(s),
    decreases s.len(),
{
    if s.len() > 0 {
        lemma_total_size_nonneg(s.drop_last());
        assert forall|i: int| 0 <= i < s.len() implies (#[trigger] s[i]).2 <= total_size(s) by {
            if i < s.len() - 1 {
                assert(s[i] == s.drop_last()[i]);
            }
        }
    }
}

/// Keys of `s` are pairwise distinct.
pub open spec fn distinct_keys<K, V>(s: Seq<(K, V, usize)>) -> bool {
    forall|i: int, j: int| 0 <= i < j < s.len() ==> (#[trigger] s[i]).0 != (#[trigger] s[j]).0
}

/// A cache bounded by the total byte size of its entries, which it evicts least
/// recently used first.
pub struct SizedLruCache<K, V> {
    entries: Vec<(K, V, usize)>,
    bytes_usage: usize,
    bytes_capacity: usize,
}

impl<K: CacheKey, V> SizedLruCache<K, V> {
    /// The entries, least recently used first.
    pub closed spec fn view(&self) -> Seq<(K, V, usize)> {
        self.entries@
    }

    pub closed spec fn usage(&self) -> int {
        self.bytes_usage as int
    }

    pub closed spec fn capacity(&self) -> int {
        self.bytes_capacity as int
    }

    /// The usage is the total size of the entries and never exceeds the capacity.
    pub closed spec fn wf(&self) -> bool {
        &&& self.bytes_usage as int == total_size(self.entries@)
        &&& self.bytes_usage <= self.bytes_capacity
        &&& distinct_keys(self.entries@)
    }

    /// The cached usage stays within the capacity, and each key is cached once.
    pub proof fn lemma_byte_bound(&self)
        requires
            self.wf(),
        ensures
            self.usage() <= self.capacity(),
            self.usage() == total_size(self.view()),
            distinct_keys(self.view()),
    {
    }

    pub fn new(bytes_capacity: usize) -> (r: Self)
        ensures
            r.wf(),
            r.view().len() == 0,
            r.capacity() == bytes_capacity,
    {
        SizedLruCache { entries: Vec::new(), bytes_usage: 0, bytes_capacity }
    }

    fn position(&self, key: &K) -> (r: Option<usize>)
        ensures
            r matches Some(i) ==> i < self.view().len() && self.view()[i as int].0 == *key,
            r is None ==> forall|i: int| 0 <= i < self.view().len() ==> (#[trigger] self.view()[i]).0 != *key,
    {
        let mut i: usize = 0;
        while i < self.entries.len()
            invariant
                0 <= i <= self.entries@.len(),
                forall|j: int| 0 <= j < i ==> (#[trigger] self.entries@[j]).0 != *key,
            decreases self.entries.len() - i,
        {
            if self.entries[i].0.same(key) {
                return Some(i);
            }
            i = i + 1;
        }
        None
    }

    /// The value under `key`; a hit makes the entry the most recently used.
    pub fn get(&mut self, key: &K) -> (r: Option<&V>)
        requires
            old(self).wf(),
        ensures
            final(self).wf(),
            final(self).capacity() == old(self).capacity(),
            r is None ==> (forall|i: int| 0 <= i < old(self).view().len() ==> (#[trigger] old(self).view()[i]).0 != *key)
                && final(self).view() == old(self).view(),
            r matches Some(v) ==> exists|i: int|
                0 <= i < old(self).view().len() && (#[trigger] old(self).view()[i]).0 == *key && old(self).view()[i].1 == *v
                    && final(self).view() == old(self).view().remove(i).push(old(self).view()[i]),
    {
        match self.position(key) {
            None => None,
            Some(i) => {
                let ghost pre = self.entries@;
                let e = self.entries.remove(i);
                self.entries.push(e);
                proof {
                    lemma_total_size_remove(pre, i as int);
                    assert(self.entries@.drop_last() =~= pre.remove(i as int));
                    assert forall|a: int, b: int| 0 <= a < b < self.entries@.len() implies (#[trigger] self.entries@[a]).0
                        != (#[trigger] self.entries@[b]).0 by {
                        let s = pre.remove(i as int);
                        if b < self.entries@.len() - 1 {
                            if a < i { assert(s[a] == pre[a]); } else { assert(s[a] == pre[a + 1]); }
                            if b < i { assert(s[b] == pre[b]); } else { assert(s[b] == pre[b + 1]); }
                        } else {
                            if a < i { assert(s[a] == pre[a]); } else { assert(s[a] == pre[a + 1]); }
                        }
                    }
                }
                let n = self.entries.len();
                Some(&self.entries[n - 1].1)
            },
        }
    }

    /// Caches `value` under `key` as the most recently used entry, then evicts least
    /// recently used entries until the usage fits the capacity. An entry larger than
    /// the capacity is dropped and leaves the cache unchanged.
    pub fn put(&mut self, key: K, value: V, byte_size: usize)
        requires
            old(self).wf(),
        ensures
            final(self).wf(),
            final(self).capacity() == old(self).capacity(),
            byte_size > old(self).capacity() ==> final(self).view() == old(self).view(),
            byte_size <= old(self).capacity() ==> exists|base: Seq<(K, V, usize)>, n: int| {
                &&& ((exists|i: int|
                    0 <= i < old(self).view().len() && (#[trigger] old(self).view()[i]).0 == key && base == old(self).view().remove(i))
                    || ((forall|i: int| 0 <= i < old(self).view().len() ==> (#[trigger] old(self).view()[i]).0 != key) && base
                    == old(self).view()))
                &&& 0 <= n <= base.len()
                &&& final(self).view() == base.subrange(n, base.len() as int).push((key, value, byte_size))
                &&& n > 0 ==> total_size(base.subrange(n - 1, base.len() as int)) + byte_size > old(self).capacity()
            },
    {
        if byte_size > self.bytes_capacity {
            return;
        }
        let ghost pre = self.entries@;
        let ghost mut at: int = -1;
        match self.position(&key) {
            Some(i) => {
                let ghost before = self.entries@;
                let e = self.entries.remove(i);
                proof {
                    lemma_total_size_remove(before, i as int);
                    lemma_total_size_nonneg(before);
                    at = i as int;
                }
                self.bytes_usage = self.bytes_usage - e.2;
            },
            None => {},
        }
        let ghost base = self.entries@;
        let ghost cap = self.bytes_capacity;
        proof {
            assert forall|j: int| 0 <= j < base.len() implies (#[trigger] base[j]).0 != key by {
                if at >= 0 {
                    if j < at {
                        assert(base[j] == pre[j]);
                    } else {
                        assert(base[j] == pre[j + 1]);
                    }
                } else {
                    assert(base[j] == pre[j]);
                }
            }
            assert forall|a: int, b: int| 0 <= a < b < base.len() implies (#[trigger] base[a]).0 != (#[trigger] base[b]).0 by {
                if at >= 0 {
                    if a < at { assert(base[a] == pre[a]); } else { assert(base[a] == pre[a + 1]); }
                    if b < at { assert(base[b] == pre[b]); } else { assert(base[b] == pre[b + 1]); }
                } else {
                    assert(base[a] == pre[a] && base[b] == pre[b]);
                }
            }
            if at >= 0 {
                assert(base == pre.remove(at) && pre[at].0 == key);
            }
        }
        let mut n: usize = 0;
        let ghost gn: int = 0;
        while self.bytes_usage > self.bytes_capacity - byte_size
            invariant
                byte_size <= self.bytes_capacity,
                0 <= gn <= base.len(),
                self.entries@ == base.subrange(gn, base.len() as int),
                self.bytes_usage as int == total_size(self.entries@),
                self.bytes_usage <= self.bytes_capacity,
                gn > 0 ==> total_size(base.subrange(gn - 1, base.len() as int)) + byte_size > self.bytes_capacity,
                distinct_keys(base),
                cap == self.bytes_capacity,
                forall|j: int| 0 <= j < base.len() ==> (#[trigger] base[j]).0 != key,
            decreases self.entries@.len(),
        {
            proof {
                lemma_total_size_nonneg(self.entries@);
            }
            let ghost cur = self.entries@;
            if self.entries.len() == 0 {
                assert(false);
            }
            let e = self.entries.remove(0);
            proof {
                lemma_total_size_remove(cur, 0);
                lemma_total_size_nonneg(cur);
                assert(cur.remove(0) =~= base.subrange(gn + 1, base.len() as int));
                gn = gn + 1;
            }
            self.bytes_usage = self.bytes_usage - e.2;
        }
        let ghost kept = self.entries@;
        self.entries.push((key, value, byte_size));
        self.bytes_usage = self.bytes_usage + byte_size;
        proof {
            assert(self.entries@.drop_last() =~= kept);
            assert forall|a: int, b: int| 0 <= a < b < self.entries@.len() implies (#[trigger] self.entries@[a]).0
                != (#[trigger] self.entries@[b]).0 by {
                assert(self.entries@[a] == base[a + gn]);
                if b < self.entries@.len() - 1 {
                    assert(self.entries@[b] == base[b + gn]);
                }
            }
            assert(self.entries@ == base.subrange(gn, base.len() as int).push((key, value, byte_size)));
        }
    }
}

/// Byte size charged for a block's txid list: one hash for the key and one per txid.
pub open spec fn txids_cost(n: int) -> int {
    32 * (1 + n)
}

fn copy_hashes(v: &Vec<FullHash>) -> (r: Vec<FullHash>)
    ensures
        r@ == v@,
{
    let mut r: Vec<FullHash> = Vec::new();
    let mut i: usize = 0;
    while i < v.len()
        invariant
            0 <= i <= v@.len(),
            r@ == v@.subrange(0, i as int),
        decreases v.len() - i,
    {
        r.push(v[i]);
        i = i + 1;
        assert(r@ =~= v@.subrange(0, i as int));
    }
    assert(v@.subrange(0, i as int) =~= v@);
    r
}

/// `new` is `old` after caching an entry of `key` costing `size`: the entry is the most
/// recently used, an older entry of `key` is gone, and the fewest least recently used
/// entries were evicted for the total to fit `cap`.
pub open spec fn lru_put<K, V>(old: Seq<(K, V, usize)>, key: K, size: int, cap: int, new: Seq<(K, V, usize)>) -> bool {
    exists|base: Seq<(K, V, usize)>, n: int| #![trigger base.subrange(n, base.len() as int)] {
        &&& ((exists|i: int| 0 <= i < old.len() && (#[trigger] old[i]).0 == key && base == old.remove(i)) || ((forall|i: int|
            0 <= i < old.len() ==> (#[trigger] old[i]).0 != key) && base == old))
        &&& 0 <= n <= base.len()
        &&& new.len() == base.len() - n + 1
        &&& new.drop_last() == base.subrange(n, base.len() as int)
        &&& new.last().0 == key
        &&& new.last().2 == size
        &&& n > 0 ==> total_size(base.subrange(n - 1, base.len() as int)) + size > cap
    }
}

/// Cache of the txids of the transactions of a block.
pub struct BlockTxIDsCache {
    map: SizedLruCache<FullHash, Vec<FullHash>>,
}

impl BlockTxIDsCache {
    pub closed spec fn wf(&self) -> bool {
        self.map.wf()
    }

    /// The cached blocks and their txids, least recently used first.
    pub closed spec fn view(&self) -> Seq<(FullHash, Vec<FullHash>, usize)> {
        self.map.view()
    }

    pub closed spec fn capacity(&self) -> int {
        self.map.capacity()
    }

    pub fn new(bytes_capacity: usize) -> (r: BlockTxIDsCache)
        ensures
            r.wf(),
            r.view().len() == 0,
            r.capacity() == bytes_capacity,
    {
        BlockTxIDsCache { map: SizedLruCache::new(bytes_capacity) }
    }

    /// The txids of `blockhash`: from the cache, or else from `load_txids_func`, whose
    /// result is then cached at a cost of `32 * (1 + txids)` bytes. A load error is
    /// returned and nothing is cached.
    pub fn get_or_else<F>(&mut self, blockhash: &FullHash, load_txids_func: F) -> (r: Result<Vec<FullHash>, Error>)
        where
            F: FnOnce() -> Result<Vec<FullHash>, Error>,
        requires
            old(self).wf(),
            load_txids_func.requires(()),
        ensures
            final(self).wf(),
            final(self).capacity() == old(self).capacity(),
            (exists|i: int| 0 <= i < old(self).view().len() && (#[trigger] old(self).view()[i]).0 == *blockhash) ==> exists|i: int|
                0 <= i < old(self).view().len() && (#[trigger] old(self).view()[i]).0 == *blockhash && r is Ok
                    && r->Ok_0@ == old(self).view()[i].1@,
            (forall|i: int| 0 <= i < old(self).view().len() ==> (#[trigger] old(self).view()[i]).0 != *blockhash)
                ==> load_txids_func.ensures((), r),
            r is Err ==> final(self).view() == old(self).view(),
            r is Ok && txids_cost(r->Ok_0@.len() as int) <= final(self).capacity() ==> final(self).view().last().0
                == *blockhash && final(self).view().last().1@ == r->Ok_0@,
            (exists|i: int| 0 <= i < old(self).view().len() && (#[trigger] old(self).view()[i]).0 == *blockhash) ==> exists|i: int|
                0 <= i < old(self).view().len() && (#[trigger] old(self).view()[i]).0 == *blockhash && final(self).view()
                    == old(self).view().remove(i).push(old(self).view()[i]),
            (forall|i: int| 0 <= i < old(self).view().len() ==> (#[trigger] old(self).view()[i]).0 != *blockhash) && r is Ok
                && txids_cost(r->Ok_0@.len() as int) > old(self).capacity() ==> final(self).view() == old(self).view(),
            (forall|i: int| 0 <= i < old(self).view().len() ==> (#[trigger] old(self).view()[i]).0 != *blockhash) && r is Ok
                && txids_cost(r->Ok_0@.len() as int) <= old(self).capacity() ==> lru_put(
                old(self).view(),
                *blockhash,
                txids_cost(r->Ok_0@.len() as int),
                old(self).capacity(),
                final(self).view(),
            ),
    {
        let ghost pre = self.map.view();
        let ghost pre_cap = self.map.capacity();
        assert(pre == old(self).view());
        match self.map.get(blockhash) {
            Some(txids) => {
                let r = copy_hashes(txids);
                assert(exists|i: int| 0 <= i < pre.len() && (#[trigger] pre[i]).0 == *blockhash);
                return Ok(r);
            },
            None => {},
        }
        let txids = load_txids_func()?;
        let n = txids.len();
        if n >= usize::MAX / 32 {
            return Ok(txids);
        }
        let byte_size = 32 * (1 + n);
        let cached = copy_hashes(&txids);
        let ghost cached_v = cached;
        self.map.put(*blockhash, cached, byte_size);
        proof {
            if byte_size <= pre_cap {
                let (base, k) = choose|base: Seq<(FullHash, Vec<FullHash>, usize)>, k: int| #![trigger base.subrange(k, base.len() as int)] {
                    &&& ((exists|i: int| 0 <= i < pre.len() && (#[trigger] pre[i]).0 == *blockhash && base == pre.remove(i)) || ((forall|i: int|
                        0 <= i < pre.len() ==> (#[trigger] pre[i]).0 != *blockhash) && base == pre))
                    &&& 0 <= k <= base.len()
                    &&& self.map.view() == base.subrange(k, base.len() as int).push((*blockhash, cached_v, byte_size))
                    &&& k > 0 ==> total_size(base.subrange(k - 1, base.len() as int)) + byte_size > pre_cap
                };
                assert(self.map.view().drop_last() =~= base.subrange(k, base.len() as int));
                assert(lru_put(pre, *blockhash, txids_cost(n as int), pre_cap as int, self.map.view()));
            }
        }
        Ok(txids)
    }
}

} // verus!
