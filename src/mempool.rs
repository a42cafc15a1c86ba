use vstd::prelude::*;

use crate::index::{
    all_well_formed, index_transaction, input_rows, is_well_formed_row, output_rows, tx_row, tx_rows, RowView, Transaction,
    TxIn, TXIN_CODE, TXOUT_CODE, TX_CODE,
};
use crate::query::well_formed;
use crate::store::{rows_view, ReadStore, Row, StackMap};
use crate::util::{null_hash, null_hash_spec, same_hash, Bytes, FullHash};

verus! {

/// The values of the rows of `rows` whose key is `k`, in order.
pub open spec fn values_for(rows: Seq<RowView>, k: Seq<u8>) -> Seq<Seq<u8>>
    decreases rows.len(),
{
    if rows.len() == 0 {
        Seq::empty()
    } else if rows.last().0 == k {
        values_for(rows.drop_last(), k).push(rows.last().1)
    } else {
        values_for(rows.drop_last(), k)
    }
}

/// `s` without its last `n` values (empty when it has fewer).
pub open spec fn without_last(s: Seq<Seq<u8>>, n: nat) -> Seq<Seq<u8>> {
    if n >= s.len() {
        Seq::empty()
    } else {
        s.subrange(0, s.len() - n)
    }
}

/// The value of every mempool row under `k`: the all-zero block hash for a `T` row,
/// nothing for the others.
pub open spec fn mempool_value(k: Seq<u8>) -> Seq<u8> {
    if k.len() > 0 && k[0] == TX_CODE {
        null_hash_spec()
    } else {
        Seq::empty()
    }
}

/// The rows of the transactions of `items`, one transaction after the other.
pub open spec fn items_rows(items: Seq<(FullHash, Transaction)>) -> Seq<RowView>
    decreases items.len(),
{
    if items.len() == 0 {
        Seq::empty()
    } else {
        items_rows(items.drop_last()) + tx_rows(items.last().1, null_hash_spec())
    }
}

/// Each row of `rows` holds the mempool value of its key.
pub open spec fn mempool_values(rows: Seq<RowView>) -> bool {
    forall|i: int| 0 <= i < rows.len() ==> (#[trigger] rows[i]).1 == mempool_value(rows[i].0)
}

proof fn lemma_values_for_concat(a: Seq<RowView>, b: Seq<RowView>, k: Seq<u8>)
    ensures
        values_for(a + b, k) == values_for(a, k) + values_for(b, k),
    decreases b.len(),
{
    if b.len() == 0 {
        assert(a + b =~= a);
        assert(values_for(a, k) + values_for(b, k) =~= values_for(a, k));
    } else {
        assert((a + b).drop_last() =~= a + b.drop_last());
        assert((a + b).last() == b.last());
        lemma_values_for_concat(a, b.drop_last(), k);
        if b.last().0 == k {
            assert(values_for(a + b, k) =~= values_for(a, k) + values_for(b, k));
        } else {
            assert(values_for(a + b, k) =~= values_for(a, k) + values_for(b, k));
        }
    }
}

proof fn lemma_values_for_mempool(rows: Seq<RowView>, k: Seq<u8>, j: int)
    requires
        mempool_values(rows),
        0 <= j < values_for(rows, k).len(),
    ensures
        values_for(rows, k)[j] == mempool_value(k),
    decreases rows.len(),
{
    let prev = values_for(rows.drop_last(), k);
    assert(mempool_values(rows.drop_last())) by {
        assert forall|i: int| 0 <= i < rows.drop_last().len() implies (#[trigger] rows.drop_last()[i]).1 == mempool_value(
            rows.drop_last()[i].0,
        ) by {
            assert(rows.drop_last()[i] == rows[i]);
        }
    }
    if rows.last().0 == k && j == prev.len() {
        assert(rows.last() == rows[rows.len() - 1]);
    } else {
        lemma_values_for_mempool(rows.drop_last(), k, j);
    }
}

proof fn lemma_input_rows_mempool(txid: Seq<u8>, inputs: Seq<TxIn>)
    ensures
        mempool_values(input_rows(txid, inputs)),
        forall|i: int| 0 <= i < input_rows(txid, inputs).len() ==> (#[trigger] input_rows(txid, inputs)[i]).0[0] == TXIN_CODE,
    decreases inputs.len(),
{
    if inputs.len() > 0 {
        lemma_input_rows_mempool(txid, inputs.drop_last());
        let prev = input_rows(txid, inputs.drop_last());
        let rows = input_rows(txid, inputs);
        assert forall|i: int| 0 <= i < rows.len() implies (#[trigger] rows[i]).1 == mempool_value(rows[i].0) && rows[i].0[0] == TXIN_CODE by {
            if i < prev.len() {
                assert(rows[i] == prev[i]);
            }
        }
    }
}

/// The rows that indexing a transaction with an all-zero block hash produces hold the
/// mempool value of their key.
pub proof fn lemma_tx_rows_mempool(tx: Transaction)
    ensures
        mempool_values(tx_rows(tx, null_hash_spec())),
{
    let txid = tx.txid@;
    lemma_input_rows_mempool(txid, tx.input@);
    let a = input_rows(txid, tx.input@);
    let b = output_rows(txid, tx.output@);
    let c = seq![tx_row(txid, null_hash_spec())];
    let rows = tx_rows(tx, null_hash_spec());
    assert forall|i: int| 0 <= i < rows.len() implies (#[trigger] rows[i]).1 == mempool_value(rows[i].0) by {
        if i < a.len() {
            assert(rows[i] == a[i]);
        } else if i < a.len() + b.len() {
            assert(rows[i] == b[i - a.len()]);
        } else {
            assert(rows[i] == c[0]);
            assert((seq![TX_CODE] + txid)[0] == TX_CODE);
        }
    }
}

proof fn lemma_items_rows_mempool(items: Seq<(FullHash, Transaction)>)
    ensures
        mempool_values(items_rows(items)),
    decreases items.len(),
{
    if items.len() > 0 {
        lemma_items_rows_mempool(items.drop_last());
        lemma_tx_rows_mempool(items.last().1);
        let a = items_rows(items.drop_last());
        let b = tx_rows(items.last().1, null_hash_spec());
        assert forall|i: int| 0 <= i < (a + b).len() implies (#[trigger] (a + b)[i]).1 == mempool_value((a + b)[i].0) by {
            if i < a.len() {
                assert((a + b)[i] == a[i]);
            } else {
                assert((a + b)[i] == b[i - a.len()]);
            }
        }
    }
}

/// The rows of `items` when its first transaction is taken out front.
proof fn lemma_items_rows_front(items: Seq<(FullHash, Transaction)>)
    requires
        items.len() > 0,
    ensures
        items_rows(items) == tx_rows(items[0].1, null_hash_spec()) + items_rows(items.subrange(1, items.len() as int)),
    decreases items.len(),
{
    let rest = items.subrange(1, items.len() as int);
    if items.len() == 1 {
        assert(items.drop_last() =~= Seq::<(FullHash, Transaction)>::empty());
        assert(rest =~= Seq::<(FullHash, Transaction)>::empty());
        assert(items_rows(items) =~= tx_rows(items[0].1, null_hash_spec()) + items_rows(rest));
    } else {
        lemma_items_rows_front(items.drop_last());
        assert(items.drop_last().subrange(1, items.drop_last().len() as int) =~= rest.drop_last());
        assert(rest.last() == items.last());
        assert(items.drop_last()[0] == items[0]);
        assert(items_rows(items) =~= tx_rows(items[0].1, null_hash_spec()) + items_rows(rest));
    }
}

/// In-memory store of mempool rows: each key holds a stack of values, the latest
/// insertion on top.
pub struct MempoolStore {
    map: StackMap,
}

impl MempoolStore {
    pub closed spec fn wf(&self) -> bool {
        &&& self.map.wf()
        &&& forall|k: Seq<u8>, j: int|
            k.len() > 0 && 0 <= j < self.map.stack_of(k).len() ==> is_well_formed_row((k, #[trigger] self.map.stack_of(k)[j]))
        &&& forall|k: Seq<u8>, j: int| 0 <= j < self.map.stack_of(k).len() ==> #[trigger] self.map.stack_of(k)[j] == mempool_value(k)
    }

    /// The stack of values under `k`.
    pub closed spec fn stack(&self, k: Seq<u8>) -> Seq<Seq<u8>> {
        self.map.stack_of(k)
    }

    pub fn new() -> (r: MempoolStore)
        ensures
            r.wf(),
            forall|k: Seq<u8>| (#[trigger] r.stack(k)).len() == 0,
    {
        MempoolStore { map: StackMap::new() }
    }

    /// Indexes `tx` with an all-zero block hash, pushing each row's value.
    pub fn add(&mut self, tx: &Transaction)
        requires
            old(self).wf(),
        ensures
            final(self).wf(),
            forall|k: Seq<u8>|
                #[trigger] final(self).stack(k) == old(self).stack(k) + values_for(
                    tx_rows(*tx, null_hash_spec()),
                    k,
                ),
    {
        let rows = index_transaction(tx, &null_hash());
        let ghost rv = rows_view(rows@);
        let ghost pre = *self;
        let mut i: usize = 0;
        while i < rows.len()
            invariant
                self.map.wf(),
                pre.wf(),
                all_well_formed(rv),
                rv == rows_view(rows@),
                0 <= i <= rv.len(),
                forall|k: Seq<u8>|
                    #[trigger] self.stack(k) == pre.stack(k) + values_for(rv.subrange(0, i as int), k),
            decreases rows.len() - i,
        {
            let key = vstd::slice::slice_to_vec(rows[i].key.as_slice());
            let value = vstd::slice::slice_to_vec(rows[i].value.as_slice());
            let ghost before = *self;
            self.map.push(key, value);
            assert forall|k: Seq<u8>|
                #[trigger] self.stack(k) == pre.stack(k) + values_for(rv.subrange(0, i + 1), k) by {
                let w = rv.subrange(0, i + 1);
                assert(w.drop_last() =~= rv.subrange(0, i as int));
                assert(w.last() == rows@[i as int]@);
                assert(before.stack(k) == pre.stack(k) + values_for(rv.subrange(0, i as int), k));
                if k == key@ {
                    assert(self.stack(k) =~= pre.stack(k) + values_for(w, k));
                }
            }
            i = i + 1;
        }
        assert(rv.subrange(0, i as int) =~= rv);
        assert forall|k: Seq<u8>, j: int|
            k.len() > 0 && 0 <= j < self.map.stack_of(k).len() implies is_well_formed_row((k, #[trigger] self.map.stack_of(k)[j])) by {
            assert(self.stack(k) == self.map.stack_of(k));
            assert(pre.stack(k) == pre.map.stack_of(k));
            if j >= pre.stack(k).len() {
                lemma_values_for_source(rv, k, j - pre.stack(k).len());
            } else {
                assert(self.map.stack_of(k)[j] == pre.map.stack_of(k)[j]);
            }
        }
        proof {
            lemma_tx_rows_mempool(*tx);
        }
        assert forall|k: Seq<u8>, j: int| 0 <= j < self.map.stack_of(k).len() implies #[trigger] self.map.stack_of(k)[j]
            == mempool_value(k) by {
            assert(self.stack(k) == self.map.stack_of(k));
            assert(pre.stack(k) == pre.map.stack_of(k));
            if j >= pre.stack(k).len() {
                lemma_values_for_mempool(rv, k, j - pre.stack(k).len());
            } else {
                assert(self.map.stack_of(k)[j] == pre.map.stack_of(k)[j]);
            }
        }
    }

    /// Pops, for each row of `tx` indexed with an all-zero block hash, the value on
    /// top of its key's stack; a key whose stack empties is dropped.
    pub fn remove(&mut self, tx: &Transaction)
        requires
            old(self).wf(),
            forall|k: Seq<u8>|
                #[trigger] old(self).stack(k).len() >= values_for(tx_rows(*tx, null_hash_spec()), k).len(),
        ensures
            final(self).wf(),
            forall|k: Seq<u8>|
                #[trigger] final(self).stack(k) == without_last(
                    old(self).stack(k),
                    values_for(tx_rows(*tx, null_hash_spec()), k).len(),
                ),
    {
        let rows = index_transaction(tx, &null_hash());
        let ghost rv = rows_view(rows@);
        let ghost pre = *self;
        let mut i: usize = 0;
        while i < rows.len()
            invariant
                self.map.wf(),
                pre.wf(),
                rv == rows_view(rows@),
                0 <= i <= rv.len(),
                forall|k: Seq<u8>|
                    #[trigger] self.stack(k) == without_last(
                        pre.stack(k),
                        values_for(rv.subrange(0, i as int), k).len(),
                    ),
            decreases rows.len() - i,
        {
            let ghost before = *self;
            let _ = self.map.pop(rows[i].key.as_slice());
            assert forall|k: Seq<u8>|
                #[trigger] self.stack(k) == without_last(
                    pre.stack(k),
                    values_for(rv.subrange(0, i + 1), k).len(),
                ) by {
                let w = rv.subrange(0, i + 1);
                assert(w.drop_last() =~= rv.subrange(0, i as int));
                assert(w.last() == rows@[i as int]@);
                let c = values_for(rv.subrange(0, i as int), k).len();
                assert(before.stack(k) == without_last(pre.stack(k), c));
                if k == rows@[i as int].key@ && before.stack(k).len() > 0 {
                    assert(self.stack(k) =~= without_last(pre.stack(k), c + 1));
                } else if k == rows@[i as int].key@ {
                    assert(self.stack(k) =~= without_last(pre.stack(k), c + 1));
                }
            }
            i = i + 1;
        }
        assert(rv.subrange(0, i as int) =~= rv);
        assert forall|k: Seq<u8>, j: int|
            k.len() > 0 && 0 <= j < self.map.stack_of(k).len() implies is_well_formed_row((k, #[trigger] self.map.stack_of(k)[j])) by {
            assert(self.stack(k) == self.map.stack_of(k));
            assert(pre.stack(k) == pre.map.stack_of(k));
            assert(self.map.stack_of(k)[j] == pre.map.stack_of(k)[j]);
        }
        assert forall|k: Seq<u8>, j: int| 0 <= j < self.map.stack_of(k).len() implies #[trigger] self.map.stack_of(k)[j]
            == mempool_value(k) by {
            assert(self.stack(k) == self.map.stack_of(k));
            assert(pre.stack(k) == pre.map.stack_of(k));
            assert(self.map.stack_of(k)[j] == pre.map.stack_of(k)[j]);
        }
    }

    /// A read sees the value on top of the key's stack, the latest pushed; nothing when
    /// the stack is empty.
    pub proof fn lemma_lookup_is_top(&self, k: Seq<u8>)
        ensures
            self.stack(k).len() > 0 ==> self.lookup(k) == Some(self.stack(k).last()),
            self.stack(k).len() == 0 ==> self.lookup(k) is None,
    {
    }

    /// Reads of the mempool store never meet a malformed row.
    pub proof fn lemma_well_formed(&self)
        requires
            self.wf(),
        ensures
            well_formed(self),
    {
        assert forall|k: Seq<u8>| k.len() > 0 && (#[trigger] self.lookup(k)) is Some implies {
            &&& (k[0] == TX_CODE ==> k.len() == 33 && self.lookup(k)->Some_0.len() == 32)
            &&& (k[0] == TXOUT_CODE ==> k.len() == 19)
            &&& (k[0] == TXIN_CODE ==> k.len() == 19)
        } by {
            let st = self.map.stack_of(k);
            assert(is_well_formed_row((k, st[st.len() - 1])));
        }
    }
}

proof fn lemma_values_for_source(rows: Seq<RowView>, k: Seq<u8>, j: int)
    requires
        all_well_formed(rows),
        0 <= j < values_for(rows, k).len(),
    ensures
        is_well_formed_row((k, values_for(rows, k)[j])),
    decreases rows.len(),
{
    let prev = values_for(rows.drop_last(), k);
    assert(all_well_formed(rows.drop_last())) by {
        assert forall|i: int| 0 <= i < rows.drop_last().len() implies is_well_formed_row(#[trigger] rows.drop_last()[i]) by {
            assert(rows.drop_last()[i] == rows[i]);
        }
    }
    if rows.last().0 == k {
        if j < prev.len() {
            lemma_values_for_source(rows.drop_last(), k, j);
        } else {
            assert(rows.last() == rows[rows.len() - 1]);
            assert(is_well_formed_row(rows[rows.len() - 1]));
        }
    } else {
        lemma_values_for_source(rows.drop_last(), k, j);
    }
}

impl ReadStore for MempoolStore {
    /// The latest value pushed under `key`.
    closed spec fn lookup(&self, key: Seq<u8>) -> Option<Seq<u8>> {
        self.map.top(key)
    }

    closed spec fn store_wf(&self) -> bool {
        self.wf()
    }

    fn get(&self, key: &[u8]) -> (r: Option<Bytes>) {
        self.map.get_top(key)
    }

    fn scan(&self, prefix: &[u8]) -> (r: Vec<Row>) {
        let r = self.map.scan_tops(prefix);
        assert((|k: Seq<u8>| self.lookup(k)) =~= (|k: Seq<u8>| self.map.top(k)));
        r
    }
}

/// Whether `h` is one of `v`.
pub fn contains_hash(v: &Vec<FullHash>, h: &FullHash) -> (r: bool)
    ensures
        r <==> exists|i: int| 0 <= i < v@.len() && (#[trigger] v@[i])@ == h@,
{
    let mut i: usize = 0;
    while i < v.len()
        invariant
            0 <= i <= v@.len(),
            forall|j: int| 0 <= j < i ==> (#[trigger] v@[j])@ != h@,
        decreases v.len() - i,
    {
        if same_hash(&v[i], h) {
            return true;
        }
        i = i + 1;
    }
    false
}

proof fn lemma_in_hashes_push(s: Seq<FullHash>, t: FullHash, u: Seq<u8>)
    ensures
        in_hashes(s.push(t), u) <==> in_hashes(s, u) || t@ == u,
{
    let w = s.push(t);
    if in_hashes(s, u) {
        let j = choose|j: int| 0 <= j < s.len() && (#[trigger] s[j])@ == u;
        assert(w[j] == s[j]);
    }
    if t@ == u {
        assert(w[s.len() as int] == t);
    }
    if in_hashes(w, u) && t@ != u {
        let j = choose|j: int| 0 <= j < w.len() && (#[trigger] w[j])@ == u;
        assert(w[j] == s[j]);
    }
}

/// Tracks the daemon's mempool: its transactions, and the rows that index them.
pub struct Tracker {
    items: Vec<(FullHash, Transaction)>,
    index: MempoolStore,
}

pub open spec fn in_hashes(v: Seq<FullHash>, t: Seq<u8>) -> bool {
    exists|i: int| 0 <= i < v.len() && (#[trigger] v[i])@ == t
}

impl Tracker {
    pub closed spec fn wf(&self) -> bool {
        &&& self.index.wf()
        &&& forall|i: int| 0 <= i < self.items@.len() ==> (#[trigger] self.items@[i]).1.txid == self.items@[i].0
        &&& forall|i: int, j: int|
            0 <= i < j < self.items@.len() ==> (#[trigger] self.items@[i]).0@ != (#[trigger] self.items@[j]).0@
        &&& forall|k: Seq<u8>| #[trigger] self.index.stack(k).len() == values_for(items_rows(self.items@), k).len()
    }

    /// The tracked transactions, by txid, in the order they were added.
    pub closed spec fn items_spec(&self) -> Seq<(FullHash, Transaction)> {
        self.items@
    }

    /// The mempool index holds exactly the rows of the tracked transactions: under each
    /// key, one value per row with that key.
    pub proof fn lemma_index_matches_items(&self)
        requires
            self.wf(),
        ensures
            forall|k: Seq<u8>| #[trigger] self.index_spec().stack(k) == values_for(items_rows(self.items_spec()), k),
    {
        lemma_items_rows_mempool(self.items@);
        assert forall|k: Seq<u8>| #[trigger] self.index_spec().stack(k) == values_for(items_rows(self.items_spec()), k) by {
            let a = self.index.stack(k);
            let b = values_for(items_rows(self.items@), k);
            assert forall|j: int| 0 <= j < a.len() implies a[j] == b[j] by {
                assert(a == self.index.map.stack_of(k));
                lemma_values_for_mempool(items_rows(self.items@), k, j);
            }
            assert(a =~= b);
        }
    }

    /// Whether the transaction `txid` is tracked.
    pub closed spec fn tracks(&self, txid: Seq<u8>) -> bool {
        exists|i: int| 0 <= i < self.items@.len() && (#[trigger] self.items@[i]).0@ == txid
    }

    pub closed spec fn index_spec(&self) -> MempoolStore {
        self.index
    }

    /// The rows the tracker indexes all have the layout of their family.
    pub proof fn lemma_index_well_formed(&self)
        requires
            self.wf(),
        ensures
            well_formed(&self.index_spec()),
    {
        self.index.lemma_well_formed();
    }

    pub fn new() -> (r: Tracker)
        ensures
            r.wf(),
            forall|t: Seq<u8>| !(#[trigger] r.tracks(t)),
    {
        Tracker { items: Vec::new(), index: MempoolStore::new() }
    }

    /// The store of mempool rows.
    pub fn index(&self) -> (r: &MempoolStore)
        requires
            self.wf(),
        ensures
            *r == self.index_spec(),
            r.store_wf(),
    {
        &self.index
    }

    /// Whether `txid` is tracked.
    pub fn has(&self, txid: &FullHash) -> (r: bool)
        ensures
            r == self.tracks(txid@),
    {
        let mut i: usize = 0;
        while i < self.items.len()
            invariant
                0 <= i <= self.items@.len(),
                forall|j: int| 0 <= j < i ==> (#[trigger] self.items@[j]).0@ != txid@,
            decreases self.items.len() - i,
        {
            if same_hash(&self.items[i].0, txid) {
                return true;
            }
            i = i + 1;
        }
        false
    }

    /// Whether every tracked transaction is still in `mempool_txids`.
    fn all_in(&self, mempool_txids: &Vec<FullHash>) -> (r: bool)
        ensures
            r <==> forall|t: Seq<u8>| self.tracks(t) ==> in_hashes(mempool_txids@, t),
    {
        let mut i: usize = 0;
        while i < self.items.len()
            invariant
                0 <= i <= self.items@.len(),
                forall|j: int| 0 <= j < i ==> in_hashes(mempool_txids@, (#[trigger] self.items@[j]).0@),
            decreases self.items.len() - i,
        {
            if !contains_hash(mempool_txids, &self.items[i].0) {
                assert(self.tracks(self.items@[i as int].0@));
                return false;
            }
            i = i + 1;
        }
        true
    }

    /// One refresh from the daemon: `mempool_txids` is its mempool and `fetched` the
    /// transactions it returned for `missing_txids`, or `None` when fetching failed.
    /// A failed fetch keeps everything as it was, so the next refresh retries. Otherwise
    /// fetched transactions that are in the mempool and not tracked are added, and
    /// tracked transactions that left the mempool are removed. A refresh with nothing
    /// new and nothing gone changes nothing, so repeating a refresh is idempotent.
    pub fn update(&mut self, mempool_txids: &Vec<FullHash>, fetched: Option<Vec<Transaction>>)
        requires
            old(self).wf(),
        ensures
            final(self).wf(),
            fetched is None ==> *final(self) == *old(self),
            fetched matches Some(txs) ==> forall|t: Seq<u8>|
                #[trigger] final(self).tracks(t) <==> in_hashes(mempool_txids@, t) && (old(self).tracks(t)
                    || exists|i: int| 0 <= i < txs@.len() && (#[trigger] txs@[i]).txid@ == t),
            fetched matches Some(txs) && txs@.len() == 0 && (forall|t: Seq<u8>|
                old(self).tracks(t) ==> in_hashes(mempool_txids@, t)) ==> *final(self) == *old(self),
            forall|k: Seq<u8>| #[trigger] final(self).index_spec().stack(k) == values_for(items_rows(final(self).items_spec()), k),
    {
        proof {
            self.lemma_index_matches_items();
        }
        let mut txs = match fetched {
            None => {
                return;
            },
            Some(txs) => txs,
        };
        let ghost pre = *self;
        let ghost orig = txs@;
        while txs.len() > 0
            invariant
                self.wf(),
                orig.len() >= txs@.len(),
                txs@ == orig.subrange(orig.len() - txs@.len(), orig.len() as int),
                txs@.len() == orig.len() ==> *self == pre,
                forall|t: Seq<u8>|
                    #[trigger] self.tracks(t) <==> pre.tracks(t) || (in_hashes(mempool_txids@, t)
                        && exists|i: int| 0 <= i < orig.len() - txs@.len() && (#[trigger] orig[i]).txid@ == t),
                forall|t: Seq<u8>| pre.tracks(t) ==> #[trigger] self.tracks(t),
            decreases txs.len(),
        {
            let ghost done = orig.len() - txs@.len();
            let tx = txs.remove(0);
            assert(tx == orig[done]);
            assert(txs@ =~= orig.subrange(orig.len() - txs@.len(), orig.len() as int));
            let ghost before = *self;
            if contains_hash(mempool_txids, &tx.txid) && !self.has(&tx.txid) {
                self.index.add(&tx);
                let txid = tx.txid;
                let ghost txg = tx;
                self.items.push((txid, tx));
                proof {
                    assert(self.items@.drop_last() =~= before.items@);
                    assert(self.items@.last().1 == txg);
                    assert forall|k: Seq<u8>| #[trigger] self.index.stack(k).len() == values_for(items_rows(self.items@), k).len() by {
                        lemma_values_for_concat(items_rows(before.items@), tx_rows(txg, null_hash_spec()), k);
                    }
                }
                assert(self.items@.last().0 == txid);
                assert forall|t: Seq<u8>| #[trigger] self.tracks(t) <==> before.tracks(t) || t == txid@ by {
                    if before.tracks(t) {
                        let j = choose|j: int| 0 <= j < before.items@.len() && (#[trigger] before.items@[j]).0@ == t;
                        assert(self.items@[j] == before.items@[j]);
                    }
                    if self.tracks(t) && t != txid@ {
                        let j = choose|j: int| 0 <= j < self.items@.len() && (#[trigger] self.items@[j]).0@ == t;
                        assert(self.items@[j] == before.items@[j]);
                    }
                    if t == txid@ {
                        assert(self.items@[self.items@.len() - 1].0@ == t);
                    }
                }
                assert forall|a: int, b: int| 0 <= a < b < self.items@.len() implies (#[trigger] self.items@[a]).0@
                    != (#[trigger] self.items@[b]).0@ by {
                    if b == self.items@.len() - 1 {
                        assert(self.items@[a] == before.items@[a]);
                        assert(before.tracks(self.items@[a].0@));
                    } else {
                        assert(self.items@[a] == before.items@[a]);
                        assert(self.items@[b] == before.items@[b]);
                    }
                }
                assert forall|a: int| 0 <= a < self.items@.len() implies (#[trigger] self.items@[a]).1.txid == self.items@[a].0 by {
                    if a < self.items@.len() - 1 {
                        assert(self.items@[a] == before.items@[a]);
                    }
                }
            }
            assert forall|t: Seq<u8>|
                #[trigger] self.tracks(t) <==> pre.tracks(t) || (in_hashes(mempool_txids@, t)
                    && exists|i: int| 0 <= i < done + 1 && (#[trigger] orig[i]).txid@ == t) by {
                if exists|i: int| 0 <= i < done && (#[trigger] orig[i]).txid@ == t {
                    let i = choose|i: int| 0 <= i < done && (#[trigger] orig[i]).txid@ == t;
                    assert(0 <= i < done + 1);
                }
                if exists|i: int| 0 <= i < done + 1 && (#[trigger] orig[i]).txid@ == t {
                    let i = choose|i: int| 0 <= i < done + 1 && (#[trigger] orig[i]).txid@ == t;
                    if i < done {
                        assert(0 <= i < done);
                    }
                }
            }
        }
        if self.all_in(mempool_txids) {
            proof {
                self.lemma_index_matches_items();
            }
            return;
        }
        let ghost mid = *self;
        self.remove_missing(mempool_txids);
        proof {
            self.lemma_index_matches_items();
        }
        assert forall|t: Seq<u8>|
            #[trigger] self.tracks(t) <==> in_hashes(mempool_txids@, t) && (pre.tracks(t)
                || exists|i: int| 0 <= i < orig.len() && (#[trigger] orig[i]).txid@ == t) by {
            assert(self.tracks(t) <==> mid.tracks(t) && in_hashes(mempool_txids@, t));
        }
    }

    /// Drops the tracked transactions that are not in `mempool_txids`, and their rows.
    #[verifier::rlimit(50)]
    fn remove_missing(&mut self, mempool_txids: &Vec<FullHash>)
        requires
            old(self).wf(),
        ensures
            final(self).wf(),
            forall|t: Seq<u8>| #[trigger] final(self).tracks(t) <==> old(self).tracks(t) && in_hashes(mempool_txids@, t),
    {
        let ghost mid = *self;
        let ghost orig_items = self.items@;
        let mut kept: Vec<(FullHash, Transaction)> = Vec::new();
        assert(items_rows(kept@) + items_rows(self.items@) =~= items_rows(self.items@));
        while self.items.len() > 0
            invariant
                self.index.wf(),
                forall|k: Seq<u8>| #[trigger] self.index.stack(k).len() == values_for(items_rows(kept@) + items_rows(self.items@), k).len(),
                orig_items.len() >= self.items@.len(),
                self.items@ == orig_items.subrange(orig_items.len() - self.items@.len(), orig_items.len() as int),
                forall|i: int| 0 <= i < orig_items.len() ==> (#[trigger] orig_items[i]).1.txid == orig_items[i].0,
                forall|i: int, j: int|
                    0 <= i < j < orig_items.len() ==> (#[trigger] orig_items[i]).0@ != (#[trigger] orig_items[j]).0@,
                forall|a: int| 0 <= a < kept@.len() ==> exists|j: int|
                    0 <= j < orig_items.len() - self.items@.len() && orig_items[j] == #[trigger] kept@[a],
                forall|a: int| 0 <= a < kept@.len() ==> in_hashes(mempool_txids@, (#[trigger] kept@[a]).0@),
                forall|j: int| 0 <= j < orig_items.len() - self.items@.len() && in_hashes(mempool_txids@, (#[trigger] orig_items[j]).0@)
                    ==> exists|a: int| 0 <= a < kept@.len() && kept@[a] == orig_items[j],
                forall|a: int, b: int| 0 <= a < b < kept@.len() ==> (#[trigger] kept@[a]).0@ != (#[trigger] kept@[b]).0@,
            decreases self.items.len(),
        {
            let ghost done = orig_items.len() - self.items@.len();
            let ghost rem = self.items@;
            proof {
                lemma_items_rows_front(rem);
            }
            let item = self.items.remove(0);
            assert(self.items@ =~= rem.subrange(1, rem.len() as int));
            assert(item == orig_items[done]);
            assert(self.items@ =~= orig_items.subrange(orig_items.len() - self.items@.len(), orig_items.len() as int));
            let ghost prev = kept@;
            if contains_hash(mempool_txids, &item.0) {
                kept.push(item);
                proof {
                    assert(kept@.drop_last() =~= prev);
                    assert(items_rows(kept@) + items_rows(self.items@) =~= items_rows(prev) + items_rows(rem));
                }
                assert(kept@[kept@.len() - 1] == orig_items[done]);
                assert forall|a: int, b: int| 0 <= a < b < kept@.len() implies (#[trigger] kept@[a]).0@
                    != (#[trigger] kept@[b]).0@ by {
                    if b == kept@.len() - 1 {
                        assert(kept@[a] == prev[a]);
                        let j = choose|j: int| 0 <= j < done && orig_items[j] == #[trigger] prev[a];
                    } else {
                        assert(kept@[a] == prev[a]);
                        assert(kept@[b] == prev[b]);
                    }
                }
                assert forall|a: int| 0 <= a < kept@.len() implies exists|j: int|
                    0 <= j < done + 1 && orig_items[j] == #[trigger] kept@[a] by {
                    if a < prev.len() {
                        assert(kept@[a] == prev[a]);
                        let j = choose|j: int| 0 <= j < done && orig_items[j] == #[trigger] prev[a];
                    } else {
                        assert(orig_items[done] == kept@[a]);
                    }
                }
                assert forall|j: int| 0 <= j < done + 1 && in_hashes(mempool_txids@, (#[trigger] orig_items[j]).0@)
                    implies exists|a: int| 0 <= a < kept@.len() && kept@[a] == orig_items[j] by {
                    if j < done {
                        let a = choose|a: int| 0 <= a < prev.len() && prev[a] == orig_items[j];
                        assert(kept@[a] == prev[a]);
                    } else {
                        assert(kept@[kept@.len() - 1] == orig_items[j]);
                    }
                }
            } else {
                proof {
                    assert forall|k: Seq<u8>| #[trigger] self.index.stack(k).len() >= values_for(
                        tx_rows(item.1, null_hash_spec()),
                        k,
                    ).len() by {
                        lemma_values_for_concat(items_rows(prev), items_rows(rem), k);
                        lemma_values_for_concat(tx_rows(item.1, null_hash_spec()), items_rows(self.items@), k);
                    }
                }
                self.index.remove(&item.1);
                proof {
                    assert forall|k: Seq<u8>| #[trigger] self.index.stack(k).len() == values_for(
                        items_rows(kept@) + items_rows(self.items@),
                        k,
                    ).len() by {
                        lemma_values_for_concat(items_rows(prev), items_rows(rem), k);
                        lemma_values_for_concat(tx_rows(item.1, null_hash_spec()), items_rows(self.items@), k);
                        lemma_values_for_concat(items_rows(prev), items_rows(self.items@), k);
                        assert(kept@ == prev);
                    }
                }
                assert forall|a: int| 0 <= a < kept@.len() implies exists|j: int|
                    0 <= j < done + 1 && orig_items[j] == #[trigger] kept@[a] by {
                    let j = choose|j: int| 0 <= j < done && orig_items[j] == #[trigger] kept@[a];
                }
            }
        }
        assert(items_rows(kept@) + items_rows(self.items@) =~= items_rows(kept@));
        self.items = kept;
        assert forall|t: Seq<u8>| #[trigger] self.tracks(t) <==> mid.tracks(t) && in_hashes(mempool_txids@, t) by {
            if self.tracks(t) {
                let a = choose|a: int| 0 <= a < self.items@.len() && (#[trigger] self.items@[a]).0@ == t;
                let j = choose|j: int| 0 <= j < orig_items.len() && orig_items[j] == #[trigger] self.items@[a];
                assert(mid.tracks(t));
            }
            if in_hashes(mempool_txids@, t) && mid.tracks(t) {
                let j = choose|j: int| 0 <= j < orig_items.len() && (#[trigger] orig_items[j]).0@ == t;
                let a = choose|a: int| 0 <= a < self.items@.len() && self.items@[a] == orig_items[j];
                assert(self.items@[a].0@ == t);
            }
        }
        assert forall|a: int| 0 <= a < self.items@.len() implies (#[trigger] self.items@[a]).1.txid == self.items@[a].0 by {
            let j = choose|j: int| 0 <= j < orig_items.len() && orig_items[j] == #[trigger] self.items@[a];
        }
    }

    /// The transactions of the daemon's mempool that are not tracked yet, once each.
    pub fn missing_txids(&self, mempool_txids: &Vec<FullHash>) -> (r: Vec<FullHash>)
        ensures
            forall|t: Seq<u8>| #[trigger] in_hashes(r@, t) <==> in_hashes(mempool_txids@, t) && !self.tracks(t),
            forall|i: int, j: int| 0 <= i < j < r@.len() ==> (#[trigger] r@[i])@ != (#[trigger] r@[j])@,
    {
        let mut r: Vec<FullHash> = Vec::new();
        let mut i: usize = 0;
        while i < mempool_txids.len()
            invariant
                0 <= i <= mempool_txids@.len(),
                forall|t: Seq<u8>| #[trigger] in_hashes(r@, t) <==> in_hashes(mempool_txids@.subrange(0, i as int), t)
                    && !self.tracks(t),
                forall|a: int, b: int| 0 <= a < b < r@.len() ==> (#[trigger] r@[a])@ != (#[trigger] r@[b])@,
            decreases mempool_txids.len() - i,
        {
            let t = mempool_txids[i];
            let ghost prev = r@;
            if !self.has(&t) && !contains_hash(&r, &t) {
                r.push(t);
            }
            assert forall|u: Seq<u8>| #[trigger] in_hashes(r@, u) <==> in_hashes(mempool_txids@.subrange(0, i + 1), u)
                && !self.tracks(u) by {
                let s = mempool_txids@.subrange(0, i + 1);
                assert(s =~= mempool_txids@.subrange(0, i as int).push(t));
                lemma_in_hashes_push(mempool_txids@.subrange(0, i as int), t, u);
                if r@.len() > prev.len() {
                    lemma_in_hashes_push(prev, t, u);
                } else {
                    assert(r@ == prev);
                }
            }
            i = i + 1;
        }
        assert(mempool_txids@.subrange(0, i as int) =~= mempool_txids@);
        r
    }
}

} // verus!
