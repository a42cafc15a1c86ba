use vstd::prelude::*;

use crate::errors::Error;
use crate::headers::HeaderEntry;
use crate::index::{
    txin_filter, txin_key, txout_filter, txout_key, Index, Transaction, TxInRow, TxOutRow, TxRow, TXIN_CODE,
    TXOUT_CODE, TX_CODE,
};
use crate::lex::is_prefix;
use crate::mempool::Tracker;
use crate::index::{all_well_formed, is_well_formed_row, RowView};
use crate::store::{is_scan_of, last_write, lemma_last_write_source, rows_view, MemStore, ReadStore};
use crate::util::{FullHash, HashPrefix};

verus! {

/// Output of a transaction.
#[derive(Clone, Copy)]
pub struct Txo {
    pub txid: FullHash,
    pub vout: usize,
    pub blockindex: usize,
}

/// Input of a transaction: the spending transaction and the output it spends.
#[derive(Clone, Copy)]
pub struct SpendingInput {
    pub txid: FullHash,
    pub outpoint: (FullHash, usize),
    pub blockindex: usize,
}

/// A transaction and the height of its block (0 when unknown or unconfirmed).
#[derive(Clone, Copy)]
pub struct TxBlockIndex {
    pub txid: FullHash,
    pub blockindex: usize,
}

/// Key of the `T` row of `txid`.
pub open spec fn t_key(txid: Seq<u8>) -> Seq<u8> {
    seq![TX_CODE] + txid
}

/// `store` resolves `txid` to `block` by a `T` row.
pub open spec fn has_tx_row<S: ReadStore>(store: &S, txid: Seq<u8>, block: Seq<u8>) -> bool {
    &&& txid.len() == 32
    &&& block.len() == 32
    &&& store.lookup(t_key(txid)) == Some(block)
}

/// `bi` is the height of `block` in the indexed chain, or 0 when it is not there.
pub open spec fn blockindex_of(index: &Index, block: Seq<u8>, bi: usize) -> bool {
    let e = index.headers().entries();
    ||| (bi == 0 && forall|i: int| 0 <= i < e.len() ==> (#[trigger] e[i]).header.hash != block)
    ||| exists|i: int| 0 <= i < e.len() && (#[trigger] e[i]).header.hash == block && e[i].height == bi
}

/// `store` holds an `O` row for output `vout` of `txid` paying to `script_hash`.
pub open spec fn has_txout_row<S: ReadStore>(store: &S, script_hash: Seq<u8>, txid: Seq<u8>, vout: u16) -> bool {
    store.lookup(txout_key(script_hash, txid, vout)) is Some
}

/// `store` holds an `I` row for `txid` spending output `vout` of `prev_txid`.
pub open spec fn has_txin_row<S: ReadStore>(store: &S, prev_txid: Seq<u8>, vout: u16, txid: Seq<u8>) -> bool {
    store.lookup(txin_key(prev_txid, vout, txid)) is Some
}

/// `txo` is an output paying to `script_hash` that `store` resolves to a full txid.
pub open spec fn is_funding<S: ReadStore>(store: &S, index: &Index, script_hash: Seq<u8>, txo: Txo) -> bool {
    &&& txo.vout < 65536
    &&& has_txout_row(store, script_hash, txo.txid@, txo.vout as u16)
    &&& exists|block: Seq<u8>| has_tx_row(store, txo.txid@, block) && blockindex_of(index, block, txo.blockindex)
}

/// `s` spends `outpoint` and `store` resolves its spender to a full txid.
pub open spec fn is_spending<S: ReadStore>(store: &S, index: &Index, outpoint: (FullHash, usize), s: SpendingInput) -> bool {
    &&& s.outpoint == outpoint
    &&& has_txin_row(store, outpoint.0@, outpoint.1 as u16, s.txid@)
    &&& exists|block: Seq<u8>| has_tx_row(store, s.txid@, block) && blockindex_of(index, block, s.blockindex)
}

/// Every `I`, `O` and `T` row of `store` has the layout of its family, as indexing
/// writes them.
pub open spec fn well_formed<S: ReadStore>(store: &S) -> bool {
    forall|k: Seq<u8>|
        k.len() > 0 && (#[trigger] store.lookup(k)) is Some ==> {
            &&& (k[0] == TX_CODE ==> k.len() == 33 && store.lookup(k)->Some_0.len() == 32)
            &&& (k[0] == TXOUT_CODE ==> k.len() == 19)
            &&& (k[0] == TXIN_CODE ==> k.len() == 19)
        }
}

/// An empty store is well formed.
pub proof fn lemma_empty_store_well_formed(store: &MemStore)
    requires
        forall|k: Seq<u8>| (#[trigger] store.lookup(k)) is None,
    ensures
        well_formed(store),
{
}

/// Writing rows that indexing produces keeps a store well formed, so queries on a
/// store that holds only indexed rows never meet a malformed row.
pub proof fn lemma_write_keeps_well_formed(pre: &MemStore, post: &MemStore, rows: Seq<RowView>)
    requires
        well_formed(pre),
        all_well_formed(rows),
        forall|k: Seq<u8>| #[trigger] post.lookup(k) == last_write(rows, k, pre.lookup(k)),
    ensures
        well_formed(post),
{
    assert forall|k: Seq<u8>| k.len() > 0 && (#[trigger] post.lookup(k)) is Some implies {
        &&& (k[0] == TX_CODE ==> k.len() == 33 && post.lookup(k)->Some_0.len() == 32)
        &&& (k[0] == TXOUT_CODE ==> k.len() == 19)
        &&& (k[0] == TXIN_CODE ==> k.len() == 19)
    } by {
        lemma_last_write_source(rows, k, pre.lookup(k));
        if post.lookup(k) != pre.lookup(k) {
            let i = choose|i: int|
                0 <= i < rows.len() && (#[trigger] rows[i]).0 == k && last_write(rows, k, pre.lookup(k)) == Some(rows[i].1);
            assert(is_well_formed_row(rows[i]));
        }
    }
}

/// Every txid starting with `prefix` that has a `T` row is among `rows`.
pub open spec fn resolves_all<S: ReadStore>(store: &S, prefix: Seq<u8>, rows: Seq<TxRow>) -> bool {
    forall|txid: Seq<u8>, block: Seq<u8>|
        txid.subrange(0, 8) == prefix && #[trigger] has_tx_row(store, txid, block) ==> exists|i: int|
            0 <= i < rows.len() && (#[trigger] rows[i]).key.txid@ == txid
}

/// The `T` rows whose txid starts with `prefix`, in key order.
pub fn get_txrows_by_prefix<S: ReadStore>(store: &S, prefix: HashPrefix) -> (r: Result<Vec<TxRow>, Error>)
    requires
        store.store_wf(),
    ensures
        r matches Ok(rows) ==> forall|i: int| 0 <= i < rows@.len() ==> has_tx_row(store, (#[trigger] rows@[i]).key.txid@, rows@[i].block_hash@)
            && rows@[i].key.txid@.subrange(0, 8) == prefix@,
        r matches Ok(rows) ==> resolves_all(store, prefix@, rows@),
        r is Err ==> r == Err::<Vec<TxRow>, Error>(Error::CorruptRow),
        well_formed(store) ==> r is Ok,
        r matches Ok(rows) ==> forall|a: int, b: int|
            0 <= a < b < rows@.len() ==> (#[trigger] rows@[a]).key.txid@ != (#[trigger] rows@[b]).key.txid@,
{
    let filter = TxRow::filter_prefix(prefix);
    let rows = store.scan(filter.as_slice());
    let ghost rv = rows_view(rows@);
    let mut out: Vec<TxRow> = Vec::new();
    let mut i: usize = 0;
    while i < rows.len()
        invariant
            rv == rows_view(rows@),
            filter@ == seq![TX_CODE] + prefix@,
            is_scan_of(|k: Seq<u8>| store.lookup(k), filter@, rv),
            0 <= i <= rv.len(),
            out@.len() == i,
            forall|j: int| 0 <= j < i ==> (#[trigger] out@[j]).key_encoding() == rv[j].0 && out@[j].block_hash@ == rv[j].1,
        decreases rows.len() - i,
    {
        assert(rv[i as int] == rows@[i as int]@);
        let row = &rows[i];
        if row.key.len() != crate::index::HASH_KEY_LEN || row.value.len() != 32 {
            proof {
                let k = rv[i as int].0;
                assert(is_prefix(filter@, k));
                assert(k[0] == k.subrange(0, 9)[0]);
                assert((|k: Seq<u8>| store.lookup(k))(k) == Some(rv[i as int].1));
            }
            return Err(Error::CorruptRow);
        }
        out.push(TxRow::from_row(row));
        i = i + 1;
    }
    assert forall|j: int| 0 <= j < out@.len() implies has_tx_row(store, (#[trigger] out@[j]).key.txid@, out@[j].block_hash@)
        && out@[j].key.txid@.subrange(0, 8) == prefix@ by {
        let k = rv[j].0;
        assert(is_prefix(filter@, k));
        assert(k.subrange(0, 9) == filter@);
        assert(out@[j].key.txid@ =~= k.subrange(1, 33));
        assert(out@[j].key.txid@.subrange(0, 8) =~= filter@.subrange(1, 9));
        assert(k[0] == k.subrange(0, 9)[0]);
        assert(t_key(out@[j].key.txid@) =~= k);
    }
    assert forall|txid: Seq<u8>, block: Seq<u8>|
        txid.subrange(0, 8) == prefix@ && #[trigger] has_tx_row(store, txid, block) implies exists|i: int|
            0 <= i < out@.len() && (#[trigger] out@[i]).key.txid@ == txid by {
        let k = t_key(txid);
        assert(k.subrange(0, 9) =~= filter@);
        assert((|k: Seq<u8>| store.lookup(k))(k) is Some);
        let j = choose|j: int| 0 <= j < rv.len() && (#[trigger] rv[j]).0 == k;
        assert(out@[j].key_encoding() == k);
        assert(out@[j].key.txid@ =~= k.subrange(1, 33));
        assert(txid =~= k.subrange(1, 33));
    }
    assert(resolves_all(store, prefix@, out@));
    assert forall|a: int, b: int| 0 <= a < b < out@.len() implies (#[trigger] out@[a]).key.txid@ != (#[trigger] out@[b]).key.txid@ by {
        crate::lex::lemma_lex_asymmetric(rv[a].0, rv[b].0);
        assert(is_prefix(filter@, rv[a].0) && is_prefix(filter@, rv[b].0));
        assert(rv[a].0[0] == rv[a].0.subrange(0, 9)[0]);
        assert(rv[b].0[0] == rv[b].0.subrange(0, 9)[0]);
        if out@[a].key.txid@ == out@[b].key.txid@ {
            assert(out@[a].key_encoding() =~= out@[b].key_encoding());
        }
    }
    Ok(out)
}

/// Height of `block_hash` in the indexed chain, 0 when it is not there.
pub fn get_block_height(index: &Index, block_hash: &FullHash) -> (r: usize)
    ensures
        blockindex_of(index, block_hash@, r),
{
    match index.get_header_by_block_hash(block_hash) {
        Some(e) => e.height,
        None => 0,
    }
}

/// Some entry of `result` is output `vout` of `txid`.
pub open spec fn funds(result: Seq<Txo>, txid: Seq<u8>, vout: u16) -> bool {
    exists|m: int| 0 <= m < result.len() && (#[trigger] result[m]).txid@ == txid && result[m].vout == vout as usize
}

/// No output appears twice in `f`.
pub open spec fn distinct_outputs(f: Seq<Txo>) -> bool {
    forall|a: int, b: int|
        0 <= a < b < f.len() ==> !((#[trigger] f[a]).txid@ == (#[trigger] f[b]).txid@ && f[a].vout == f[b].vout)
}

/// `f` is the set of outputs paying to `script_hash` in `store`: each resolved, all of
/// them, none twice.
pub open spec fn is_funding_set<S: ReadStore>(store: &S, index: &Index, script_hash: Seq<u8>, f: Seq<Txo>) -> bool {
    &&& forall|i: int| 0 <= i < f.len() ==> is_funding(store, index, script_hash, #[trigger] f[i])
    &&& funds_all(store, script_hash, f)
    &&& distinct_outputs(f)
}

pub open spec fn outputs_of(f: Seq<Txo>) -> Seq<(Seq<u8>, usize)> {
    f.map_values(|t: Txo| (t.txid@, t.vout))
}

/// All funding sets of a script hash have the same size: the number of its outputs.
pub proof fn lemma_funding_set_size<S: ReadStore>(store: &S, index: &Index, script_hash: Seq<u8>, f: Seq<Txo>, g: Seq<Txo>)
    requires
        is_funding_set(store, index, script_hash, f),
        is_funding_set(store, index, script_hash, g),
    ensures
        f.len() == g.len(),
{
    let (of, og) = (outputs_of(f), outputs_of(g));
    assert(of.no_duplicates()) by {
        assert forall|a: int, b: int| 0 <= a < of.len() && 0 <= b < of.len() && a != b implies of[a] != of[b] by {
            if a < b {
                assert(!(f[a].txid@ == f[b].txid@ && f[a].vout == f[b].vout));
            } else {
                assert(!(f[b].txid@ == f[a].txid@ && f[b].vout == f[a].vout));
            }
        }
    }
    assert(og.no_duplicates()) by {
        assert forall|a: int, b: int| 0 <= a < og.len() && 0 <= b < og.len() && a != b implies og[a] != og[b] by {
            if a < b {
                assert(!(g[a].txid@ == g[b].txid@ && g[a].vout == g[b].vout));
            } else {
                assert(!(g[b].txid@ == g[a].txid@ && g[b].vout == g[a].vout));
            }
        }
    }
    assert forall|x: (Seq<u8>, usize)| of.to_set().contains(x) <==> og.to_set().contains(x) by {
        if of.to_set().contains(x) {
            let a = choose|a: int| 0 <= a < of.len() && of[a] == x;
            lemma_funding_in(store, index, script_hash, f, g, a);
        }
        if og.to_set().contains(x) {
            let a = choose|a: int| 0 <= a < og.len() && og[a] == x;
            lemma_funding_in(store, index, script_hash, g, f, a);
        }
    }
    assert(of.to_set() =~= og.to_set());
    of.unique_seq_to_set();
    og.unique_seq_to_set();
}

proof fn lemma_funding_in<S: ReadStore>(store: &S, index: &Index, script_hash: Seq<u8>, f: Seq<Txo>, g: Seq<Txo>, a: int)
    requires
        is_funding_set(store, index, script_hash, f),
        is_funding_set(store, index, script_hash, g),
        0 <= a < f.len(),
    ensures
        outputs_of(g).to_set().contains(outputs_of(f)[a]),
{
    let t = f[a];
    assert(is_funding(store, index, script_hash, t));
    let block = choose|block: Seq<u8>| has_tx_row(store, t.txid@, block) && blockindex_of(index, block, t.blockindex);
    assert(has_txout_row(store, script_hash, t.txid@, t.vout as u16));
    assert(funds(g, t.txid@, t.vout as u16));
    let m = choose|m: int| 0 <= m < g.len() && (#[trigger] g[m]).txid@ == t.txid@ && g[m].vout == (t.vout as u16) as usize;
    assert(outputs_of(g)[m] == outputs_of(f)[a]);
}

/// The part of an `O` key after the script hash prefix that names output `t`.
spec fn outpoint_key(t: Txo) -> Seq<u8> {
    t.txid@.subrange(0, 8) + crate::util::u16_le(t.vout as u16)
}

/// Each of `result` comes from one of the first `i` of the `O` rows `rv`.
spec fn funding_from(result: Seq<Txo>, rv: Seq<(Seq<u8>, Seq<u8>)>, i: int) -> bool {
    forall|a: int| 0 <= a < result.len() ==> exists|j: int|
        0 <= j < i && outpoint_key(#[trigger] result[a]) == (#[trigger] rv[j]).0.subrange(9, 19)
}

/// Every output paying to `script_hash` whose txid `store` resolves is in `result`.
pub open spec fn funds_all<S: ReadStore>(store: &S, script_hash: Seq<u8>, result: Seq<Txo>) -> bool {
    forall|txid: Seq<u8>, vout: u16, block: Seq<u8>|
        #[trigger] has_txout_row(store, script_hash, txid, vout) && #[trigger] has_tx_row(store, txid, block) ==> funds(
            result,
            txid,
            vout,
        )
}

proof fn lemma_funds_grow(a: Seq<Txo>, b: Seq<Txo>, txid: Seq<u8>, vout: u16)
    requires
        a.len() <= b.len(),
        forall|m: int| 0 <= m < a.len() ==> b[m] == a[m],
        funds(a, txid, vout),
    ensures
        funds(b, txid, vout),
{
    let m = choose|m: int| 0 <= m < a.len() && (#[trigger] a[m]).txid@ == txid && a[m].vout == vout as usize;
    assert(b[m] == a[m]);
}

/// The outputs paying to `script_hash`: each `O` row's txid prefix resolved to the
/// full txids of the `T` rows that share it, with their block heights.
pub fn find_funding_outputs<S: ReadStore>(store: &S, index: &Index, script_hash: &FullHash) -> (r: Result<Vec<Txo>, Error>)
    requires
        store.store_wf(),
    ensures
        r matches Ok(txos) ==> forall|i: int| 0 <= i < txos@.len() ==> is_funding(store, index, script_hash@, #[trigger] txos@[i]),
        r matches Ok(txos) ==> funds_all(store, script_hash@, txos@),
        r matches Ok(txos) ==> distinct_outputs(txos@),
        r is Err ==> r == Err::<Vec<Txo>, Error>(Error::CorruptRow),
        well_formed(store) ==> r is Ok,
{
    let filter = TxOutRow::filter(script_hash);
    let rows = store.scan(filter.as_slice());
    let ghost rv = rows_view(rows@);
    let mut result: Vec<Txo> = Vec::new();
    let mut i: usize = 0;
    while i < rows.len()
        invariant
            rv == rows_view(rows@),
            filter@ == txout_filter(script_hash@),
            is_scan_of(|k: Seq<u8>| store.lookup(k), filter@, rv),
            store.store_wf(),
            0 <= i <= rv.len(),
            forall|m: int| 0 <= m < result@.len() ==> is_funding(store, index, script_hash@, #[trigger] result@[m]),
            forall|j: int, txid: Seq<u8>, vout: u16, block: Seq<u8>|
                0 <= j < i && (#[trigger] rv[j]).0 == #[trigger] txout_key(script_hash@, txid, vout) && #[trigger] has_tx_row(store, txid, block)
                    ==> funds(result@, txid, vout),
            forall|j: int| 0 <= j < i ==> (#[trigger] rv[j]).0.len() == 19,
            funding_from(result@, rv, i as int),
            distinct_outputs(result@),
        decreases rows.len() - i,
    {
        assert(rv[i as int] == rows@[i as int]@);
        let row = &rows[i];
        if row.key.len() != crate::index::TXOUT_ROW_LEN {
            proof {
                let k = rv[i as int].0;
                assert(is_prefix(filter@, k));
                assert(k[0] == k.subrange(0, 9)[0]);
                assert((|k: Seq<u8>| store.lookup(k))(k) == Some(rv[i as int].1));
            }
            return Err(Error::CorruptRow);
        }
        let out = TxOutRow::from_row(row);
        let ghost k = rv[i as int].0;
        proof {
            assert(is_prefix(filter@, k));
            assert(k.subrange(0, 9) == filter@);
            assert(store.lookup(k) == Some(rv[i as int].1));
        }
        let txrows = get_txrows_by_prefix(store, out.txid_prefix)?;
        let ghost before = result@;
        proof {
            assert forall|j: int| 0 <= j < i implies (#[trigger] rv[j]).0.subrange(9, 19) != k.subrange(9, 19) by {
                assert(is_prefix(filter@, rv[j].0));
                crate::lex::lemma_lex_asymmetric(rv[j].0, k);
                if rv[j].0.subrange(9, 19) == k.subrange(9, 19) {
                    assert(rv[j].0 =~= rv[j].0.subrange(0, 9) + rv[j].0.subrange(9, 19));
                    assert(k =~= k.subrange(0, 9) + k.subrange(9, 19));
                }
            }
            assert(out.txid_prefix@ + crate::util::u16_le(out.vout) =~= k.subrange(9, 19));
        }
        let mut m: usize = 0;
        while m < txrows.len()
            invariant
                0 <= m <= txrows@.len(),
                before.len() <= result@.len(),
                k == rv[i as int].0,
                k.len() == 19,
                forall|j: int| 0 <= j < i ==> (#[trigger] rv[j]).0.subrange(9, 19) != k.subrange(9, 19),
                out.txid_prefix@ + crate::util::u16_le(out.vout) == k.subrange(9, 19),
                funding_from(before, rv, i as int),
                forall|a: int| before.len() <= a < result@.len() ==> exists|c: int|
                    0 <= c < m && (#[trigger] result@[a]).txid@ == (#[trigger] txrows@[c]).key.txid@ && result@[a].vout
                        == out.vout as usize,
                result@.len() - before.len() == m,
                distinct_outputs(result@),
                forall|a: int, b: int|
                    0 <= a < b < txrows@.len() ==> (#[trigger] txrows@[a]).key.txid@ != (#[trigger] txrows@[b]).key.txid@,
                forall|a: int| 0 <= a < before.len() ==> result@[a] == before[a],
                forall|a: int| 0 <= a < result@.len() ==> is_funding(store, index, script_hash@, #[trigger] result@[a]),
                forall|a: int| 0 <= a < m ==> funds(result@, (#[trigger] txrows@[a]).key.txid@, out.vout),
                forall|a: int| 0 <= a < txrows@.len() ==> has_tx_row(store, (#[trigger] txrows@[a]).key.txid@, txrows@[a].block_hash@)
                    && txrows@[a].key.txid@.subrange(0, 8) == out.txid_prefix@,
                out.encoding() == k,
                k.subrange(0, 9) == filter@,
                filter@ == txout_filter(script_hash@),
                store.lookup(k) is Some,
            decreases txrows.len() - m,
        {
            let tr = &txrows[m];
            let bi = get_block_height(index, &tr.block_hash);
            let txo = Txo { txid: tr.key.txid, vout: out.vout as usize, blockindex: bi };
            let ghost prev = result@;
            proof {
                assert(txout_key(script_hash@, txo.txid@, out.vout) =~= k);
                assert(has_tx_row(store, txo.txid@, tr.block_hash@));
                assert((txo.vout as u16) == out.vout);
                assert(has_txout_row(store, script_hash@, txo.txid@, txo.vout as u16));
                assert(txo.vout < 65536);
                assert(has_tx_row(store, txo.txid@, tr.block_hash@) && blockindex_of(index, tr.block_hash@, txo.blockindex));
                assert(is_funding(store, index, script_hash@, txo));
            }
            result.push(txo);
            proof {
                assert(result@[result@.len() - 1] == txo);
                assert forall|a: int| before.len() <= a < result@.len() implies exists|c: int|
                    0 <= c < m + 1 && (#[trigger] result@[a]).txid@ == (#[trigger] txrows@[c]).key.txid@ && result@[a].vout
                        == out.vout as usize by {
                    if a < prev.len() {
                        assert(result@[a] == prev[a]);
                        let c = choose|c: int|
                            0 <= c < m && (#[trigger] prev[a]).txid@ == (#[trigger] txrows@[c]).key.txid@ && prev[a].vout
                                == out.vout as usize;
                        assert(result@[a].txid@ == txrows@[c].key.txid@);
                    } else {
                        assert(result@[a].txid@ == txrows@[m as int].key.txid@);
                    }
                }
                assert forall|a: int, b: int|
                    0 <= a < b < result@.len() implies !((#[trigger] result@[a]).txid@ == (#[trigger] result@[b]).txid@
                        && result@[a].vout == result@[b].vout) by {
                    if b < prev.len() {
                        assert(result@[a] == prev[a] && result@[b] == prev[b]);
                    } else {
                        assert(result@[a] == prev[a]);
                        assert(result@[b] == txo);
                        if a < before.len() {
                            assert(prev[a] == before[a]);
                            let j = choose|j: int|
                                0 <= j < i && outpoint_key(#[trigger] before[a]) == (#[trigger] rv[j]).0.subrange(9, 19);
                            if result@[a].txid@ == txo.txid@ && result@[a].vout == txo.vout {
                                assert(txo.txid@.subrange(0, 8) == out.txid_prefix@);
                                assert(outpoint_key(txo) =~= k.subrange(9, 19));
                                assert(outpoint_key(before[a]) == outpoint_key(txo));
                            }
                        } else {
                            let c = choose|c: int|
                                0 <= c < m && (#[trigger] prev[a]).txid@ == (#[trigger] txrows@[c]).key.txid@ && prev[a].vout
                                    == out.vout as usize;
                            assert(txrows@[c].key.txid@ != txrows@[m as int].key.txid@);
                        }
                    }
                }
                assert forall|a: int| 0 <= a < result@.len() implies is_funding(store, index, script_hash@, #[trigger] result@[a]) by {
                    if a < prev.len() {
                        assert(result@[a] == prev[a]);
                    }
                }
                assert forall|a: int| 0 <= a < m + 1 implies funds(result@, (#[trigger] txrows@[a]).key.txid@, out.vout) by {
                    if a < m {
                        lemma_funds_grow(prev, result@, txrows@[a].key.txid@, out.vout);
                    } else {
                        assert(result@[result@.len() - 1].txid@ == txrows@[a].key.txid@);
                    }
                }
            }
            m = m + 1;
        }
        proof {
            assert forall|a: int| 0 <= a < result@.len() implies exists|j: int|
                0 <= j < i + 1 && outpoint_key(#[trigger] result@[a]) == (#[trigger] rv[j]).0.subrange(9, 19) by {
                if a < before.len() {
                    let j = choose|j: int|
                        0 <= j < i && outpoint_key(#[trigger] before[a]) == (#[trigger] rv[j]).0.subrange(9, 19);
                    assert(result@[a] == before[a]);
                    assert(outpoint_key(result@[a]) == rv[j].0.subrange(9, 19));
                } else {
                    let c = choose|c: int|
                        0 <= c < txrows@.len() && (#[trigger] result@[a]).txid@ == (#[trigger] txrows@[c]).key.txid@
                            && result@[a].vout == out.vout as usize;
                    assert(outpoint_key(result@[a]) =~= k.subrange(9, 19));
                    assert(outpoint_key(result@[a]) == rv[i as int].0.subrange(9, 19));
                }
            }
            assert forall|j: int, txid: Seq<u8>, vout: u16, block: Seq<u8>|
                0 <= j < i + 1 && (#[trigger] rv[j]).0 == #[trigger] txout_key(script_hash@, txid, vout) && #[trigger] has_tx_row(store, txid, block)
                    implies funds(result@, txid, vout) by {
                if j < i {
                    lemma_funds_grow(before, result@, txid, vout);
                } else {
                    let e = txout_key(script_hash@, txid, vout);
                    assert(out.txid_prefix@ =~= k.subrange(9, 17));
                    assert(txid.subrange(0, 8) =~= e.subrange(9, 17));
                    assert(u16_le_of(k) == crate::util::u16_le(out.vout));
                    assert(u16_le_of(e) == crate::util::u16_le(vout));
                    crate::index::lemma_u16_le_injective(out.vout, vout);
                    let a = choose|a: int| 0 <= a < txrows@.len() && (#[trigger] txrows@[a]).key.txid@ == txid;
                }
            }
        }
        i = i + 1;
    }
    proof {
        assert forall|txid: Seq<u8>, vout: u16, block: Seq<u8>|
            #[trigger] has_txout_row(store, script_hash@, txid, vout) && #[trigger] has_tx_row(store, txid, block)
                implies funds(result@, txid, vout) by {
            let e = txout_key(script_hash@, txid, vout);
            assert(e.subrange(0, 9) =~= filter@);
            assert((|k: Seq<u8>| store.lookup(k))(e) is Some);
            let j = choose|j: int| 0 <= j < rv.len() && (#[trigger] rv[j]).0 == e;
        }
    }
    Ok(result)
}

/// Each of `sp` has a txid that starts with the spender prefix of one of the first
/// `i` of the `I` rows `rv`.
spec fn spender_prefixes_from(sp: Seq<SpendingInput>, rv: Seq<(Seq<u8>, Seq<u8>)>, i: int) -> bool {
    forall|a: int| 0 <= a < sp.len() ==> exists|j: int|
        0 <= j < i && (#[trigger] sp[a]).txid@.subrange(0, 8) == (#[trigger] rv[j]).0.subrange(11, 19)
}

/// Some entry of `result` is spent by `txid`.
pub open spec fn spent_by(result: Seq<SpendingInput>, txid: Seq<u8>) -> bool {
    exists|m: int| 0 <= m < result.len() && (#[trigger] result[m]).txid@ == txid
}

/// `store` resolves `txid` as a spender of `outpoint`.
pub open spec fn resolves_spender<S: ReadStore>(store: &S, outpoint: (FullHash, usize), txid: Seq<u8>) -> bool {
    has_txin_row(store, outpoint.0@, outpoint.1 as u16, txid) && exists|block: Seq<u8>| has_tx_row(store, txid, block)
}

proof fn lemma_spent_by_grow(a: Seq<SpendingInput>, b: Seq<SpendingInput>, txid: Seq<u8>)
    requires
        a.len() <= b.len(),
        forall|m: int| 0 <= m < a.len() ==> b[m] == a[m],
        spent_by(a, txid),
    ensures
        spent_by(b, txid),
{
    let m = choose|m: int| 0 <= m < a.len() && (#[trigger] a[m]).txid@ == txid;
    assert(b[m] == a[m]);
}

/// The transactions spending `txo`: each `I` row's spender prefix resolved to the full
/// txids of the `T` rows that share it. More than one is an error.
pub fn find_spending_input<S: ReadStore>(store: &S, index: &Index, txo: &Txo) -> (r: Result<Option<SpendingInput>, Error>)
    requires
        store.store_wf(),
    ensures
        r matches Ok(Some(s)) ==> is_spending(store, index, (txo.txid, txo.vout), s),
        r matches Ok(Some(s)) ==> forall|txid: Seq<u8>|
            #[trigger] resolves_spender(store, (txo.txid, txo.vout), txid) ==> txid == s.txid@,
        r matches Ok(None) ==> forall|txid: Seq<u8>| !(#[trigger] resolves_spender(store, (txo.txid, txo.vout), txid)),
        r is Err ==> r == Err::<Option<SpendingInput>, Error>(Error::CorruptRow) || r == Err::<
            Option<SpendingInput>,
            Error,
        >(Error::MultipleSpenders),
        well_formed(store) ==> !(r matches Err(Error::CorruptRow)),
        r matches Err(Error::MultipleSpenders) ==> exists|t1: Seq<u8>, t2: Seq<u8>|
            t1 != t2 && #[trigger] resolves_spender(store, (txo.txid, txo.vout), t1) && #[trigger] resolves_spender(
                store,
                (txo.txid, txo.vout),
                t2,
            ),
{
    let ghost outpoint = (txo.txid, txo.vout);
    let ghost vout16 = txo.vout as u16;
    let filter = TxInRow::filter(&txo.txid, txo.vout);
    let rows = store.scan(filter.as_slice());
    let ghost rv = rows_view(rows@);
    let mut spendings: Vec<SpendingInput> = Vec::new();
    let mut i: usize = 0;
    while i < rows.len()
        invariant
            rv == rows_view(rows@),
            filter@ == txin_filter(txo.txid@, vout16),
            vout16 == txo.vout as u16,
            outpoint == (txo.txid, txo.vout),
            is_scan_of(|k: Seq<u8>| store.lookup(k), filter@, rv),
            store.store_wf(),
            0 <= i <= rv.len(),
            forall|m: int| 0 <= m < spendings@.len() ==> is_spending(store, index, outpoint, #[trigger] spendings@[m]),
            forall|j: int, txid: Seq<u8>, block: Seq<u8>|
                0 <= j < i && (#[trigger] rv[j]).0 == #[trigger] txin_key(txo.txid@, vout16, txid) && #[trigger] has_tx_row(store, txid, block)
                    ==> spent_by(spendings@, txid),
            forall|j: int| 0 <= j < i ==> (#[trigger] rv[j]).0.len() == 19,
            spender_prefixes_from(spendings@, rv, i as int),
            forall|a: int, b: int|
                0 <= a < b < spendings@.len() ==> (#[trigger] spendings@[a]).txid@ != (#[trigger] spendings@[b]).txid@,
        decreases rows.len() - i,
    {
        assert(rv[i as int] == rows@[i as int]@);
        let row = &rows[i];
        if row.key.len() != crate::index::TXIN_ROW_LEN {
            proof {
                let k = rv[i as int].0;
                assert(is_prefix(filter@, k));
                assert(k[0] == k.subrange(0, 11)[0]);
                assert((|k: Seq<u8>| store.lookup(k))(k) == Some(rv[i as int].1));
            }
            return Err(Error::CorruptRow);
        }
        let input = TxInRow::from_row(row);
        let ghost k = rv[i as int].0;
        proof {
            assert(is_prefix(filter@, k));
            assert(k.subrange(0, 11) == filter@);
            assert(store.lookup(k) == Some(rv[i as int].1));
        }
        let txrows = get_txrows_by_prefix(store, input.txid_prefix)?;
        let ghost before = spendings@;
        proof {
            assert forall|j: int| 0 <= j < i implies (#[trigger] rv[j]).0.subrange(11, 19) != k.subrange(11, 19) by {
                assert(is_prefix(filter@, rv[j].0));
                crate::lex::lemma_lex_asymmetric(rv[j].0, k);
                if rv[j].0.subrange(11, 19) == k.subrange(11, 19) {
                    assert(rv[j].0 =~= rv[j].0.subrange(0, 11) + rv[j].0.subrange(11, 19));
                    assert(k =~= k.subrange(0, 11) + k.subrange(11, 19));
                }
            }
            assert(input.txid_prefix@ =~= k.subrange(11, 19));
            assert(spender_prefixes_from(before, rv, i as int));
        }
        let mut m: usize = 0;
        while m < txrows.len()
            invariant
                0 <= m <= txrows@.len(),
                before.len() <= spendings@.len(),
                outpoint == (txo.txid, txo.vout),
                vout16 == txo.vout as u16,
                forall|a: int| 0 <= a < before.len() ==> spendings@[a] == before[a],
                forall|a: int| 0 <= a < spendings@.len() ==> is_spending(store, index, outpoint, #[trigger] spendings@[a]),
                forall|a: int| 0 <= a < m ==> spent_by(spendings@, (#[trigger] txrows@[a]).key.txid@),
                forall|a: int| 0 <= a < txrows@.len() ==> has_tx_row(store, (#[trigger] txrows@[a]).key.txid@, txrows@[a].block_hash@)
                    && txrows@[a].key.txid@.subrange(0, 8) == input.txid_prefix@,
                input.encoding() == k,
                k.subrange(0, 11) == filter@,
                filter@ == txin_filter(txo.txid@, vout16),
                store.lookup(k) is Some,
                k == rv[i as int].0,
                k.len() == 19,
                forall|j: int| 0 <= j < i ==> (#[trigger] rv[j]).0.len() == 19,
                spender_prefixes_from(before, rv, i as int),
                forall|a: int| before.len() <= a < spendings@.len() ==> exists|c: int|
                    0 <= c < m && (#[trigger] spendings@[a]).txid@ == (#[trigger] txrows@[c]).key.txid@,
                spendings@.len() - before.len() == m,
                forall|a: int, b: int|
                    0 <= a < b < spendings@.len() ==> (#[trigger] spendings@[a]).txid@ != (#[trigger] spendings@[b]).txid@,
                forall|a: int, b: int|
                    0 <= a < b < txrows@.len() ==> (#[trigger] txrows@[a]).key.txid@ != (#[trigger] txrows@[b]).key.txid@,
                forall|j: int| 0 <= j < i ==> (#[trigger] rv[j]).0.subrange(11, 19) != k.subrange(11, 19),
            decreases txrows.len() - m,
        {
            let tr = &txrows[m];
            let bi = get_block_height(index, &tr.block_hash);
            let s = SpendingInput { txid: tr.key.txid, outpoint: (txo.txid, txo.vout), blockindex: bi };
            let ghost prev = spendings@;
            proof {
                assert(s.txid@.subrange(0, 8) == k.subrange(11, 19));
            }
            proof {
                assert(txin_key(txo.txid@, vout16, s.txid@) =~= k);
                assert(has_tx_row(store, s.txid@, tr.block_hash@) && blockindex_of(index, tr.block_hash@, s.blockindex));
                assert(is_spending(store, index, outpoint, s));
            }
            spendings.push(s);
            proof {
                assert(spendings@[spendings@.len() - 1] == s);
                assert forall|a: int| 0 <= a < spendings@.len() implies is_spending(store, index, outpoint, #[trigger] spendings@[a]) by {
                    if a < prev.len() {
                        assert(spendings@[a] == prev[a]);
                    }
                }
                assert forall|a: int| 0 <= a < m + 1 implies spent_by(spendings@, (#[trigger] txrows@[a]).key.txid@) by {
                    if a < m {
                        lemma_spent_by_grow(prev, spendings@, txrows@[a].key.txid@);
                    } else {
                        assert(spendings@[spendings@.len() - 1].txid@ == txrows@[a].key.txid@);
                    }
                }
                assert forall|a: int| before.len() <= a < spendings@.len() implies exists|c: int|
                    0 <= c < m + 1 && (#[trigger] spendings@[a]).txid@ == (#[trigger] txrows@[c]).key.txid@ by {
                    if a < prev.len() {
                        assert(spendings@[a] == prev[a]);
                        let c = choose|c: int| 0 <= c < m && (#[trigger] prev[a]).txid@ == (#[trigger] txrows@[c]).key.txid@;
                        assert(spendings@[a].txid@ == txrows@[c].key.txid@);
                    } else {
                        assert(spendings@[a].txid@ == txrows@[m as int].key.txid@);
                    }
                }
                assert forall|a: int, b: int|
                    0 <= a < b < spendings@.len() implies (#[trigger] spendings@[a]).txid@ != (#[trigger] spendings@[b]).txid@ by {
                    if b < prev.len() {
                        assert(spendings@[a] == prev[a] && spendings@[b] == prev[b]);
                    } else {
                        assert(spendings@[a] == prev[a]);
                        if a < before.len() {
                            assert(prev[a] == before[a]);
                            let j = choose|j: int|
                                0 <= j < i && (#[trigger] before[a]).txid@.subrange(0, 8) == (#[trigger] rv[j]).0.subrange(11, 19);
                            assert(rv[j].0.subrange(11, 19) != k.subrange(11, 19));
                            assert(spendings@[b].txid@ == s.txid@);
                        } else {
                            let c = choose|c: int| 0 <= c < m && (#[trigger] prev[a]).txid@ == (#[trigger] txrows@[c]).key.txid@;
                            assert(txrows@[c].key.txid@ != txrows@[m as int].key.txid@);
                        }
                    }
                }
            }
            m = m + 1;
        }
        proof {
            assert forall|a: int| 0 <= a < spendings@.len() implies exists|j: int|
                0 <= j < i + 1 && (#[trigger] spendings@[a]).txid@.subrange(0, 8) == (#[trigger] rv[j]).0.subrange(11, 19) by {
                if a < before.len() {
                    let j = choose|j: int|
                        0 <= j < i && (#[trigger] before[a]).txid@.subrange(0, 8) == (#[trigger] rv[j]).0.subrange(11, 19);
                    assert(spendings@[a] == before[a]);
                    assert(spendings@[a].txid@.subrange(0, 8) == rv[j].0.subrange(11, 19));
                } else {
                    let c = choose|c: int| 0 <= c < txrows@.len() && (#[trigger] spendings@[a]).txid@ == (#[trigger] txrows@[c]).key.txid@;
                    assert(spendings@[a].txid@.subrange(0, 8) == rv[i as int].0.subrange(11, 19));
                }
            }
            assert forall|j: int, txid: Seq<u8>, block: Seq<u8>|
                0 <= j < i + 1 && (#[trigger] rv[j]).0 == #[trigger] txin_key(txo.txid@, vout16, txid) && #[trigger] has_tx_row(store, txid, block)
                    implies spent_by(spendings@, txid) by {
                if j < i {
                    lemma_spent_by_grow(before, spendings@, txid);
                } else {
                    let e = txin_key(txo.txid@, vout16, txid);
                    assert(input.txid_prefix@ =~= k.subrange(11, 19));
                    assert(txid.subrange(0, 8) =~= e.subrange(11, 19));
                    let a = choose|a: int| 0 <= a < txrows@.len() && (#[trigger] txrows@[a]).key.txid@ == txid;
                }
            }
        }
        i = i + 1;
    }
    proof {
        assert forall|txid: Seq<u8>| #[trigger] resolves_spender(store, outpoint, txid) implies spent_by(spendings@, txid) by {
            let block = choose|block: Seq<u8>| has_tx_row(store, txid, block);
            let e = txin_key(txo.txid@, vout16, txid);
            assert(e.subrange(0, 11) =~= filter@);
            assert((|k: Seq<u8>| store.lookup(k))(e) is Some);
            let j = choose|j: int| 0 <= j < rv.len() && (#[trigger] rv[j]).0 == e;
            assert(has_tx_row(store, txid, block));
        }
    }
    if spendings.len() > 1 {
        proof {
            let (s0, s1) = (spendings@[0], spendings@[1]);
            assert(s0.txid@ != s1.txid@);
            assert(is_spending(store, index, outpoint, s0) && is_spending(store, index, outpoint, s1));
            assert(resolves_spender(store, (txo.txid, txo.vout), s0.txid@));
            assert(resolves_spender(store, (txo.txid, txo.vout), s1.txid@));
        }
        return Err(Error::MultipleSpenders);
    }
    if spendings.len() == 1 {
        let s = spendings[0];
        proof {
            assert forall|txid: Seq<u8>| #[trigger] resolves_spender(store, outpoint, txid) implies txid == s.txid@ by {
                assert(spent_by(spendings@, txid));
            }
        }
        Ok(Some(s))
    } else {
        proof {
            assert forall|txid: Seq<u8>| !(#[trigger] resolves_spender(store, outpoint, txid)) by {
                if resolves_spender(store, outpoint, txid) {
                    assert(spent_by(spendings@, txid));
                }
            }
        }
        Ok(None)
    }
}

/// `v` is strictly increasing in byte order.
pub open spec fn strictly_sorted(v: Seq<FullHash>) -> bool {
    forall|i: int, j: int| 0 <= i < j < v.len() ==> crate::lex::lex_lt((#[trigger] v[i])@, (#[trigger] v[j])@)
}

/// Where `h` is or would go in the sorted `v`.
fn sorted_position(v: &Vec<FullHash>, h: &FullHash) -> (r: (bool, usize))
    ensures
        r.1 <= v@.len(),
        r.0 ==> r.1 < v@.len() && v@[r.1 as int]@ == h@,
        !r.0 ==> forall|j: int| 0 <= j < r.1 ==> crate::lex::lex_lt((#[trigger] v@[j])@, h@),
        !r.0 && r.1 < v@.len() ==> crate::lex::lex_lt(h@, v@[r.1 as int]@),
{
    let mut i: usize = 0;
    while i < v.len()
        invariant
            0 <= i <= v@.len(),
            forall|j: int| 0 <= j < i ==> crate::lex::lex_lt((#[trigger] v@[j])@, h@),
        decreases v.len() - i,
    {
        let c = crate::lex::compare_bytes(&v[i], h);
        if c == 0 {
            return (true, i);
        }
        if c > 0 {
            return (false, i);
        }
        i = i + 1;
    }
    (false, i)
}

/// Inserts `h` into the sorted `v` unless it is there.
fn insert_sorted(v: &mut Vec<FullHash>, h: FullHash)
    requires
        strictly_sorted(old(v)@),
    ensures
        strictly_sorted(final(v)@),
        forall|t: Seq<u8>| #[trigger] crate::mempool::in_hashes(final(v)@, t) <==> crate::mempool::in_hashes(old(v)@, t) || t == h@,
{
    let ghost pre = v@;
    let (present, i) = sorted_position(v, &h);
    if present {
        proof {
            assert forall|t: Seq<u8>| #[trigger] crate::mempool::in_hashes(v@, t) <==> crate::mempool::in_hashes(pre, t) || t == h@ by {
                if t == h@ {
                    assert(v@[i as int]@ == t);
                }
            }
        }
        return;
    }
    v.insert(i, h);
    proof {
        assert forall|a: int, b: int| 0 <= a < b < v@.len() implies crate::lex::lex_lt((#[trigger] v@[a])@, (#[trigger] v@[b])@) by {
            if b < i {
                assert(v@[a] == pre[a] && v@[b] == pre[b]);
            } else if b == i {
                assert(v@[a] == pre[a]);
            } else if a < i {
                assert(v@[a] == pre[a] && v@[b] == pre[b - 1]);
                if b - 1 > i {
                    crate::lex::lemma_lex_transitive(h@, pre[i as int]@, pre[b - 1]@);
                }
                crate::lex::lemma_lex_transitive(pre[a]@, h@, pre[b - 1]@);
            } else if a == i {
                assert(v@[b] == pre[b - 1]);
                if b - 1 > i {
                    crate::lex::lemma_lex_transitive(h@, pre[i as int]@, pre[b - 1]@);
                }
            } else {
                assert(v@[a] == pre[a - 1] && v@[b] == pre[b - 1]);
            }
        }
        assert forall|t: Seq<u8>| #[trigger] crate::mempool::in_hashes(v@, t) <==> crate::mempool::in_hashes(pre, t) || t == h@ by {
            if crate::mempool::in_hashes(pre, t) {
                let j = choose|j: int| 0 <= j < pre.len() && (#[trigger] pre[j])@ == t;
                if j < i {
                    assert(v@[j] == pre[j]);
                } else {
                    assert(v@[j + 1] == pre[j]);
                }
            }
            if t == h@ {
                assert(v@[i as int] == h);
            }
            if crate::mempool::in_hashes(v@, t) && t != h@ {
                let j = choose|j: int| 0 <= j < v@.len() && (#[trigger] v@[j])@ == t;
                if j < i {
                    assert(v@[j] == pre[j]);
                } else if j > i {
                    assert(v@[j] == pre[j - 1]);
                }
            }
        }
    }
}

/// Status of an address: funding outputs and spending inputs, confirmed and in the
/// mempool.
pub struct Status {
    confirmed: (Vec<Txo>, Vec<SpendingInput>),
    mempool: (Vec<Txo>, Vec<SpendingInput>),
}

/// The transaction ids and block heights of a status, funding before spending.
pub open spec fn status_entries(funding: Seq<Txo>, spending: Seq<SpendingInput>) -> Seq<(FullHash, usize)> {
    funding.map_values(|f: Txo| (f.txid, f.blockindex)) + spending.map_values(|s: SpendingInput| (s.txid, s.blockindex))
}

/// Entry `k` of `es` is the oldest: the first with the smallest non-zero height, or the
/// first entry when every height is 0 (unknown or unconfirmed).
pub open spec fn is_oldest(es: Seq<(FullHash, usize)>, k: int) -> bool {
    &&& 0 <= k < es.len()
    &&& if exists|j: int| 0 <= j < es.len() && (#[trigger] es[j]).1 > 0 {
        &&& es[k].1 > 0
        &&& forall|j: int| 0 <= j < es.len() && (#[trigger] es[j]).1 > 0 ==> es[k].1 <= es[j].1
        &&& forall|j: int| 0 <= j < k ==> (#[trigger] es[j]).1 != es[k].1
    } else {
        k == 0
    }
}

impl Status {
    pub fn new(confirmed: (Vec<Txo>, Vec<SpendingInput>), mempool: (Vec<Txo>, Vec<SpendingInput>)) -> (r: Status)
        ensures
            r.confirmed_funding() == confirmed.0@,
            r.confirmed_spending() == confirmed.1@,
            r.mempool_funding() == mempool.0@,
            r.mempool_spending() == mempool.1@,
    {
        Status { confirmed, mempool }
    }

    pub closed spec fn confirmed_funding(&self) -> Seq<Txo> {
        self.confirmed.0@
    }

    pub closed spec fn confirmed_spending(&self) -> Seq<SpendingInput> {
        self.confirmed.1@
    }

    pub closed spec fn mempool_funding(&self) -> Seq<Txo> {
        self.mempool.0@
    }

    pub closed spec fn mempool_spending(&self) -> Seq<SpendingInput> {
        self.mempool.1@
    }

    pub open spec fn funding_spec(&self) -> Seq<Txo> {
        self.confirmed_funding() + self.mempool_funding()
    }

    pub open spec fn spending_spec(&self) -> Seq<SpendingInput> {
        self.confirmed_spending() + self.mempool_spending()
    }

    /// Funding outputs, confirmed then mempool.
    pub fn funding(&self) -> (r: Vec<Txo>)
        ensures
            r@ == self.funding_spec(),
    {
        let mut r: Vec<Txo> = Vec::new();
        let mut i: usize = 0;
        while i < self.confirmed.0.len()
            invariant
                0 <= i <= self.confirmed.0@.len(),
                r@ == self.confirmed.0@.subrange(0, i as int),
            decreases self.confirmed.0.len() - i,
        {
            r.push(self.confirmed.0[i]);
            i = i + 1;
            assert(r@ =~= self.confirmed.0@.subrange(0, i as int));
        }
        let mut j: usize = 0;
        while j < self.mempool.0.len()
            invariant
                0 <= j <= self.mempool.0@.len(),
                r@ == self.confirmed.0@ + self.mempool.0@.subrange(0, j as int),
            decreases self.mempool.0.len() - j,
        {
            r.push(self.mempool.0[j]);
            j = j + 1;
            assert(r@ =~= self.confirmed.0@ + self.mempool.0@.subrange(0, j as int));
        }
        assert(r@ =~= self.funding_spec());
        r
    }

    /// Spending inputs, confirmed then mempool.
    pub fn spending(&self) -> (r: Vec<SpendingInput>)
        ensures
            r@ == self.spending_spec(),
    {
        let mut r: Vec<SpendingInput> = Vec::new();
        let mut i: usize = 0;
        while i < self.confirmed.1.len()
            invariant
                0 <= i <= self.confirmed.1@.len(),
                r@ == self.confirmed.1@.subrange(0, i as int),
            decreases self.confirmed.1.len() - i,
        {
            r.push(self.confirmed.1[i]);
            i = i + 1;
            assert(r@ =~= self.confirmed.1@.subrange(0, i as int));
        }
        let mut j: usize = 0;
        while j < self.mempool.1.len()
            invariant
                0 <= j <= self.mempool.1@.len(),
                r@ == self.confirmed.1@ + self.mempool.1@.subrange(0, j as int),
            decreases self.mempool.1.len() - j,
        {
            r.push(self.mempool.1[j]);
            j = j + 1;
            assert(r@ =~= self.confirmed.1@ + self.mempool.1@.subrange(0, j as int));
        }
        assert(r@ =~= self.spending_spec());
        r
    }

    /// The txids of all funding and spending transactions, strictly increasing, so
    /// each once.
    pub fn history(&self) -> (r: Vec<FullHash>)
        ensures
            strictly_sorted(r@),
            forall|t: Seq<u8>| #[trigger] crate::mempool::in_hashes(r@, t) <==> (exists|i: int|
                0 <= i < self.funding_spec().len() && (#[trigger] self.funding_spec()[i]).txid@ == t) || (exists|i: int|
                0 <= i < self.spending_spec().len() && (#[trigger] self.spending_spec()[i]).txid@ == t),
    {
        let funding = self.funding();
        let spending = self.spending();
        let mut txns: Vec<FullHash> = Vec::new();
        let mut i: usize = 0;
        while i < funding.len()
            invariant
                funding@ == self.funding_spec(),
                0 <= i <= funding@.len(),
                strictly_sorted(txns@),
                forall|t: Seq<u8>| #[trigger] crate::mempool::in_hashes(txns@, t) <==> exists|k: int|
                    0 <= k < i && (#[trigger] funding@[k]).txid@ == t,
            decreases funding.len() - i,
        {
            insert_sorted(&mut txns, funding[i].txid);
            proof {
                assert forall|t: Seq<u8>| #[trigger] crate::mempool::in_hashes(txns@, t) <==> exists|k: int|
                    0 <= k < i + 1 && (#[trigger] funding@[k]).txid@ == t by {
                    if exists|k: int| 0 <= k < i + 1 && (#[trigger] funding@[k]).txid@ == t {
                        let k = choose|k: int| 0 <= k < i + 1 && (#[trigger] funding@[k]).txid@ == t;
                        if k < i {
                            assert(exists|k2: int| 0 <= k2 < i && (#[trigger] funding@[k2]).txid@ == t);
                        }
                    }
                }
            }
            i = i + 1;
        }
        let mut j: usize = 0;
        while j < spending.len()
            invariant
                funding@ == self.funding_spec(),
                spending@ == self.spending_spec(),
                0 <= j <= spending@.len(),
                strictly_sorted(txns@),
                forall|t: Seq<u8>| #[trigger] crate::mempool::in_hashes(txns@, t) <==> (exists|k: int|
                    0 <= k < funding@.len() && (#[trigger] funding@[k]).txid@ == t) || (exists|k: int|
                    0 <= k < j && (#[trigger] spending@[k]).txid@ == t),
            decreases spending.len() - j,
        {
            insert_sorted(&mut txns, spending[j].txid);
            proof {
                assert forall|t: Seq<u8>| #[trigger] crate::mempool::in_hashes(txns@, t) <==> (exists|k: int|
                    0 <= k < funding@.len() && (#[trigger] funding@[k]).txid@ == t) || (exists|k: int|
                    0 <= k < j + 1 && (#[trigger] spending@[k]).txid@ == t) by {
                    if exists|k: int| 0 <= k < j + 1 && (#[trigger] spending@[k]).txid@ == t {
                        let k = choose|k: int| 0 <= k < j + 1 && (#[trigger] spending@[k]).txid@ == t;
                        if k < j {
                            assert(exists|k2: int| 0 <= k2 < j && (#[trigger] spending@[k2]).txid@ == t);
                        }
                    }
                }
            }
            j = j + 1;
        }
        txns
    }

    /// Txids and block heights of all entries, funding then spending.
    pub fn entries(&self) -> (r: Vec<(FullHash, usize)>)
        ensures
            r@ == status_entries(self.funding_spec(), self.spending_spec()),
    {
        let funding = self.funding();
        let spending = self.spending();
        let ghost es = status_entries(self.funding_spec(), self.spending_spec());
        let mut r: Vec<(FullHash, usize)> = Vec::new();
        let mut i: usize = 0;
        while i < funding.len()
            invariant
                funding@ == self.funding_spec(),
                0 <= i <= funding@.len(),
                r@ == funding@.subrange(0, i as int).map_values(|f: Txo| (f.txid, f.blockindex)),
            decreases funding.len() - i,
        {
            r.push((funding[i].txid, funding[i].blockindex));
            i = i + 1;
            assert(r@ =~= funding@.subrange(0, i as int).map_values(|f: Txo| (f.txid, f.blockindex)));
        }
        assert(funding@.subrange(0, i as int) =~= funding@);
        let mut j: usize = 0;
        while j < spending.len()
            invariant
                funding@ == self.funding_spec(),
                spending@ == self.spending_spec(),
                0 <= j <= spending@.len(),
                r@ == funding@.map_values(|f: Txo| (f.txid, f.blockindex)) + spending@.subrange(0, j as int).map_values(
                    |s: SpendingInput| (s.txid, s.blockindex),
                ),
            decreases spending.len() - j,
        {
            r.push((spending[j].txid, spending[j].blockindex));
            j = j + 1;
            assert(r@ =~= funding@.map_values(|f: Txo| (f.txid, f.blockindex)) + spending@.subrange(0, j as int).map_values(
                |s: SpendingInput| (s.txid, s.blockindex),
            ));
        }
        assert(spending@.subrange(0, j as int) =~= spending@);
        r
    }

    /// The oldest transaction: the first with the smallest non-zero block height,
    /// funding before spending; when no height is known, the first transaction.
    pub fn oldest(&self) -> (r: Option<TxBlockIndex>)
        ensures
            r is None <==> status_entries(self.funding_spec(), self.spending_spec()).len() == 0,
            r matches Some(t) ==> exists|k: int|
                is_oldest(status_entries(self.funding_spec(), self.spending_spec()), k) && (#[trigger] status_entries(
                    self.funding_spec(),
                    self.spending_spec(),
                )[k]) == (t.txid, t.blockindex),
    {
        let entries = self.entries();
        let ghost es = entries@;
        let n = entries.len();
        let mut found = false;
        let mut best: usize = 0;
        let mut min_tx = TxBlockIndex { txid: [0u8; 32], blockindex: 0 };
        let mut i: usize = 0;
        while i < n
            invariant
                es == entries@,
                es.len() == n,
                0 <= i <= n,
                found <==> i > 0,
                found ==> best < i && es[best as int] == (min_tx.txid, min_tx.blockindex),
                found ==> is_oldest(es.subrange(0, i as int), best as int),
            decreases n - i,
        {
            let (txid, bi) = entries[i];
            assert(es[i as int] == (txid, bi));
            let ghost pre_found = found;
            let ghost pre_best = best;
            if !found || (bi > 0 && (min_tx.blockindex == 0 || bi < min_tx.blockindex)) {
                min_tx = TxBlockIndex { txid, blockindex: bi };
                best = i;
                found = true;
            }
            proof {
                let s = es.subrange(0, i + 1);
                let p = es.subrange(0, i as int);
                assert(s[i as int] == es[i as int]);
                assert forall|j: int| 0 <= j < i implies #[trigger] s[j] == p[j] by {}
                if !pre_found {
                    assert(i == 0);
                } else if best == i {
                    assert(s[best as int].1 > 0);
                    assert forall|j: int| 0 <= j < s.len() && (#[trigger] s[j]).1 > 0 implies s[best as int].1 <= s[j].1 by {
                        if j < i {
                            assert(p[j] == s[j]);
                            if exists|j2: int| 0 <= j2 < p.len() && (#[trigger] p[j2]).1 > 0 {
                            } else {
                                assert(p[j].1 > 0);
                            }
                        }
                    }
                    assert forall|j: int| 0 <= j < best implies (#[trigger] s[j]).1 != s[best as int].1 by {
                        assert(p[j] == s[j]);
                        if p[j].1 > 0 {
                            assert(exists|j2: int| 0 <= j2 < p.len() && (#[trigger] p[j2]).1 > 0);
                        }
                    }
                } else {
                    assert(s[best as int] == p[best as int]);
                    if exists|j2: int| 0 <= j2 < p.len() && (#[trigger] p[j2]).1 > 0 {
                        assert forall|j: int| 0 <= j < s.len() && (#[trigger] s[j]).1 > 0 implies s[best as int].1 <= s[j].1 by {
                            if j < i {
                                assert(p[j] == s[j]);
                            }
                        }
                        assert forall|j: int| 0 <= j < best implies (#[trigger] s[j]).1 != s[best as int].1 by {
                            assert(p[j] == s[j]);
                        }
                    } else {
                        assert(best == 0);
                        if exists|j2: int| 0 <= j2 < s.len() && (#[trigger] s[j2]).1 > 0 {
                            let j2 = choose|j2: int| 0 <= j2 < s.len() && (#[trigger] s[j2]).1 > 0;
                            if j2 < i {
                                assert(p[j2] == s[j2]);
                            }
                        }
                    }
                }
            }
            i = i + 1;
        }
        assert(es.subrange(0, n as int) =~= es);
        if found {
            Some(min_tx)
        } else {
            None
        }
    }
}

pub open spec fn outpoint_of(t: Txo) -> (FullHash, usize) {
    (t.txid, t.vout)
}

/// Every spender that `store` resolves for an output among `txos` is in `sp`.
pub open spec fn spends_all<S: ReadStore>(store: &S, txos: Seq<Txo>, sp: Seq<SpendingInput>) -> bool {
    forall|i: int, txid: Seq<u8>|
        0 <= i < txos.len() && #[trigger] resolves_spender(store, outpoint_of(txos[i]), txid) ==> exists|k: int|
            0 <= k < sp.len() && (#[trigger] sp[k]).outpoint == outpoint_of(txos[i]) && sp[k].txid@ == txid
}

/// Each of `sp` spends one of `txos` and is resolved by `store`.
pub open spec fn spends_some<S: ReadStore>(store: &S, index: &Index, txos: Seq<Txo>, sp: Seq<SpendingInput>) -> bool {
    forall|k: int|
        0 <= k < sp.len() ==> is_spending(store, index, (#[trigger] sp[k]).outpoint, sp[k]) && exists|i: int|
            0 <= i < txos.len() && sp[k].outpoint == outpoint_of(#[trigger] txos[i])
}

/// `sp` holds at most one input per output of `txos`, in the order of `txos`.
pub open spec fn in_order(txos: Seq<Txo>, sp: Seq<SpendingInput>) -> bool {
    exists|idx: Seq<int>| {
        &&& idx.len() == sp.len()
        &&& forall|k: int| 0 <= k < sp.len() ==> 0 <= #[trigger] idx[k] < txos.len() && sp[k].outpoint == outpoint_of(txos[idx[k]])
        &&& forall|a: int, b: int| 0 <= a < b < idx.len() ==> #[trigger] idx[a] < #[trigger] idx[b]
    }
}

/// The spending inputs of `txos`, in their order.
pub fn find_spendings<S: ReadStore>(store: &S, index: &Index, txos: &Vec<Txo>) -> (r: Result<Vec<SpendingInput>, Error>)
    requires
        store.store_wf(),
    ensures
        r matches Ok(sp) ==> spends_some(store, index, txos@, sp@),
        r matches Ok(sp) ==> spends_all(store, txos@, sp@),
        r is Err ==> r == Err::<Vec<SpendingInput>, Error>(Error::CorruptRow) || r == Err::<
            Vec<SpendingInput>,
            Error,
        >(Error::MultipleSpenders),
        well_formed(store) ==> !(r matches Err(Error::CorruptRow)),
        r matches Err(Error::MultipleSpenders) ==> double_spent(store, txos@),
        r matches Ok(sp) ==> in_order(txos@, sp@),
{
    let mut sp: Vec<SpendingInput> = Vec::new();
    let ghost idx: Seq<int> = Seq::empty();
    let mut i: usize = 0;
    while i < txos.len()
        invariant
            store.store_wf(),
            0 <= i <= txos@.len(),
            spends_some(store, index, txos@, sp@),
            forall|j: int, txid: Seq<u8>|
                0 <= j < i && #[trigger] resolves_spender(store, outpoint_of(txos@[j]), txid) ==> exists|k: int|
                    0 <= k < sp@.len() && (#[trigger] sp@[k]).outpoint == outpoint_of(txos@[j]) && sp@[k].txid@ == txid,
            idx.len() == sp@.len(),
            forall|k: int| 0 <= k < sp@.len() ==> 0 <= #[trigger] idx[k] < i && sp@[k].outpoint == outpoint_of(txos@[idx[k]]),
            forall|a: int, b: int| 0 <= a < b < idx.len() ==> #[trigger] idx[a] < #[trigger] idx[b],
        decreases txos.len() - i,
    {
        let ghost prev = sp@;
        let ghost prev_idx = idx;
        match find_spending_input(store, index, &txos[i]) {
            Ok(Some(s)) => {
                sp.push(s);
                proof {
                    idx = idx.push(i as int);
                    assert forall|k: int| 0 <= k < sp@.len() implies 0 <= #[trigger] idx[k] < i + 1 && sp@[k].outpoint
                        == outpoint_of(txos@[idx[k]]) by {
                        if k < prev.len() {
                            assert(sp@[k] == prev[k] && idx[k] == prev_idx[k]);
                        }
                    }
                    assert forall|a: int, b: int| 0 <= a < b < idx.len() implies #[trigger] idx[a] < #[trigger] idx[b] by {
                        if b < prev_idx.len() {
                            assert(idx[a] == prev_idx[a] && idx[b] == prev_idx[b]);
                        } else {
                            assert(idx[a] == prev_idx[a]);
                        }
                    }
                    assert(sp@[sp@.len() - 1] == s);
                    assert forall|k: int| 0 <= k < sp@.len() implies is_spending(store, index, (#[trigger] sp@[k]).outpoint, sp@[k])
                        && exists|i2: int| 0 <= i2 < txos@.len() && sp@[k].outpoint == outpoint_of(#[trigger] txos@[i2]) by {
                        if k < prev.len() {
                            assert(sp@[k] == prev[k]);
                        } else {
                            assert(s.outpoint == outpoint_of(txos@[i as int]));
                        }
                    }
                    assert forall|j: int, txid: Seq<u8>|
                        0 <= j < i + 1 && #[trigger] resolves_spender(store, outpoint_of(txos@[j]), txid) implies exists|k: int|
                            0 <= k < sp@.len() && (#[trigger] sp@[k]).outpoint == outpoint_of(txos@[j]) && sp@[k].txid@ == txid by {
                        if j < i {
                            let k = choose|k: int|
                                0 <= k < prev.len() && (#[trigger] prev[k]).outpoint == outpoint_of(txos@[j]) && prev[k].txid@ == txid;
                            assert(sp@[k] == prev[k]);
                        } else {
                            assert(sp@[sp@.len() - 1] == s);
                        }
                    }
                }
            },
            Ok(None) => {},
            Err(e) => {
                proof {
                    if e == Error::MultipleSpenders {
                        let (t1, t2) = choose|t1: Seq<u8>, t2: Seq<u8>|
                            t1 != t2 && #[trigger] resolves_spender(store, (txos@[i as int].txid, txos@[i as int].vout), t1)
                                && #[trigger] resolves_spender(store, (txos@[i as int].txid, txos@[i as int].vout), t2);
                        assert(outpoint_of(txos@[i as int]) == (txos@[i as int].txid, txos@[i as int].vout));
                        assert(resolves_spender(store, outpoint_of(txos@[i as int]), t1));
                        assert(resolves_spender(store, outpoint_of(txos@[i as int]), t2));
                    }
                }
                return Err(e);
            },
        }
        i = i + 1;
    }
    assert(in_order(txos@, sp@)) by {
        assert forall|k: int| 0 <= k < sp@.len() implies 0 <= #[trigger] idx[k] < txos@.len() && sp@[k].outpoint
            == outpoint_of(txos@[idx[k]]) by {}
    }
    Ok(sp)
}

/// Two distinct transactions that `store` resolves spend the same output among `txos`.
pub open spec fn double_spent<S: ReadStore>(store: &S, txos: Seq<Txo>) -> bool {
    exists|i: int, t1: Seq<u8>, t2: Seq<u8>|
        0 <= i < txos.len() && t1 != t2 && #[trigger] resolves_spender(store, outpoint_of(txos[i]), t1)
            && #[trigger] resolves_spender(store, outpoint_of(txos[i]), t2)
}

/// At most `limit` results, where a `limit` of 0 means no limit.
pub open spec fn within_limit(limit: usize, n: int) -> bool {
    limit == 0 || n <= limit
}

/// `funding` and `spending` are what `store` holds for `script_hash`: every output
/// paying to it, and every input spending one of `spent`.
pub open spec fn is_status_part<S: ReadStore>(
    store: &S,
    index: &Index,
    script_hash: Seq<u8>,
    limit: usize,
    funding: Seq<Txo>,
    spent: Seq<Txo>,
    spending: Seq<SpendingInput>,
) -> bool {
    &&& forall|i: int| 0 <= i < funding.len() ==> is_funding(store, index, script_hash, #[trigger] funding[i])
    &&& funds_all(store, script_hash, funding)
    &&& distinct_outputs(funding)
    &&& within_limit(limit, funding.len() as int)
    &&& spends_some(store, index, spent, spending)
    &&& spends_all(store, spent, spending)
    &&& in_order(spent, spending)
}

/// `st` is the status of `script_hash`: its confirmed part from `store`, its
/// unconfirmed part from `mempool`, spends of confirmed outputs included.
pub open spec fn is_status_of<S: ReadStore>(
    store: &S,
    mempool: &crate::mempool::MempoolStore,
    index: &Index,
    script_hash: Seq<u8>,
    limit: usize,
    st: Status,
) -> bool {
    &&& is_status_part(store, index, script_hash, limit, st.confirmed_funding(), st.confirmed_funding(), st.confirmed_spending())
    &&& is_status_part(
        mempool,
        index,
        script_hash,
        limit,
        st.mempool_funding(),
        st.mempool_funding() + st.confirmed_funding(),
        st.mempool_spending(),
    )
}

/// More than `limit` outputs pay to `script_hash` in `store`, `count` of them.
pub open spec fn too_many<S: ReadStore>(store: &S, index: &Index, script_hash: Seq<u8>, limit: usize, count: usize) -> bool {
    &&& limit > 0
    &&& count > limit
    &&& exists|f: Seq<Txo>| is_funding_set(store, index, script_hash, f) && f.len() == count
}

/// The outputs paying to `script_hash` in `store` are within `limit`.
pub open spec fn fits_limit<S: ReadStore>(store: &S, index: &Index, script_hash: Seq<u8>, limit: usize) -> bool {
    forall|f: Seq<Txo>| #[trigger] is_funding_set(store, index, script_hash, f) ==> within_limit(limit, f.len() as int)
}

/// One of the outputs paying to `script_hash` in `store` has two resolved spenders.
pub open spec fn double_spends_address<S: ReadStore>(store: &S, index: &Index, script_hash: Seq<u8>) -> bool {
    exists|f: Seq<Txo>| is_funding_set(store, index, script_hash, f) && double_spent(store, f)
}

/// A funding set within the limit shows that every funding set is.
proof fn lemma_fits<S: ReadStore>(store: &S, index: &Index, script_hash: Seq<u8>, limit: usize, f: Seq<Txo>)
    requires
        is_funding_set(store, index, script_hash, f),
        within_limit(limit, f.len() as int),
    ensures
        fits_limit(store, index, script_hash, limit),
{
    assert forall|g: Seq<Txo>| #[trigger] is_funding_set(store, index, script_hash, g) implies within_limit(limit, g.len() as int) by {
        lemma_funding_set_size(store, index, script_hash, f, g);
    }
}

/// Query tool for the indexer: the mempool tracker and the limit on funding outputs.
pub struct Query {
    tracker: Tracker,
    txid_limit: usize,
}

impl Query {
    pub open spec fn wf(&self) -> bool {
        self.tracker().wf()
    }

    pub closed spec fn tracker(&self) -> Tracker {
        self.tracker
    }

    pub closed spec fn txid_limit_spec(&self) -> usize {
        self.txid_limit
    }

    pub open spec fn mempool(&self) -> crate::mempool::MempoolStore {
        self.tracker().index_spec()
    }

    pub fn new(txid_limit: usize) -> (r: Query)
        ensures
            r.wf(),
            r.txid_limit_spec() == txid_limit,
            forall|t: Seq<u8>| !(#[trigger] r.tracker().tracks(t)),
    {
        Query { tracker: Tracker::new(), txid_limit }
    }

    pub fn txid_limit(&self) -> (r: usize)
        ensures
            r == self.txid_limit_spec(),
    {
        self.txid_limit
    }

    pub fn tracker_ref(&self) -> (r: &Tracker)
        ensures
            *r == self.tracker(),
    {
        &self.tracker
    }

    fn funding_within_limit<S: ReadStore>(&self, store: &S, index: &Index, script_hash: &FullHash) -> (r: Result<Vec<Txo>, Error>)
        requires
            store.store_wf(),
        ensures
            r matches Ok(txos) ==> (forall|i: int| 0 <= i < txos@.len() ==> is_funding(store, index, script_hash@, #[trigger] txos@[i]))
                && funds_all(store, script_hash@, txos@) && distinct_outputs(txos@) && within_limit(self.txid_limit_spec(), txos@.len() as int),
            r matches Err(Error::TooManyResults { count }) ==> too_many(store, index, script_hash@, self.txid_limit_spec(), count),
            well_formed(store) && fits_limit(store, index, script_hash@, self.txid_limit_spec()) ==> r is Ok,
            r is Err ==> r == Err::<Vec<Txo>, Error>(Error::CorruptRow) || r->Err_0 is TooManyResults,
            well_formed(store) ==> !(r matches Err(Error::CorruptRow)),
    {
        let txos = find_funding_outputs(store, index, script_hash)?;
        if self.txid_limit > 0 && txos.len() > self.txid_limit {
            assert(is_funding_set(store, index, script_hash@, txos@));
            return Err(Error::TooManyResults { count: txos.len() });
        }
        Ok(txos)
    }

    /// Funding outputs and spending inputs of `script_hash` in the confirmed index.
    pub fn confirmed_status<S: ReadStore>(&self, store: &S, index: &Index, script_hash: &FullHash) -> (r: Result<(Vec<Txo>, Vec<SpendingInput>), Error>)
        requires
            store.store_wf(),
        ensures
            r matches Ok((f, sp)) ==> is_status_part(store, index, script_hash@, self.txid_limit_spec(), f@, f@, sp@),
            r matches Err(Error::TooManyResults { count }) ==> too_many(store, index, script_hash@, self.txid_limit_spec(), count),
            well_formed(store) && fits_limit(store, index, script_hash@, self.txid_limit_spec()) && !(exists|f: Seq<Txo>| double_spent(store, f)) ==> r is Ok,
            r is Err ==> r->Err_0 is CorruptRow || r->Err_0 is MultipleSpenders || r->Err_0 is TooManyResults,
            well_formed(store) ==> !(r matches Err(Error::CorruptRow)),
            r matches Err(Error::MultipleSpenders) ==> fits_limit(store, index, script_hash@, self.txid_limit_spec())
                && double_spends_address(store, index, script_hash@),
    {
        let funding = self.funding_within_limit(store, index, script_hash)?;
        proof {
            lemma_fits(store, index, script_hash@, self.txid_limit_spec(), funding@);
        }
        let spending = match find_spendings(store, index, &funding) {
            Ok(sp) => sp,
            Err(e) => {
                proof {
                    if e == Error::MultipleSpenders {
                        assert(is_funding_set(store, index, script_hash@, funding@) && double_spent(store, funding@));
                    }
                }
                return Err(e);
            },
        };
        Ok((funding, spending))
    }

    /// Funding outputs of `script_hash` in the mempool, and mempool inputs spending them
    /// or spending `confirmed_funding`.
    pub fn mempool_status(&self, index: &Index, script_hash: &FullHash, confirmed_funding: &Vec<Txo>) -> (r: Result<(Vec<Txo>, Vec<SpendingInput>), Error>)
        requires
            self.wf(),
        ensures
            r matches Ok((f, sp)) ==> is_status_part(&self.mempool(), index, script_hash@, self.txid_limit_spec(), f@, f@ + confirmed_funding@, sp@),
            r matches Err(Error::TooManyResults { count }) ==> too_many(&self.mempool(), index, script_hash@, self.txid_limit_spec(), count),
            fits_limit(&self.mempool(), index, script_hash@, self.txid_limit_spec()) && !(exists|f: Seq<Txo>| double_spent(&self.mempool(), f)) ==> r is Ok,
            r is Err ==> r->Err_0 is CorruptRow || r->Err_0 is MultipleSpenders || r->Err_0 is TooManyResults,
            !(r matches Err(Error::CorruptRow)),
            r matches Err(Error::MultipleSpenders) ==> exists|f: Seq<Txo>| double_spent(&self.mempool(), f),
            r matches Err(Error::MultipleSpenders) ==> fits_limit(&self.mempool(), index, script_hash@, self.txid_limit_spec()),
    {
        let store = self.tracker.index();
        proof {
            self.tracker.lemma_index_well_formed();
        }
        let funding = self.funding_within_limit(store, index, script_hash)?;
        proof {
            lemma_fits(store, index, script_hash@, self.txid_limit_spec(), funding@);
        }
        let mut spent: Vec<Txo> = Vec::new();
        let mut i: usize = 0;
        while i < funding.len()
            invariant
                0 <= i <= funding@.len(),
                spent@ == funding@.subrange(0, i as int),
            decreases funding.len() - i,
        {
            spent.push(funding[i]);
            i = i + 1;
            assert(spent@ =~= funding@.subrange(0, i as int));
        }
        let mut j: usize = 0;
        while j < confirmed_funding.len()
            invariant
                0 <= j <= confirmed_funding@.len(),
                spent@ == funding@ + confirmed_funding@.subrange(0, j as int),
            decreases confirmed_funding.len() - j,
        {
            spent.push(confirmed_funding[j]);
            j = j + 1;
            assert(spent@ =~= funding@ + confirmed_funding@.subrange(0, j as int));
        }
        assert(spent@ =~= funding@ + confirmed_funding@);
        let spending = match find_spendings(store, index, &spent) {
            Ok(sp) => sp,
            Err(e) => {
                proof {
                    if e == Error::MultipleSpenders {
                        assert(*store == self.mempool());
                        assert(double_spent(&self.mempool(), spent@));
                    }
                }
                return Err(e);
            },
        };
        Ok((funding, spending))
    }

    /// Status of `script_hash`: confirmed from `store`, unconfirmed from the mempool.
    pub fn status<S: ReadStore>(&self, store: &S, index: &Index, script_hash: &FullHash) -> (r: Result<Status, Error>)
        requires
            self.wf(),
            store.store_wf(),
        ensures
            r matches Ok(st) ==> is_status_of(store, &self.mempool(), index, script_hash@, self.txid_limit_spec(), st),
            r matches Err(Error::TooManyResults { count }) ==> too_many(store, index, script_hash@, self.txid_limit_spec(), count) || (fits_limit(store, index, script_hash@, self.txid_limit_spec()) && too_many(&self.mempool(), index, script_hash@, self.txid_limit_spec(), count)),
            well_formed(store) && fits_limit(store, index, script_hash@, self.txid_limit_spec()) && !(exists|f: Seq<Txo>| double_spent(store, f)) && fits_limit(&self.mempool(), index, script_hash@, self.txid_limit_spec()) && !(exists|f: Seq<Txo>| double_spent(&self.mempool(), f)) ==> r is Ok,
            r is Err ==> r->Err_0 is CorruptRow || r->Err_0 is MultipleSpenders || r->Err_0 is TooManyResults,
            well_formed(store) ==> !(r matches Err(Error::CorruptRow)),
            r matches Err(Error::MultipleSpenders) ==> fits_limit(store, index, script_hash@, self.txid_limit_spec()) && (
            double_spends_address(store, index, script_hash@) || (fits_limit(&self.mempool(), index, script_hash@, self.txid_limit_spec())
                && exists|f: Seq<Txo>| double_spent(&self.mempool(), f))),
    {
        let confirmed = self.confirmed_status(store, index, script_hash)?;
        proof {
            assert(is_funding_set(store, index, script_hash@, confirmed.0@));
            lemma_fits(store, index, script_hash@, self.txid_limit_spec(), confirmed.0@);
        }
        let mempool = self.mempool_status(index, script_hash, &confirmed.0)?;
        Ok(Status::new(confirmed, mempool))
    }

    /// The oldest transaction of `script_hash`; an address without any is an error.
    pub fn oldest_tx<S: ReadStore>(&self, store: &S, index: &Index, script_hash: &FullHash) -> (r: Result<TxBlockIndex, Error>)
        requires
            self.wf(),
            store.store_wf(),
        ensures
            r matches Ok(t) ==> exists|st: Status|
                is_status_of(store, &self.mempool(), index, script_hash@, self.txid_limit_spec(), st) && exists|k: int|
                    is_oldest(status_entries(st.funding_spec(), st.spending_spec()), k) && (#[trigger] status_entries(
                        st.funding_spec(),
                        st.spending_spec(),
                    )[k]) == (t.txid, t.blockindex),
            r matches Err(Error::NoHistory) ==> exists|st: Status|
                is_status_of(store, &self.mempool(), index, script_hash@, self.txid_limit_spec(), st) && status_entries(
                    st.funding_spec(),
                    st.spending_spec(),
                ).len() == 0,
            r matches Err(Error::TooManyResults { count }) ==> too_many(store, index, script_hash@, self.txid_limit_spec(), count) || (fits_limit(store, index, script_hash@, self.txid_limit_spec()) && too_many(&self.mempool(), index, script_hash@, self.txid_limit_spec(), count)),
            well_formed(store) && fits_limit(store, index, script_hash@, self.txid_limit_spec()) && !(exists|f: Seq<Txo>| double_spent(store, f)) && fits_limit(&self.mempool(), index, script_hash@, self.txid_limit_spec()) && !(exists|f: Seq<Txo>| double_spent(&self.mempool(), f)) ==> r is Ok || r == Err::<TxBlockIndex, Error>(Error::NoHistory),
            r is Err ==> r->Err_0 is NoHistory || r->Err_0 is CorruptRow || r->Err_0 is MultipleSpenders || r->Err_0 is TooManyResults,
            well_formed(store) ==> !(r matches Err(Error::CorruptRow)),
            r matches Err(Error::MultipleSpenders) ==> fits_limit(store, index, script_hash@, self.txid_limit_spec()) && (
            double_spends_address(store, index, script_hash@) || (fits_limit(&self.mempool(), index, script_hash@, self.txid_limit_spec())
                && exists|f: Seq<Txo>| double_spent(&self.mempool(), f))),
    {
        let status = self.status(store, index, script_hash)?;
        match status.oldest() {
            Some(t) => Ok(t),
            None => Err(Error::NoHistory),
        }
    }

    /// The entry of the tip of the indexed chain.
    pub fn get_best_header(&self, index: &Index) -> (r: Result<HeaderEntry, Error>)
        requires
            index.wf(),
        ensures
            r is Err <==> index.headers().entries().len() == 0,
            r matches Ok(e) ==> e@ == index.headers().entries().last(),
            r is Err ==> r == Err::<HeaderEntry, Error>(Error::NoHeaders),
    {
        match index.best_header() {
            Some(e) => Ok(e),
            None => Err(Error::NoHeaders),
        }
    }

    /// The entry of the block `block_hash`.
    pub fn get_block_index(&self, index: &Index, block_hash: &FullHash) -> (r: Result<HeaderEntry, Error>)
        ensures
            r is Ok <==> exists|i: int|
                0 <= i < index.headers().entries().len() && (#[trigger] index.headers().entries()[i]).header.hash == block_hash@,
            r matches Ok(e) ==> e.header.hash@ == block_hash@,
            r is Err ==> r == Err::<HeaderEntry, Error>(Error::NoHeaders),
    {
        match index.get_header_by_block_hash(block_hash) {
            Some(e) => Ok(e),
            None => Err(Error::NoHeaders),
        }
    }

    /// Mempool transactions to fetch for the next refresh.
    pub fn missing_mempool_txids(&self, mempool_txids: &Vec<FullHash>) -> (r: Vec<FullHash>)
        ensures
            forall|t: Seq<u8>| #[trigger] crate::mempool::in_hashes(r@, t) <==> crate::mempool::in_hashes(mempool_txids@, t)
                && !self.tracker().tracks(t),
    {
        self.tracker.missing_txids(mempool_txids)
    }

    /// Refreshes the mempool tracker (see `Tracker::update`).
    pub fn update_mempool(&mut self, mempool_txids: &Vec<FullHash>, fetched: Option<Vec<Transaction>>)
        requires
            old(self).wf(),
        ensures
            final(self).wf(),
            final(self).txid_limit_spec() == old(self).txid_limit_spec(),
            fetched is None ==> final(self).tracker() == old(self).tracker(),
            forall|k: Seq<u8>| #[trigger] final(self).mempool().stack(k) == crate::mempool::values_for(
                crate::mempool::items_rows(final(self).tracker().items_spec()),
                k,
            ),
            fetched matches Some(txs) ==> forall|t: Seq<u8>|
                #[trigger] final(self).tracker().tracks(t) <==> crate::mempool::in_hashes(mempool_txids@, t) && (old(self).tracker().tracks(t)
                    || exists|i: int| 0 <= i < txs@.len() && (#[trigger] txs@[i]).txid@ == t),
    {
        self.tracker.update(mempool_txids, fetched);
    }
}

spec fn u16_le_of(k: Seq<u8>) -> Seq<u8> {
    k.subrange(17, 19)
}

} // verus!
