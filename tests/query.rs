use addrindexrs::errors::Error;
use addrindexrs::hashes::compute_script_hash;
use addrindexrs::headers::BlockHeader;
use addrindexrs::index::{index_blocks, Block, Index, OutPoint, Transaction, TxIn, TxOut};
use addrindexrs::mempool::{MempoolStore, Tracker};
use addrindexrs::query::{find_spending_input, Query, SpendingInput, Status, Txo};
use addrindexrs::rpc::unspent_outpoints;
use addrindexrs::store::{MemStore, ReadStore};
use addrindexrs::util::FullHash;

fn h(b: u8) -> FullHash {
    [b; 32]
}

fn header(hash: FullHash, prev: FullHash) -> BlockHeader {
    let mut raw = vec![1u8, 0, 0, 0];
    raw.extend_from_slice(&prev);
    raw.extend_from_slice(&[7u8; 44]);
    BlockHeader { hash, prev_blockhash: prev, raw }
}

fn tx(txid: FullHash, inputs: Vec<(FullHash, u32)>, outputs: Vec<Vec<u8>>) -> Transaction {
    Transaction {
        txid,
        input: inputs
            .into_iter()
            .map(|(t, v)| TxIn { previous_output: OutPoint { txid: t, vout: v } })
            .collect(),
        output: outputs.into_iter().map(|s| TxOut { value: 1, script_pubkey: s }).collect(),
    }
}

fn store_with(blocks: Vec<Block>) -> MemStore {
    let mut store = MemStore::new();
    store.write(index_blocks(&blocks));
    store
}

fn txo(txid: FullHash, vout: usize, blockindex: usize) -> Txo {
    Txo { txid, vout, blockindex }
}

#[test]
fn script_hash_history_of_fund_and_spend() {
    let script = vec![0x76u8, 0xa9, 0x14];
    let sh = compute_script_hash(&script);
    let fund = tx(h(0x20), vec![], vec![script.clone()]);
    let spend = tx(h(0x10), vec![(h(0x20), 0)], vec![script.clone()]);
    let b1 = Block { header: header(h(1), [0; 32]), txdata: vec![fund] };
    let b2 = Block { header: header(h(2), h(1)), txdata: vec![spend] };
    let store = store_with(vec![b1, b2]);
    let index = Index::load(&store, 10).unwrap();
    let query = Query::new(0);
    let status = query.status(&store, &index, &sh).unwrap();
    assert_eq!(status.history(), vec![h(0x10), h(0x20)]);
    let funding = status.funding();
    assert_eq!(funding.len(), 2);
    assert_eq!(funding[0].blockindex + funding[1].blockindex, 1);
    let spending = status.spending();
    assert_eq!(spending.len(), 1);
    assert_eq!(spending[0].txid, h(0x10));
    assert_eq!(spending[0].outpoint, (h(0x20), 0));
    assert_eq!(spending[0].blockindex, 1);
    assert_eq!(unspent_outpoints(&status), vec![(h(0x10), 0)]);
}

#[test]
fn oldest_prefers_smallest_confirmed_height() {
    let status = Status::new(
        (vec![txo(h(5), 0, 5), txo(h(12), 0, 12)], vec![]),
        (vec![txo(h(1), 0, 0)], vec![]),
    );
    let oldest = status.oldest().unwrap();
    assert_eq!(oldest.txid, h(5));
    assert_eq!(oldest.blockindex, 5);
    let only_mempool = Status::new((vec![], vec![]), (vec![txo(h(1), 0, 0)], vec![]));
    let oldest = only_mempool.oldest().unwrap();
    assert_eq!(oldest.txid, h(1));
    assert_eq!(oldest.blockindex, 0);
    let empty = Status::new((vec![], vec![]), (vec![], vec![]));
    assert!(empty.oldest().is_none());
}

#[test]
fn oldest_ties_go_to_first_and_spending_counts() {
    let spend = SpendingInput { txid: h(9), outpoint: (h(5), 0), blockindex: 3 };
    let status = Status::new((vec![txo(h(5), 0, 7), txo(h(6), 0, 3)], vec![spend]), (vec![], vec![]));
    let oldest = status.oldest().unwrap();
    assert_eq!(oldest.txid, h(6));
    assert_eq!(oldest.blockindex, 3);
}

#[test]
fn too_many_results() {
    let script = vec![0x51u8];
    let sh = compute_script_hash(&script);
    let b1 = Block {
        header: header(h(1), [0; 32]),
        txdata: vec![tx(h(0x30), vec![], vec![script.clone()]), tx(h(0x31), vec![], vec![script.clone()])],
    };
    let store = store_with(vec![b1]);
    let index = Index::load(&store, 10).unwrap();
    let query = Query::new(1);
    assert!(matches!(query.status(&store, &index, &sh), Err(Error::TooManyResults { count: 2 })));
    let unlimited = Query::new(0);
    assert_eq!(unlimited.status(&store, &index, &sh).unwrap().funding().len(), 2);
}

#[test]
fn prefix_collision_resolves_through_tx_rows() {
    // two txids sharing their first 8 bytes; only the first pays to the script
    let script = vec![0x52u8];
    let sh = compute_script_hash(&script);
    let mut a = h(0x40);
    let mut b = h(0x40);
    a[31] = 1;
    b[31] = 2;
    let b1 = Block {
        header: header(h(1), [0; 32]),
        txdata: vec![tx(a, vec![], vec![script.clone()]), tx(b, vec![], vec![vec![0x53]])],
    };
    let store = store_with(vec![b1]);
    let index = Index::load(&store, 10).unwrap();
    let status = Query::new(0).status(&store, &index, &sh).unwrap();
    let txids: Vec<FullHash> = status.funding().iter().map(|f| f.txid).collect();
    assert!(txids.contains(&a));
    assert!(txids.iter().all(|t| t[..8] == a[..8]));
}

#[test]
fn single_spender_is_found() {
    let b1 = Block { header: header(h(1), [0; 32]), txdata: vec![tx(h(0x50), vec![], vec![vec![1]])] };
    let b2 = Block { header: header(h(2), h(1)), txdata: vec![tx(h(0x51), vec![(h(0x50), 0)], vec![vec![2]])] };
    let store = store_with(vec![b1, b2]);
    let index = Index::load(&store, 10).unwrap();
    let spent = find_spending_input(&store, &index, &txo(h(0x50), 0, 0)).unwrap().unwrap();
    assert_eq!(spent.txid, h(0x51));
    assert_eq!(spent.blockindex, 1);
    assert!(find_spending_input(&store, &index, &txo(h(0x50), 1, 0)).unwrap().is_none());
}

#[test]
fn two_spenders_are_an_error() {
    let b1 = Block {
        header: header(h(1), [0; 32]),
        txdata: vec![
            tx(h(0x60), vec![], vec![vec![1]]),
            tx(h(0x61), vec![(h(0x60), 0)], vec![vec![2]]),
            tx(h(0x62), vec![(h(0x60), 0)], vec![vec![3]]),
        ],
    };
    let store = store_with(vec![b1]);
    let index = Index::load(&store, 10).unwrap();
    assert!(matches!(find_spending_input(&store, &index, &txo(h(0x60), 0, 0)), Err(Error::MultipleSpenders)));
}

#[test]
fn corrupt_tx_row_is_an_error() {
    let script = vec![0x54u8];
    let sh = compute_script_hash(&script);
    let mut store = store_with(vec![Block { header: header(h(1), [0; 32]), txdata: vec![tx(h(0x70), vec![], vec![script])] }]);
    let mut key = vec![b'T'];
    key.extend_from_slice(&h(0x70)[..8]);
    store.write(vec![addrindexrs::store::Row { key, value: vec![1] }]);
    let index = Index::load(&store, 10).unwrap();
    assert!(matches!(Query::new(0).status(&store, &index, &sh), Err(Error::CorruptRow)));
}

#[test]
fn history_is_sorted_without_duplicates() {
    let spend = SpendingInput { txid: h(2), outpoint: (h(9), 0), blockindex: 0 };
    let status = Status::new(
        (vec![txo(h(9), 0, 1), txo(h(2), 1, 2), txo(h(9), 1, 1)], vec![spend]),
        (vec![txo(h(4), 0, 0)], vec![]),
    );
    assert_eq!(status.history(), vec![h(2), h(4), h(9)]);
    assert_eq!(unspent_outpoints(&status), vec![(h(2), 1), (h(9), 1), (h(4), 0)]);
}

#[test]
fn oldest_tx_of_empty_address_is_an_error() {
    let store = MemStore::new();
    let index = Index::load(&store, 10).unwrap();
    let query = Query::new(0);
    assert!(matches!(query.oldest_tx(&store, &index, &h(1)), Err(Error::NoHistory)));
    assert!(matches!(query.get_best_header(&index), Err(Error::NoHeaders)));
    assert!(matches!(query.get_block_index(&index, &h(1)), Err(Error::NoHeaders)));
}

#[test]
fn mempool_status_sees_unconfirmed_spend() {
    let script = vec![0x55u8];
    let sh = compute_script_hash(&script);
    let store = store_with(vec![Block { header: header(h(1), [0; 32]), txdata: vec![tx(h(0x80), vec![], vec![script.clone()])] }]);
    let index = Index::load(&store, 10).unwrap();
    let mut query = Query::new(0);
    let pending = tx(h(0x81), vec![(h(0x80), 0)], vec![vec![9]]);
    let mempool = vec![h(0x81)];
    assert_eq!(query.missing_mempool_txids(&mempool), vec![h(0x81)]);
    query.update_mempool(&mempool, Some(vec![pending]));
    let status = query.status(&store, &index, &sh).unwrap();
    let spending = status.spending();
    assert_eq!(spending.len(), 1);
    assert_eq!(spending[0].txid, h(0x81));
    assert_eq!(spending[0].blockindex, 0);
    assert!(unspent_outpoints(&status).is_empty());
    let oldest = query.oldest_tx(&store, &index, &sh).unwrap();
    assert_eq!(oldest.txid, h(0x80));
}

#[test]
fn mempool_update_twice_is_idempotent() {
    let mut tracker = Tracker::new();
    let t1 = tx(h(0x91), vec![(h(0x90), 0)], vec![vec![1]]);
    let t2 = tx(h(0x92), vec![], vec![vec![2]]);
    let mempool = vec![h(0x91), h(0x92)];
    let missing = tracker.missing_txids(&mempool);
    assert_eq!(missing, vec![h(0x91), h(0x92)]);
    tracker.update(&mempool, Some(vec![t1, t2]));
    assert!(tracker.has(&h(0x91)) && tracker.has(&h(0x92)));
    let before = tracker.index().scan(&[]);
    assert!(tracker.missing_txids(&mempool).is_empty());
    tracker.update(&mempool, Some(vec![]));
    let after = tracker.index().scan(&[]);
    assert_eq!(before.len(), after.len());
    for (x, y) in before.iter().zip(after.iter()) {
        assert_eq!(x.key, y.key);
        assert_eq!(x.value, y.value);
    }
    // a failed fetch keeps the state
    tracker.update(&vec![], None);
    assert!(tracker.has(&h(0x91)));
    // leaving the mempool removes the transaction and its rows
    tracker.update(&vec![h(0x92)], Some(vec![]));
    assert!(!tracker.has(&h(0x91)));
    assert!(tracker.has(&h(0x92)));
    let mut key = vec![b'T'];
    key.extend_from_slice(&h(0x91));
    assert_eq!(tracker.index().get(&key), None);
    let mut key2 = vec![b'T'];
    key2.extend_from_slice(&h(0x92));
    assert_eq!(tracker.index().get(&key2), Some(vec![0u8; 32]));
}

#[test]
fn mempool_store_stacks_values() {
    let mut store = MempoolStore::new();
    let t = tx(h(0xa1), vec![], vec![vec![1]]);
    store.add(&t);
    store.add(&t);
    let rows = store.scan(&[b'O']);
    assert_eq!(rows.len(), 1);
    store.remove(&t);
    assert_eq!(store.scan(&[b'O']).len(), 1);
    store.remove(&t);
    assert!(store.scan(&[]).is_empty());
}
