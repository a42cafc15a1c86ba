use addrindexrs::errors::Error;
use addrindexrs::hashes::compute_script_hash;
use addrindexrs::headers::{BlockHeader, HeaderList};
use addrindexrs::index::{
    chunk_blockhashes, index_block, index_blocks, index_transaction, last_indexed_block,
    read_indexed_blockhashes, Block, BlockKey, Index, OutPoint, Transaction, TxIn, TxInRow, TxOut,
    TxOutRow, TxRow,
};
use addrindexrs::store::{full_compaction, is_fully_compacted, MemStore, ReadStore, Row};
use addrindexrs::util::FullHash;

fn h(b: u8) -> FullHash {
    [b; 32]
}

fn header(hash: FullHash, prev: FullHash) -> BlockHeader {
    let mut raw = vec![1u8, 0, 0, 0];
    raw.extend_from_slice(&prev);
    raw.extend_from_slice(&[7u8; 44]);
    BlockHeader { hash, prev_blockhash: prev, raw }
}

fn tx(txid: FullHash, inputs: Vec<(FullHash, u32)>, outputs: Vec<Vec<u8>>) -> Transaction {
    Transaction {
        txid,
        input: inputs
            .into_iter()
            .map(|(t, v)| TxIn { previous_output: OutPoint { txid: t, vout: v } })
            .collect(),
        output: outputs.into_iter().map(|s| TxOut { value: 1, script_pubkey: s }).collect(),
    }
}

#[test]
fn txin_row_layout_and_round_trip() {
    let input = TxIn { previous_output: OutPoint { txid: h(0xaa), vout: 0x0102 } };
    let row = TxInRow::new(&h(0xbb), &input).to_row();
    let mut expected = vec![b'I'];
    expected.extend_from_slice(&[0xaa; 8]);
    expected.extend_from_slice(&[0x02, 0x01]);
    expected.extend_from_slice(&[0xbb; 8]);
    assert_eq!(row.key, expected);
    assert!(row.value.is_empty());
    let decoded = TxInRow::from_row(&row);
    assert_eq!(decoded.txid_prefix, [0xbb; 8]);
    assert_eq!(decoded.to_row().key, row.key);
    let mut filter = vec![b'I'];
    filter.extend_from_slice(&[0xaa; 8]);
    filter.extend_from_slice(&[0x02, 0x01]);
    assert_eq!(TxInRow::filter(&h(0xaa), 0x0102), filter);
}

#[test]
fn txout_row_layout_and_round_trip() {
    let script = vec![0x51u8];
    let output = TxOut { value: 5, script_pubkey: script.clone() };
    let row = TxOutRow::new(&h(0xcc), 3, &output).to_row();
    let sh = compute_script_hash(&script);
    let mut expected = vec![b'O'];
    expected.extend_from_slice(&sh[..8]);
    expected.extend_from_slice(&[0xcc; 8]);
    expected.extend_from_slice(&[3, 0]);
    assert_eq!(row.key, expected);
    let decoded = TxOutRow::from_row(&row);
    assert_eq!(decoded.vout, 3);
    assert_eq!(decoded.txid_prefix, [0xcc; 8]);
    assert_eq!(decoded.to_row().key, row.key);
    assert_eq!(TxOutRow::filter(&sh), expected[..9].to_vec());
}

#[test]
fn tx_row_and_block_key_round_trip() {
    let row = TxRow::new(&h(3), &h(4)).to_row();
    let mut key = vec![b'T'];
    key.extend_from_slice(&h(3));
    assert_eq!(row.key, key);
    assert_eq!(row.value, h(4).to_vec());
    let decoded = TxRow::from_row(&row);
    assert_eq!(decoded.key.txid, h(3));
    assert_eq!(decoded.block_hash, h(4));
    assert_eq!(TxRow::filter_full(&h(3)), key);
    assert_eq!(TxRow::filter_prefix([3; 8]), key[..9].to_vec());
    let bk = BlockKey::new(&h(9));
    let bytes = bk.to_bytes();
    assert_eq!(bytes[0], b'B');
    assert_eq!(BlockKey::from_bytes(&bytes).hash, h(9));
}

#[test]
fn script_hash_is_single_sha256() {
    let sh = compute_script_hash(b"abc");
    assert_eq!(
        hex::encode(sh),
        "ba7816bf8f01cfea414140de5dae2223b00361a396177a9cb410ff61f20015ad"
    );
}

#[test]
fn transaction_rows_in_order() {
    let coinbase = tx(h(1), vec![([0u8; 32], 0xffff_ffff)], vec![vec![1], vec![2]]);
    let rows = index_transaction(&coinbase, &h(9));
    // the null input is skipped: two outputs and the T row
    assert_eq!(rows.len(), 3);
    assert_eq!(rows[0].key[0], b'O');
    assert_eq!(rows[1].key[0], b'O');
    assert_eq!(rows[2].key[0], b'T');
    assert_eq!(rows[2].value, h(9).to_vec());
    let spend = tx(h(2), vec![(h(1), 0), (h(1), 1)], vec![vec![3]]);
    let rows = index_transaction(&spend, &h(9));
    assert_eq!(rows.len(), 4);
    assert_eq!(rows[0].key[0], b'I');
    assert_eq!(rows[1].key[0], b'I');
    assert_eq!(rows[2].key[0], b'O');
    assert_eq!(rows[3].key[0], b'T');
}

#[test]
fn block_rows_end_with_block_row() {
    let block = Block { header: header(h(5), [0; 32]), txdata: vec![tx(h(1), vec![], vec![vec![1]])] };
    let rows = index_block(&block);
    assert_eq!(rows.len(), 3);
    let last = &rows[2];
    assert_eq!(last.key, BlockKey::new(&h(5)).to_bytes());
    assert_eq!(last.value, block.header.raw);
    let batch = index_blocks(&vec![block]);
    assert_eq!(batch.len(), 4);
    assert_eq!(batch[3].key, vec![b'L']);
    assert_eq!(batch[3].value, h(5).to_vec());
    let l = last_indexed_block(&h(5));
    assert_eq!(l.key, b"L".to_vec());
}

fn chain_store(n: u8) -> MemStore {
    let mut store = MemStore::new();
    let mut prev = [0u8; 32];
    for i in 1..=n {
        let block = Block { header: header(h(i), prev), txdata: vec![tx(h(100 + i), vec![], vec![vec![i]])] };
        store.write(index_blocks(&vec![block]));
        prev = h(i);
    }
    store
}

#[test]
fn load_reads_header_chain() {
    let store = chain_store(3);
    let index = Index::load(&store, 10).unwrap();
    assert_eq!(index.best_header().unwrap().height, 2);
    assert_eq!(*index.best_header().unwrap().hash(), h(3));
    assert_eq!(index.get_header(0).unwrap().header.hash, h(1));
    assert_eq!(index.get_header(0).unwrap().header.prev_blockhash, [0; 32]);
    assert_eq!(index.get_header(1).unwrap().header.prev_blockhash, h(1));
    assert!(index.get_header(3).is_none());
    assert_eq!(index.get_header_by_block_hash(&h(2)).unwrap().height, 1);
    let mut hashes = read_indexed_blockhashes(&store);
    hashes.sort();
    assert_eq!(hashes, vec![h(1), h(2), h(3)]);
}

#[test]
fn empty_store_loads_empty_chain() {
    let store = MemStore::new();
    let index = Index::load(&store, 10).unwrap();
    assert!(index.best_header().is_none());
}

#[test]
fn missing_header_is_an_error() {
    let mut store = chain_store(2);
    store.write(vec![last_indexed_block(&h(42))]);
    assert!(matches!(Index::load(&store, 10), Err(Error::MissingHeader)));
}

#[test]
fn malformed_last_row_is_an_error() {
    let mut store = MemStore::new();
    store.write(vec![Row { key: vec![b'L'], value: vec![1, 2, 3] }]);
    assert!(matches!(Index::load(&store, 10), Err(Error::CorruptRow)));
}

#[test]
fn header_chain_apply_and_reorg() {
    let mut list = HeaderList::empty();
    let entries = list.order(vec![header(h(1), [0; 32]), header(h(2), h(1)), header(h(3), h(2))]);
    assert_eq!(entries[2].height, 2);
    assert!(list.check_fits(&entries, &h(3)));
    list.apply(entries, h(3));
    assert_eq!(list.len(), 3);
    assert_eq!(list.tip(), h(3));
    // a competing block at height 2
    let mut fork = list.order(vec![header(h(4), h(2))]);
    fork[0].height = 2;
    assert!(list.check_fits(&fork, &h(4)));
    list.apply(fork, h(4));
    assert_eq!(list.len(), 3);
    assert_eq!(list.tip(), h(4));
    assert_eq!(list.header_by_height(2).unwrap().header.hash, h(4));
    assert!(list.header_by_blockhash(&h(3)).is_none());
    // headers that do not link to the chain are refused
    let bad = list.order(vec![header(h(6), h(5))]);
    assert!(!list.check_fits(&bad, &h(6)));
}

#[test]
fn index_update_steps() {
    let store = chain_store(1);
    let mut index = Index::load(&store, 2).unwrap();
    let entries = index.order(vec![header(h(2), h(1)), header(h(3), h(2)), header(h(4), h(3))]);
    let chunks = chunk_blockhashes(&entries, index.batch_size());
    assert_eq!(chunks, vec![vec![h(2), h(3)], vec![h(4)]]);
    let bad = index.order(vec![header(h(9), h(8))]);
    assert_eq!(index.finish_update(bad, h(9)), Err(Error::HeaderMismatch));
    assert_eq!(index.finish_update(entries, h(4)), Ok(h(4)));
    assert_eq!(index.best_header().unwrap().height, 3);
}

#[test]
fn prefix_scan_returns_matching_rows_in_order() {
    let mut store = MemStore::new();
    store.write(vec![
        Row { key: vec![2, 2], value: vec![1] },
        Row { key: vec![1, 9], value: vec![2] },
        Row { key: vec![2], value: vec![3] },
        Row { key: vec![2, 1, 5], value: vec![4] },
        Row { key: vec![3], value: vec![5] },
        Row { key: vec![2, 2], value: vec![6] },
    ]);
    let rows = store.scan(&[2]);
    let keys: Vec<Vec<u8>> = rows.iter().map(|r| r.key.clone()).collect();
    assert_eq!(keys, vec![vec![2], vec![2, 1, 5], vec![2, 2]]);
    assert_eq!(rows[2].value, vec![6]);
    assert_eq!(store.get(&[1, 9]), Some(vec![2]));
    assert_eq!(store.get(&[1]), None);
    assert!(store.scan(&[4]).is_empty());
}

#[test]
fn compaction_marker() {
    let store = chain_store(1);
    assert!(!is_fully_compacted(&store));
    let store = full_compaction(store);
    assert!(is_fully_compacted(&store));
    assert!(Index::load(&store, 1).is_ok());
}
