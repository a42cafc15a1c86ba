use vstd::prelude::*;

use crate::errors::Error;
use crate::hashes::{compute_script_hash, sha256_of};
use crate::headers::{BlockHeader, HeaderEntry, HeaderList};
use crate::lex::is_prefix;
use crate::store::{rows_view, ReadStore, Row};
use crate::util::{
    full_hash, hash_prefix, null_hash_spec, push_all, push_u16_le, read_u16_le, u16_le, Bytes,
    FullHash, HashPrefix,
};

verus! {

pub const TXIN_CODE: u8 = 73;

pub const TXOUT_CODE: u8 = 79;

pub const TX_CODE: u8 = 84;

pub const BLOCK_CODE: u8 = 66;

pub const LAST_CODE: u8 = 76;

/// Length of the key of an `I` or an `O` row.
pub const TXIN_ROW_LEN: usize = 19;

pub const TXOUT_ROW_LEN: usize = 19;

/// Length of the key of a `T` or a `B` row.
pub const HASH_KEY_LEN: usize = 33;

/// An output spent by an input: the funding transaction and the output's index.
pub struct OutPoint {
    pub txid: FullHash,
    pub vout: u32,
}

pub struct TxIn {
    pub previous_output: OutPoint,
}

pub struct TxOut {
    pub value: u64,
    pub script_pubkey: Bytes,
}

/// A transaction, with its id.
pub struct Transaction {
    pub txid: FullHash,
    pub input: Vec<TxIn>,
    pub output: Vec<TxOut>,
}

/// A block: its header and its transactions.
pub struct Block {
    pub header: BlockHeader,
    pub txdata: Vec<Transaction>,
}

/// Key of a row storing an input of a transaction.
pub struct TxInKey {
    pub code: u8,
    pub prev_txid_prefix: HashPrefix,
    pub prev_vout: u16,
}

/// Row storing an input of a transaction.
pub struct TxInRow {
    pub key: TxInKey,
    pub txid_prefix: HashPrefix,
}

/// Key layout of an `I` row.
pub open spec fn txin_key(prev_txid: Seq<u8>, prev_vout: u16, txid: Seq<u8>) -> Seq<u8> {
    seq![TXIN_CODE] + prev_txid.subrange(0, 8) + u16_le(prev_vout) + txid.subrange(0, 8)
}

/// Prefix of the keys of the `I` rows spending an output.
pub open spec fn txin_filter(prev_txid: Seq<u8>, prev_vout: u16) -> Seq<u8> {
    seq![TXIN_CODE] + prev_txid.subrange(0, 8) + u16_le(prev_vout)
}

impl TxInRow {
    pub open spec fn encoding(&self) -> Seq<u8> {
        seq![self.key.code] + self.key.prev_txid_prefix@ + u16_le(self.key.prev_vout)
            + self.txid_prefix@
    }

    pub fn new(txid: &FullHash, input: &TxIn) -> (r: TxInRow)
        ensures
            r.encoding() == txin_key(
                input.previous_output.txid@,
                input.previous_output.vout as u16,
                txid@,
            ),
    {
        let r = TxInRow {
            key: TxInKey {
                code: TXIN_CODE,
                prev_txid_prefix: hash_prefix(&input.previous_output.txid),
                prev_vout: input.previous_output.vout as u16,
            },
            txid_prefix: hash_prefix(txid),
        };
        assert(r.encoding() =~= txin_key(
            input.previous_output.txid@,
            input.previous_output.vout as u16,
            txid@,
        ));
        r
    }

    /// Scan prefix of the `I` rows spending output `vout` of `txid`.
    pub fn filter(txid: &FullHash, vout: usize) -> (r: Bytes)
        ensures
            r@ == txin_filter(txid@, vout as u16),
    {
        let mut r: Bytes = vec![TXIN_CODE];
        push_all(&mut r, &hash_prefix(txid));
        push_u16_le(&mut r, vout as u16);
        assert(r@ =~= txin_filter(txid@, vout as u16));
        r
    }

    pub fn to_row(&self) -> (r: Row)
        ensures
            r.key@ == self.encoding(),
            r.value@ == Seq::<u8>::empty(),
    {
        let mut key: Bytes = vec![self.key.code];
        push_all(&mut key, &self.key.prev_txid_prefix);
        push_u16_le(&mut key, self.key.prev_vout);
        push_all(&mut key, &self.txid_prefix);
        assert(key@ =~= self.encoding());
        Row { key, value: Vec::new() }
    }

    pub fn from_row(row: &Row) -> (r: TxInRow)
        requires
            row.key@.len() == TXIN_ROW_LEN,
        ensures
            r.encoding() == row.key@,
    {
        let k = row.key.as_slice();
        let prev = hash_prefix(slice_from(k, 1));
        let vout = read_u16_le(k[9], k[10]);
        let txid_prefix = hash_prefix(slice_from(k, 11));
        let r = TxInRow {
            key: TxInKey { code: k[0], prev_txid_prefix: prev, prev_vout: vout },
            txid_prefix,
        };
        assert(r.encoding() =~= row.key@);
        r
    }
}

/// Key of a row storing an output of a transaction.
pub struct TxOutKey {
    pub code: u8,
    pub script_hash_prefix: HashPrefix,
}

/// Row storing an output of a transaction.
pub struct TxOutRow {
    pub key: TxOutKey,
    pub txid_prefix: HashPrefix,
    pub vout: u16,
}

/// Key layout of an `O` row.
pub open spec fn txout_key(script_hash: Seq<u8>, txid: Seq<u8>, vout: u16) -> Seq<u8> {
    seq![TXOUT_CODE] + script_hash.subrange(0, 8) + txid.subrange(0, 8) + u16_le(vout)
}

/// Prefix of the keys of the `O` rows paying to a script hash.
pub open spec fn txout_filter(script_hash: Seq<u8>) -> Seq<u8> {
    seq![TXOUT_CODE] + script_hash.subrange(0, 8)
}

impl TxOutRow {
    pub open spec fn encoding(&self) -> Seq<u8> {
        seq![self.key.code] + self.key.script_hash_prefix@ + self.txid_prefix@ + u16_le(self.vout)
    }

    pub fn new(txid: &FullHash, vout: u32, output: &TxOut) -> (r: TxOutRow)
        ensures
            r.encoding() == txout_key(sha256_of(output.script_pubkey@), txid@, vout as u16),
    {
        let script_hash = compute_script_hash(output.script_pubkey.as_slice());
        let r = TxOutRow {
            key: TxOutKey { code: TXOUT_CODE, script_hash_prefix: hash_prefix(&script_hash) },
            txid_prefix: hash_prefix(txid),
            vout: vout as u16,
        };
        assert(r.encoding() =~= txout_key(sha256_of(output.script_pubkey@), txid@, vout as u16));
        r
    }

    /// Scan prefix of the `O` rows paying to `script_hash`.
    pub fn filter(script_hash: &[u8]) -> (r: Bytes)
        requires
            script_hash@.len() >= 8,
        ensures
            r@ == txout_filter(script_hash@),
    {
        let mut r: Bytes = vec![TXOUT_CODE];
        push_all(&mut r, &hash_prefix(script_hash));
        assert(r@ =~= txout_filter(script_hash@));
        r
    }

    pub fn to_row(&self) -> (r: Row)
        ensures
            r.key@ == self.encoding(),
            r.value@ == Seq::<u8>::empty(),
    {
        let mut key: Bytes = vec![self.key.code];
        push_all(&mut key, &self.key.script_hash_prefix);
        push_all(&mut key, &self.txid_prefix);
        push_u16_le(&mut key, self.vout);
        assert(key@ =~= self.encoding());
        Row { key, value: Vec::new() }
    }

    pub fn from_row(row: &Row) -> (r: TxOutRow)
        requires
            row.key@.len() == TXOUT_ROW_LEN,
        ensures
            r.encoding() == row.key@,
    {
        let k = row.key.as_slice();
        let script_prefix = hash_prefix(slice_from(k, 1));
        let txid_prefix = hash_prefix(slice_from(k, 9));
        let vout = read_u16_le(k[17], k[18]);
        let r = TxOutRow {
            key: TxOutKey { code: k[0], script_hash_prefix: script_prefix },
            txid_prefix,
            vout,
        };
        assert(r.encoding() =~= row.key@);
        r
    }
}

/// Key of a row storing a transaction.
pub struct TxKey {
    pub code: u8,
    pub txid: FullHash,
}

/// Row storing a transaction: its id and the hash of its block.
pub struct TxRow {
    pub key: TxKey,
    pub block_hash: FullHash,
}

impl TxRow {
    pub open spec fn key_encoding(&self) -> Seq<u8> {
        seq![self.key.code] + self.key.txid@
    }

    pub fn new(txid: &FullHash, blockhash: &FullHash) -> (r: TxRow)
        ensures
            r.key_encoding() == seq![TX_CODE] + txid@,
            r.key.txid == *txid,
            r.block_hash == *blockhash,
    {
        TxRow { key: TxKey { code: TX_CODE, txid: *txid }, block_hash: *blockhash }
    }

    /// Scan prefix of the `T` rows whose txid starts with `txid_prefix`.
    pub fn filter_prefix(txid_prefix: HashPrefix) -> (r: Bytes)
        ensures
            r@ == seq![TX_CODE] + txid_prefix@,
    {
        let mut r: Bytes = vec![TX_CODE];
        push_all(&mut r, &txid_prefix);
        r
    }

    /// Key of the `T` row of `txid`.
    pub fn filter_full(txid: &FullHash) -> (r: Bytes)
        ensures
            r@ == seq![TX_CODE] + txid@,
    {
        let mut r: Bytes = vec![TX_CODE];
        push_all(&mut r, txid);
        r
    }

    pub fn to_row(&self) -> (r: Row)
        ensures
            r.key@ == self.key_encoding(),
            r.value@ == self.block_hash@,
    {
        let mut key: Bytes = vec![self.key.code];
        push_all(&mut key, &self.key.txid);
        Row { key, value: vstd::slice::slice_to_vec(&self.block_hash) }
    }

    pub fn from_row(row: &Row) -> (r: TxRow)
        requires
            row.key@.len() == HASH_KEY_LEN,
            row.value@.len() == 32,
        ensures
            r.key_encoding() == row.key@,
            r.block_hash@ == row.value@,
    {
        let k = row.key.as_slice();
        let txid = full_hash(slice_from(k, 1));
        let block_hash = full_hash(row.value.as_slice());
        let r = TxRow { key: TxKey { code: k[0], txid }, block_hash };
        assert(r.key_encoding() =~= row.key@);
        assert(row.value@.subrange(0, 32) =~= row.value@);
        r
    }
}

/// Key of a row storing a block header.
pub struct BlockKey {
    pub code: u8,
    pub hash: FullHash,
}

impl BlockKey {
    pub open spec fn encoding(&self) -> Seq<u8> {
        seq![self.code] + self.hash@
    }

    pub fn new(hash: &FullHash) -> (r: BlockKey)
        ensures
            r.encoding() == seq![BLOCK_CODE] + hash@,
    {
        BlockKey { code: BLOCK_CODE, hash: *hash }
    }

    pub fn to_bytes(&self) -> (r: Bytes)
        ensures
            r@ == self.encoding(),
    {
        let mut r: Bytes = vec![self.code];
        push_all(&mut r, &self.hash);
        r
    }

    pub fn from_bytes(key: &[u8]) -> (r: BlockKey)
        requires
            key@.len() == HASH_KEY_LEN,
        ensures
            r.encoding() == key@,
    {
        let hash = full_hash(slice_from(key, 1));
        let r = BlockKey { code: key[0], hash };
        assert(r.encoding() =~= key@);
        r
    }
}

/// The bytes of `s` from position `start` on.
fn slice_from(s: &[u8], start: usize) -> (r: &[u8])
    requires
        start <= s@.len(),
    ensures
        r@ == s@.subrange(start as int, s@.len() as int),
{
    vstd::slice::slice_subrange(s, start, s.len())
}

/// The view of a row: key and value.
pub type RowView = (Seq<u8>, Seq<u8>);

/// A row has the layout of its family: a `T` row a 33-byte key and a 32-byte value,
/// an `O` or an `I` row a 19-byte key.
pub open spec fn is_well_formed_row(row: RowView) -> bool {
    &&& row.0.len() > 0
    &&& row.0[0] == TX_CODE ==> row.0.len() == 33 && row.1.len() == 32
    &&& row.0[0] == TXOUT_CODE ==> row.0.len() == 19
    &&& row.0[0] == TXIN_CODE ==> row.0.len() == 19
}

pub open spec fn all_well_formed(rows: Seq<RowView>) -> bool {
    forall|i: int| 0 <= i < rows.len() ==> is_well_formed_row(#[trigger] rows[i])
}

proof fn lemma_concat_well_formed(a: Seq<RowView>, b: Seq<RowView>)
    requires
        all_well_formed(a),
        all_well_formed(b),
    ensures
        all_well_formed(a + b),
{
    assert forall|i: int| 0 <= i < (a + b).len() implies is_well_formed_row(#[trigger] (a + b)[i]) by {
        if i < a.len() {
            assert((a + b)[i] == a[i]);
        } else {
            assert((a + b)[i] == b[i - a.len()]);
        }
    }
}

/// An input is indexed unless it is the null (coinbase) input.
pub open spec fn is_indexed_input(input: TxIn) -> bool {
    input.previous_output.txid@ != null_hash_spec()
}

/// The `I` rows of the inputs of transaction `txid`, in order.
pub open spec fn input_rows(txid: Seq<u8>, inputs: Seq<TxIn>) -> Seq<RowView>
    decreases inputs.len(),
{
    if inputs.len() == 0 {
        Seq::empty()
    } else {
        let prev = input_rows(txid, inputs.drop_last());
        let input = inputs.last();
        if is_indexed_input(input) {
            prev.push(
                (
                    txin_key(input.previous_output.txid@, input.previous_output.vout as u16, txid),
                    Seq::empty(),
                ),
            )
        } else {
            prev
        }
    }
}

/// The `O` rows of the outputs of transaction `txid`, in order.
pub open spec fn output_rows(txid: Seq<u8>, outputs: Seq<TxOut>) -> Seq<RowView> {
    Seq::new(
        outputs.len(),
        |i: int|
            (
                txout_key(sha256_of(outputs[i].script_pubkey@), txid, (i % 65536) as u16),
                Seq::<u8>::empty(),
            ),
    )
}

/// The `T` row of transaction `txid` confirmed in `blockhash`.
pub open spec fn tx_row(txid: Seq<u8>, blockhash: Seq<u8>) -> RowView {
    (seq![TX_CODE] + txid, blockhash)
}

/// All rows of a transaction: its inputs, its outputs, then its `T` row.
pub open spec fn tx_rows(tx: Transaction, blockhash: Seq<u8>) -> Seq<RowView> {
    input_rows(tx.txid@, tx.input@) + output_rows(tx.txid@, tx.output@) + seq![
        tx_row(tx.txid@, blockhash),
    ]
}

/// The rows of a sequence of transactions, one after the other.
pub open spec fn txs_rows(txs: Seq<Transaction>, blockhash: Seq<u8>) -> Seq<RowView>
    decreases txs.len(),
{
    if txs.len() == 0 {
        Seq::empty()
    } else {
        txs_rows(txs.drop_last(), blockhash) + tx_rows(txs.last(), blockhash)
    }
}

/// The `B` row of a block: its hash and its header.
pub open spec fn block_row(header: BlockHeader) -> RowView {
    (seq![BLOCK_CODE] + header.hash@, header.raw@)
}

/// All rows of a block: those of its transactions, then its `B` row.
pub open spec fn block_rows(block: Block) -> Seq<RowView> {
    txs_rows(block.txdata@, block.header.hash@) + seq![block_row(block.header)]
}

/// Index a transaction: its `I` rows, its `O` rows, then its `T` row.
pub fn index_transaction(txn: &Transaction, blockhash: &FullHash) -> (r: Vec<Row>)
    ensures
        rows_view(r@) == tx_rows(*txn, blockhash@),
        all_well_formed(rows_view(r@)),
{
    let txid = &txn.txid;
    let mut rows: Vec<Row> = Vec::new();
    let mut i: usize = 0;
    while i < txn.input.len()
        invariant
            0 <= i <= txn.input@.len(),
            rows_view(rows@) == input_rows(txid@, txn.input@.subrange(0, i as int)),
            all_well_formed(rows_view(rows@)),
        decreases txn.input.len() - i,
    {
        let input = &txn.input[i];
        if !crate::util::is_null_hash(&input.previous_output.txid) {
            let row = TxInRow::new(txid, input).to_row();
            let ghost before = rows_view(rows@);
            proof {
                assert(row.key@.len() == 19);
                assert(row.key@[0] == TXIN_CODE);
                lemma_concat_well_formed(before, seq![row@]);
            }
            rows.push(row);
            assert(rows_view(rows@) =~= before + seq![row@]);
        }
        proof {
            let s = txn.input@.subrange(0, i + 1);
            assert(s.drop_last() =~= txn.input@.subrange(0, i as int));
            assert(rows_view(rows@) =~= input_rows(txid@, s));
        }
        i = i + 1;
    }
    assert(txn.input@.subrange(0, i as int) =~= txn.input@);
    let ghost n_in = rows@.len();
    let mut j: usize = 0;
    while j < txn.output.len()
        invariant
            0 <= j <= txn.output@.len(),
            rows_view(rows@) == input_rows(txid@, txn.input@) + output_rows(txid@, txn.output@).subrange(
                0,
                j as int,
            ),
            all_well_formed(rows_view(rows@)),
        decreases txn.output.len() - j,
    {
        let vout = (j % 65536) as u32;
        assert(vout as u16 == (j as int % 65536) as u16);
        let row = TxOutRow::new(txid, vout, &txn.output[j]).to_row();
        assert(row@ == output_rows(txid@, txn.output@)[j as int]);
        let ghost before = rows_view(rows@);
        proof {
            assert(row.key@.len() == 19);
            assert(row.key@[0] == TXOUT_CODE);
            lemma_concat_well_formed(before, seq![row@]);
        }
        rows.push(row);
        assert(rows_view(rows@) =~= before.push(row@));
        assert(rows_view(rows@) =~= before + seq![row@]);
        j = j + 1;
        assert(rows_view(rows@) =~= input_rows(txid@, txn.input@) + output_rows(
            txid@,
            txn.output@,
        ).subrange(0, j as int));
    }
    assert(output_rows(txid@, txn.output@).subrange(0, j as int) =~= output_rows(txid@, txn.output@));
    let row = TxRow::new(txid, blockhash).to_row();
    assert(row@ == tx_row(txid@, blockhash@));
    let ghost before = rows_view(rows@);
    proof {
        assert(row.key@.len() == 33);
        assert(row.key@[0] == TX_CODE);
        lemma_concat_well_formed(before, seq![row@]);
    }
    rows.push(row);
    assert(rows_view(rows@) =~= before.push(row@));
    assert(rows_view(rows@) =~= before + seq![row@]);
    assert(rows_view(rows@) =~= tx_rows(*txn, blockhash@));
    rows
}

/// Index a block: the rows of each transaction in order, then its `B` row.
pub fn index_block(block: &Block) -> (r: Vec<Row>)
    ensures
        rows_view(r@) == block_rows(*block),
        all_well_formed(rows_view(r@)),
{
    let blockhash = &block.header.hash;
    let mut rows: Vec<Row> = Vec::new();
    let mut i: usize = 0;
    while i < block.txdata.len()
        invariant
            0 <= i <= block.txdata@.len(),
            rows_view(rows@) == txs_rows(block.txdata@.subrange(0, i as int), blockhash@),
            all_well_formed(rows_view(rows@)),
        decreases block.txdata.len() - i,
    {
        let mut tx_rows = index_transaction(&block.txdata[i], blockhash);
        let ghost before = rows_view(rows@);
        let ghost added = rows_view(tx_rows@);
        rows.append(&mut tx_rows);
        proof {
            let s = block.txdata@.subrange(0, i + 1);
            assert(s.drop_last() =~= block.txdata@.subrange(0, i as int));
            assert(s.last() == block.txdata@[i as int]);
            assert(rows_view(rows@) =~= before + added);
            lemma_concat_well_formed(before, added);
        }
        i = i + 1;
    }
    assert(block.txdata@.subrange(0, i as int) =~= block.txdata@);
    let key = BlockKey::new(blockhash).to_bytes();
    let brow = Row { key, value: vstd::slice::slice_to_vec(block.header.raw.as_slice()) };
    let ghost before = rows_view(rows@);
    proof {
        assert(brow.key@[0] == BLOCK_CODE);
        lemma_concat_well_formed(before, seq![brow@]);
    }
    rows.push(brow);
    assert(rows_view(rows@) =~= before + seq![brow@]);
    assert(rows_view(rows@) =~= block_rows(*block));
    rows
}

/// The `L` row: every block up to `blockhash` is indexed.
pub fn last_indexed_block(blockhash: &FullHash) -> (r: Row)
    ensures
        r.key@ == seq![LAST_CODE],
        r.value@ == blockhash@,
{
    Row { key: vec![LAST_CODE], value: vstd::slice::slice_to_vec(blockhash) }
}

/// The hash that the `L` row names, all-zero when there is none.
pub open spec fn latest_indexed<S: ReadStore>(store: &S) -> Seq<u8> {
    match store.lookup(seq![LAST_CODE]) {
        Some(v) => v,
        None => null_hash_spec(),
    }
}

/// `header` is stored in a `B` row under its hash.
pub open spec fn stored_header<S: ReadStore>(store: &S, header: crate::headers::BlockHeaderView) -> bool {
    &&& store.lookup(seq![BLOCK_CODE] + header.hash) == Some(header.raw)
    &&& header.raw.len() == crate::headers::HEADER_LEN
    &&& header.prev_blockhash == header.raw.subrange(4, 36)
}

/// The hashes of all indexed blocks.
pub fn read_indexed_blockhashes<S: ReadStore>(store: &S) -> (r: Vec<FullHash>)
    requires
        store.store_wf(),
    ensures
        forall|i: int| 0 <= i < r@.len() ==> store.lookup(seq![BLOCK_CODE] + (#[trigger] r@[i])@) is Some,
        forall|h: FullHash| #[trigger] store.lookup(seq![BLOCK_CODE] + h@) is Some ==> exists|i: int|
            0 <= i < r@.len() && r@[i] == h,
{
    let prefix: Bytes = vec![BLOCK_CODE];
    assert(prefix@ =~= seq![BLOCK_CODE]);
    let rows = store.scan(prefix.as_slice());
    let ghost rv = rows_view(rows@);
    let mut result: Vec<FullHash> = Vec::new();
    let mut i: usize = 0;
    while i < rows.len()
        invariant
            rv == rows_view(rows@),
            prefix@ == seq![BLOCK_CODE],
            crate::store::is_scan_of(|k: Seq<u8>| store.lookup(k), prefix@, rv),
            0 <= i <= rows@.len(),
            forall|j: int| 0 <= j < result@.len() ==> store.lookup(seq![BLOCK_CODE] + (#[trigger] result@[j])@) is Some,
            forall|j: int| 0 <= j < i && (#[trigger] rv[j]).0.len() == HASH_KEY_LEN ==> exists|m: int|
                0 <= m < result@.len() && seq![BLOCK_CODE] + result@[m]@ == rv[j].0,
        decreases rows.len() - i,
    {
        assert(rv[i as int] == rows@[i as int]@);
        let key = rows[i].key.as_slice();
        let ghost old_result = result@;
        if key.len() == HASH_KEY_LEN {
            let bk = BlockKey::from_bytes(key);
            assert(is_prefix(prefix@, rv[i as int].0));
            assert(rv[i as int].0.subrange(0, 1)[0] == rv[i as int].0[0]);
            assert(seq![BLOCK_CODE] + bk.hash@ =~= rv[i as int].0);
            result.push(bk.hash);
            assert(result@[result@.len() - 1] == bk.hash);
        }
        assert forall|j: int| 0 <= j < i + 1 && (#[trigger] rv[j]).0.len() == HASH_KEY_LEN implies exists|m: int|
            0 <= m < result@.len() && seq![BLOCK_CODE] + result@[m]@ == rv[j].0 by {
            if j < i {
                let m = choose|m: int| 0 <= m < old_result.len() && seq![BLOCK_CODE] + old_result[m]@ == rv[j].0;
                assert(result@[m] == old_result[m]);
            } else {
                assert(result@[result@.len() - 1]@ == result@[result@.len() - 1]@);
            }
        }
        i = i + 1;
    }
    assert forall|h: FullHash| #[trigger] store.lookup(seq![BLOCK_CODE] + h@) is Some implies exists|i: int|
        0 <= i < result@.len() && result@[i] == h by {
        let k = seq![BLOCK_CODE] + h@;
        assert(k.subrange(0, 1) =~= prefix@);
        assert(is_prefix(prefix@, k));
        assert((|k: Seq<u8>| store.lookup(k))(k) is Some);
        let j = choose|j: int| 0 <= j < rv.len() && (#[trigger] rv[j]).0 == k;
        assert(rv[j].0.len() == HASH_KEY_LEN);
        let m = choose|m: int| 0 <= m < result@.len() && seq![BLOCK_CODE] + result@[m]@ == rv[j].0;
        assert(result@[m]@ =~= h@) by {
            assert(result@[m]@ =~= (seq![BLOCK_CODE] + result@[m]@).subrange(1, 33));
            assert(h@ =~= k.subrange(1, 33));
        }
        assert(result@[m] =~= h);
    }
    result
}

/// Every `B` row has a 33-byte key and an 80-byte header.
pub open spec fn block_rows_well_formed<S: ReadStore>(store: &S) -> bool {
    forall|k: Seq<u8>|
        k.len() > 0 && k[0] == BLOCK_CODE && (#[trigger] store.lookup(k)) is Some ==> k.len() == 33
            && store.lookup(k)->Some_0.len() == crate::headers::HEADER_LEN
}

/// `hs` is a chain of stored headers, without repeated hashes, from a first block
/// whose parent is all-zero to the block that `L` names.
pub open spec fn is_stored_chain<S: ReadStore>(store: &S, hs: Seq<crate::headers::BlockHeaderView>) -> bool {
    &&& forall|i: int|
        0 <= i < hs.len() ==> stored_header(store, #[trigger] hs[i]) && hs[i].hash.len() == 32 && hs[i].hash
            != null_hash_spec()
    &&& hs.len() > 0 ==> hs[0].prev_blockhash == null_hash_spec()
    &&& forall|i: int| 0 < i < hs.len() ==> #[trigger] hs[i].prev_blockhash == hs[i - 1].hash
    &&& forall|i: int, j: int| 0 <= i < j < hs.len() ==> (#[trigger] hs[i]).hash != (#[trigger] hs[j]).hash
    &&& hs.len() == 0 ==> latest_indexed(store) == null_hash_spec()
    &&& hs.len() > 0 ==> latest_indexed(store) == hs.last().hash
}

/// An `L` row, if any, holds a 32-byte hash.
pub open spec fn last_row_ok<S: ReadStore>(store: &S) -> bool {
    store.lookup(seq![LAST_CODE]) matches Some(v) ==> v.len() == 32
}

/// The headers of `list`, in height order, are `hs`.
pub open spec fn headers_are(list: HeaderList, hs: Seq<crate::headers::BlockHeaderView>) -> bool {
    &&& list.entries().len() == hs.len()
    &&& forall|i: int| 0 <= i < hs.len() ==> #[trigger] list.entries()[i].header == hs[i]
}

/// `s` is a run of stored headers, each naming the one before as parent, the last
/// being the block that `L` names.
pub open spec fn is_stored_run<S: ReadStore>(store: &S, s: Seq<crate::headers::BlockHeaderView>) -> bool {
    &&& forall|i: int|
        0 <= i < s.len() ==> stored_header(store, #[trigger] s[i]) && s[i].hash.len() == 32 && s[i].hash
            != null_hash_spec()
    &&& forall|i: int| 0 < i < s.len() ==> #[trigger] s[i].prev_blockhash == s[i - 1].hash
    &&& s.len() > 0 ==> latest_indexed(store) == s.last().hash
}

/// The parent hash that the walk back from `L` along `gs` reaches last.
pub open spec fn gap_hash<S: ReadStore>(store: &S, gs: Seq<crate::headers::BlockHeaderView>) -> Seq<u8> {
    if gs.len() == 0 {
        latest_indexed(store)
    } else {
        gs[0].prev_blockhash
    }
}

/// Walking back from `L` along the stored headers `gs` (no hash repeated) reaches a
/// non-zero parent hash that has no `B` row: a gap in the indexed chain.
pub open spec fn is_gapped_chain<S: ReadStore>(store: &S, gs: Seq<crate::headers::BlockHeaderView>) -> bool {
    &&& is_stored_run(store, gs)
    &&& forall|i: int, j: int| 0 <= i < j < gs.len() ==> (#[trigger] gs[i]).hash != (#[trigger] gs[j]).hash
    &&& gap_hash(store, gs) != null_hash_spec()
    &&& gap_hash(store, gs).len() == 32
    &&& store.lookup(seq![BLOCK_CODE] + gap_hash(store, gs)) is None
}

proof fn lemma_stored_chain_is_run<S: ReadStore>(store: &S, hs: Seq<crate::headers::BlockHeaderView>)
    requires
        is_stored_chain(store, hs),
    ensures
        is_stored_run(store, hs),
{
}

/// Two runs that end at the block `L` names agree from their ends backwards.
proof fn lemma_runs_agree<S: ReadStore>(
    store: &S,
    a: Seq<crate::headers::BlockHeaderView>,
    b: Seq<crate::headers::BlockHeaderView>,
    d: int,
)
    requires
        is_stored_run(store, a),
        is_stored_run(store, b),
        0 <= d < a.len(),
        d < b.len(),
    ensures
        a[a.len() - 1 - d] == b[b.len() - 1 - d],
    decreases d,
{
    let x = a[a.len() - 1 - d];
    let y = b[b.len() - 1 - d];
    if d > 0 {
        lemma_runs_agree(store, a, b, d - 1);
        assert(a[a.len() - d].prev_blockhash == x.hash);
        assert(b[b.len() - d].prev_blockhash == y.hash);
    }
    assert(x.hash == y.hash);
    assert(stored_header(store, x) && stored_header(store, y));
}

/// There is at most one stored chain.
pub proof fn lemma_stored_chain_unique<S: ReadStore>(
    store: &S,
    hs: Seq<crate::headers::BlockHeaderView>,
    gs: Seq<crate::headers::BlockHeaderView>,
)
    requires
        is_stored_chain(store, hs),
        is_stored_chain(store, gs),
    ensures
        hs == gs,
{
    lemma_stored_chain_is_run(store, hs);
    lemma_stored_chain_is_run(store, gs);
    let (n, m) = (hs.len() as int, gs.len() as int);
    if n == 0 || m == 0 {
        if n > 0 {
            assert(stored_header(store, hs[n - 1]));
        }
        if m > 0 {
            assert(stored_header(store, gs[m - 1]));
        }
    } else if n > m {
        lemma_runs_agree(store, hs, gs, m - 1);
        assert(hs[n - m].prev_blockhash == hs[n - m - 1].hash);
    } else if m > n {
        lemma_runs_agree(store, hs, gs, n - 1);
        assert(gs[m - n].prev_blockhash == gs[m - n - 1].hash);
    } else {
        assert forall|i: int| 0 <= i < n implies hs[i] == gs[i] by {
            lemma_runs_agree(store, hs, gs, n - 1 - i);
        }
        assert(hs =~= gs);
    }
}

/// A store cannot hold both a complete chain and a gap.
pub proof fn lemma_chain_excludes_gap<S: ReadStore>(
    store: &S,
    hs: Seq<crate::headers::BlockHeaderView>,
    gs: Seq<crate::headers::BlockHeaderView>,
)
    requires
        is_stored_chain(store, hs),
    ensures
        !is_gapped_chain(store, gs),
{
    lemma_stored_chain_is_run(store, hs);
    if is_gapped_chain(store, gs) {
        let (n, m) = (hs.len() as int, gs.len() as int);
        if m == 0 {
            if n > 0 {
                assert(stored_header(store, hs[n - 1]));
            }
        } else if n == 0 {
        } else if n >= m {
            lemma_runs_agree(store, hs, gs, m - 1);
            if n > m {
                assert(hs[n - m].prev_blockhash == hs[n - m - 1].hash);
                assert(stored_header(store, hs[n - m - 1]));
            }
        } else {
            lemma_runs_agree(store, hs, gs, n - 1);
            assert(gs[m - n].prev_blockhash == gs[m - n - 1].hash);
        }
    }
}

/// Position in `headers` of the header of block `hash`.
fn find_header(headers: &Vec<BlockHeader>, hash: &FullHash) -> (r: Option<usize>)
    ensures
        r matches Some(k) ==> k < headers@.len() && headers@[k as int].hash@ == hash@,
        r is None ==> forall|j: int| 0 <= j < headers@.len() ==> (#[trigger] headers@[j]).hash@ != hash@,
{
    let mut k: usize = 0;
    while k < headers.len()
        invariant
            0 <= k <= headers@.len(),
            forall|j: int| 0 <= j < k ==> (#[trigger] headers@[j]).hash@ != hash@,
        decreases headers.len() - k,
    {
        if crate::util::same_hash(&headers[k].hash, hash) {
            return Some(k);
        }
        k = k + 1;
    }
    None
}

/// The chain of indexed headers: from the block named by `L` back to the first block.
///
/// A gap in the chain, a parent without its `B` row, breaks the index's invariant. It
/// is reported as `Error::MissingHeader` instead of a panic, and the caller stops there.
pub fn read_indexed_headers<S: ReadStore>(store: &S) -> (r: Result<HeaderList, Error>)
    requires
        store.store_wf(),
    ensures
        r matches Ok(list) ==> {
            &&& list.wf()
            &&& list.tip_spec() == latest_indexed(store)
            &&& forall|i: int| 0 <= i < list.entries().len() ==> stored_header(store, #[trigger] list.entries()[i].header)
        },
        store.lookup(seq![LAST_CODE]) matches Some(v) && v.len() != 32 ==> r == Err::<HeaderList, Error>(Error::CorruptRow),
        block_rows_well_formed(store) && (exists|hs: Seq<crate::headers::BlockHeaderView>| is_stored_chain(store, hs))
            ==> r is Ok,
        block_rows_well_formed(store) ==> forall|hs: Seq<crate::headers::BlockHeaderView>|
            #[trigger] is_stored_chain(store, hs) ==> r is Ok && headers_are(r->Ok_0, hs),
        block_rows_well_formed(store) && last_row_ok(store) && (exists|gs: Seq<crate::headers::BlockHeaderView>|
            is_gapped_chain(store, gs)) ==> r == Err::<HeaderList, Error>(Error::MissingHeader),
{
    let ghost good = block_rows_well_formed(store) && exists|hs: Seq<crate::headers::BlockHeaderView>|
        is_stored_chain(store, hs);
    let ghost gapped = block_rows_well_formed(store) && last_row_ok(store) && exists|gs: Seq<crate::headers::BlockHeaderView>|
        is_gapped_chain(store, gs);
    let ghost hs = if good {
        choose|hs: Seq<crate::headers::BlockHeaderView>| is_stored_chain(store, hs)
    } else if gapped {
        choose|gs: Seq<crate::headers::BlockHeaderView>| is_gapped_chain(store, gs)
    } else {
        Seq::empty()
    };
    proof {
        if good && gapped {
            let g = choose|gs: Seq<crate::headers::BlockHeaderView>| is_gapped_chain(store, gs);
            lemma_chain_excludes_gap(store, hs, g);
        }
    }
    let last_key: Bytes = vec![LAST_CODE];
    assert(last_key@ =~= seq![LAST_CODE]);
    let latest: FullHash = match store.get(last_key.as_slice()) {
        Some(v) => {
            if v.len() != 32 {
                proof {
                    if good {
                        if hs.len() > 0 {
                            assert(stored_header(store, hs[hs.len() - 1]));
                        }
                    }
                }
                return Err(Error::CorruptRow);
            }
            assert(v@.subrange(0, 32) =~= v@);
            full_hash(v.as_slice())
        },
        None => crate::util::null_hash(),
    };
    assert(latest@ == latest_indexed(store));
    let prefix: Bytes = vec![BLOCK_CODE];
    assert(prefix@ =~= seq![BLOCK_CODE]);
    let rows = store.scan(prefix.as_slice());
    let ghost rv = rows_view(rows@);
    let mut map: Vec<BlockHeader> = Vec::new();
    let mut i: usize = 0;
    while i < rows.len()
        invariant
            rv == rows_view(rows@),
            prefix@ == seq![BLOCK_CODE],
            store.lookup(seq![LAST_CODE]) matches Some(v) ==> v.len() == 32,
            crate::store::is_scan_of(|k: Seq<u8>| store.lookup(k), prefix@, rv),
            0 <= i <= rows@.len(),
            forall|j: int| 0 <= j < map@.len() ==> stored_header(store, #[trigger] map@[j]@),
            map@.len() == i,
            forall|j: int| 0 <= j < i ==> seq![BLOCK_CODE] + (#[trigger] map@[j]).hash@ == rv[j].0,
            good ==> block_rows_well_formed(store) && is_stored_chain(store, hs),
            good == (block_rows_well_formed(store) && exists|hs: Seq<crate::headers::BlockHeaderView>| is_stored_chain(store, hs)),
            gapped ==> block_rows_well_formed(store) && is_gapped_chain(store, hs),
            gapped == (block_rows_well_formed(store) && last_row_ok(store) && exists|gs: Seq<crate::headers::BlockHeaderView>|
                is_gapped_chain(store, gs)),
            !(good && gapped),
        decreases rows.len() - i,
    {
        assert(rv[i as int] == rows@[i as int]@);
        let key = rows[i].key.as_slice();
        proof {
            assert(is_prefix(prefix@, rv[i as int].0));
            assert(rv[i as int].0.subrange(0, 1)[0] == rv[i as int].0[0]);
            assert((|k: Seq<u8>| store.lookup(k))(rv[i as int].0) == Some(rv[i as int].1));
        }
        if key.len() != HASH_KEY_LEN {
            return Err(Error::CorruptRow);
        }
        let bk = BlockKey::from_bytes(key);
        match BlockHeader::parse(&bk.hash, rows[i].value.as_slice()) {
            Some(h) => {
                assert(seq![BLOCK_CODE] + h.hash@ =~= rv[i as int].0);
                let ghost before = map@;
                map.push(h);
                assert forall|j: int| 0 <= j < i + 1 implies seq![BLOCK_CODE] + (#[trigger] map@[j]).hash@ == rv[j].0 by {
                    if j < i {
                        assert(map@[j] == before[j]);
                    }
                }
            },
            None => {
                return Err(Error::CorruptRow);
            },
        }
        i = i + 1;
    }
    proof {
        if good || gapped {
            assert forall|m: int| #![trigger hs[m]] 0 <= m < hs.len() implies exists|j: int|
                0 <= j < map@.len() && (#[trigger] map@[j]).hash@ == hs[m].hash by {
                let key = seq![BLOCK_CODE] + hs[m].hash;
                assert(stored_header(store, hs[m]));
                assert(key.subrange(0, 1) =~= prefix@);
                assert((|k: Seq<u8>| store.lookup(k))(key) is Some);
                let j = choose|j: int| 0 <= j < rv.len() && (#[trigger] rv[j]).0 == key;
                assert(map@[j].hash@ =~= (seq![BLOCK_CODE] + map@[j].hash@).subrange(1, 33));
                assert(hs[m].hash =~= key.subrange(1, 33));
            }
        }
    }
    // Walk back from the latest block; each header is taken out of `map` once.
    let mut chain: Vec<BlockHeader> = Vec::new();
    let mut blockhash = latest;
    while !crate::util::is_null_hash(&blockhash)
        invariant
            forall|j: int| 0 <= j < map@.len() ==> stored_header(store, #[trigger] map@[j]@),
            forall|j: int| 0 <= j < chain@.len() ==> stored_header(store, #[trigger] chain@[j]@),
            chain@.len() == 0 ==> blockhash@ == latest@,
            latest@ == null_hash_spec() ==> chain@.len() == 0,
            store.lookup(seq![LAST_CODE]) matches Some(v) ==> v.len() == 32,
            chain@.len() > 0 ==> chain@[0].hash@ == latest@,
            chain@.len() > 0 ==> blockhash@ == chain@.last().prev_blockhash@,
            forall|j: int| 0 <= j < chain@.len() - 1 ==> (#[trigger] chain@[j]).prev_blockhash@ == chain@[j + 1].hash@,
            good ==> is_stored_chain(store, hs),
            good == (block_rows_well_formed(store) && exists|hs: Seq<crate::headers::BlockHeaderView>| is_stored_chain(store, hs)),
            gapped ==> is_gapped_chain(store, hs),
            gapped == (block_rows_well_formed(store) && last_row_ok(store) && exists|gs: Seq<crate::headers::BlockHeaderView>|
                is_gapped_chain(store, gs)),
            !(good && gapped),
            (good || gapped) ==> is_stored_run(store, hs),
            (good || gapped) ==> forall|a: int, b: int| 0 <= a < b < hs.len() ==> (#[trigger] hs[a]).hash != (#[trigger] hs[b]).hash,
            (good || gapped) ==> chain@.len() <= hs.len(),
            (good || gapped) ==> (chain@.len() < hs.len() ==> blockhash@ == hs[hs.len() - 1 - chain@.len()].hash),
            good ==> (chain@.len() == hs.len() ==> blockhash@ == null_hash_spec()),
            gapped ==> (chain@.len() == hs.len() ==> blockhash@ == gap_hash(store, hs)),
            (good || gapped) ==> forall|m: int| #![trigger hs[m]] 0 <= m < hs.len() - chain@.len() ==> exists|j: int|
                0 <= j < map@.len() && (#[trigger] map@[j]).hash@ == hs[m].hash,
            (good || gapped) ==> forall|c: int| 0 <= c < chain@.len() ==> (#[trigger] chain@[c])@ == hs[hs.len() - 1 - c],
        decreases map@.len(),
    {
        let ghost t = chain@.len() as int;
        let ghost n = hs.len() as int;
        let k = match find_header(&map, &blockhash) {
            Some(k) => k,
            None => {
                proof {
                    if good {
                        assert(blockhash@ != null_hash_spec());
                        assert(t < n);
                        assert(blockhash@ == hs[n - 1 - t].hash);
                        assert(0 <= n - 1 - t < n - t);
                        assert(exists|j: int| 0 <= j < map@.len() && (#[trigger] map@[j]).hash@ == hs[n - 1 - t].hash);
                        let j = choose|j: int| 0 <= j < map@.len() && (#[trigger] map@[j]).hash@ == hs[n - 1 - t].hash;
                        assert(map@[j].hash@ != blockhash@);
                    }
                }
                return Err(Error::MissingHeader);
            },
        };
        let ghost mp = map@;
        let h = map.remove(k);
        proof {
            if gapped && t == n {
                assert(stored_header(store, mp[k as int]@));
            }
            if good || gapped {
                if good {
                    lemma_stored_chain_is_run(store, hs);
                }
                let cur = hs[n - 1 - t];
                assert(h@ == cur);
                assert(stored_header(store, cur));
                assert(stored_header(store, mp[k as int]@));
                assert(h.raw@ == cur.raw);
                assert forall|m: int| #![trigger hs[m]] 0 <= m < n - (t + 1) implies exists|j: int|
                    0 <= j < map@.len() && (#[trigger] map@[j]).hash@ == hs[m].hash by {
                    let j = choose|j: int| 0 <= j < mp.len() && (#[trigger] mp[j]).hash@ == hs[m].hash;
                    assert(hs[m].hash != hs[n - 1 - t].hash);
                    if j < k {
                        assert(map@[j] == mp[j]);
                    } else {
                        assert(map@[j - 1] == mp[j]);
                    }
                }
                if n - 1 - t > 0 {
                    assert(hs[n - 1 - t].prev_blockhash == hs[n - 2 - t].hash);
                }
            }
        }
        assert(stored_header(store, mp[k as int]@));
        assert forall|j: int| 0 <= j < map@.len() implies stored_header(store, #[trigger] map@[j]@) by {
            if j < k {
                assert(map@[j] == mp[j]);
            } else {
                assert(map@[j] == mp[j + 1]);
            }
        }
        blockhash = h.prev_blockhash;
        let ghost hv = h@;
        let ghost old_chain = chain@;
        chain.push(h);
        proof {
            if good || gapped {
                assert forall|c: int| 0 <= c < chain@.len() implies (#[trigger] chain@[c])@ == hs[hs.len() - 1 - c] by {
                    if c < old_chain.len() {
                        assert(chain@[c] == old_chain[c]);
                    }
                }
            }
        }
    }
    assert(!gapped);
    let n = chain.len();
    let mut ordered: Vec<BlockHeader> = Vec::new();
    let mut j: usize = 0;
    while j < n
        invariant
            n == chain@.len(),
            0 <= j <= n,
            ordered@.len() == j,
            forall|m: int| 0 <= m < j ==> (#[trigger] ordered@[m])@ == chain@[n - 1 - m]@,
        decreases n - j,
    {
        ordered.push(chain[n - 1 - j].copy());
        j = j + 1;
    }
    let mut result = HeaderList::empty();
    let entries = result.order(ordered);
    let ghost ev = crate::headers::entries_view(entries@);
    assert forall|m: int| 0 <= m < ev.len() implies ev[m].header == chain@[n - 1 - m]@ && ev[m].height == m by {
        assert(ev[m] == entries@[m]@);
    }
    assert forall|m: int| 0 < m < ev.len() implies #[trigger] ev[m].height == ev[m - 1].height + 1
        && ev[m].header.prev_blockhash == ev[m - 1].header.hash by {
        assert(chain@[n - 1 - m].prev_blockhash@ == chain@[n - 1 - m + 1].hash@);
    }
    assert(result.entries().len() == 0);
    assert(n > 0 ==> ev.last().header == chain@[0]@ && ev[0].header == chain@[n - 1]@);
    result.apply(entries, latest);
    assert forall|m: int| 0 <= m < result.entries().len() implies stored_header(store, #[trigger] result.entries()[m].header) by {
        assert(result.entries()[m] == ev[m]);
        assert(stored_header(store, chain@[n - 1 - m]@));
    }
    proof {
        if good {
            assert(n == hs.len());
            assert(result.entries() == ev);
            assert(headers_are(result, hs)) by {
                assert forall|m: int| 0 <= m < hs.len() implies #[trigger] result.entries()[m].header == hs[m] by {
                    assert(chain@[n - 1 - m]@ == hs[hs.len() - 1 - (n - 1 - m)]);
                }
            }
            assert forall|hs2: Seq<crate::headers::BlockHeaderView>| #[trigger] is_stored_chain(store, hs2) implies headers_are(
                result,
                hs2,
            ) by {
                lemma_stored_chain_unique(store, hs, hs2);
            }
        }
    }
    Ok(result)
}

/// The rows that indexing a batch of blocks writes: each block's rows followed by
/// its `L` row, so that `L` never names a block whose rows are not written.
pub open spec fn batch_rows(blocks: Seq<Block>) -> Seq<RowView>
    decreases blocks.len(),
{
    if blocks.len() == 0 {
        Seq::empty()
    } else {
        batch_rows(blocks.drop_last()) + block_rows(blocks.last()) + seq![
            (seq![LAST_CODE], blocks.last().header.hash@),
        ]
    }
}

/// Rows for a batch of fetched blocks, in order.
pub fn index_blocks(blocks: &Vec<Block>) -> (r: Vec<Row>)
    ensures
        rows_view(r@) == batch_rows(blocks@),
        all_well_formed(rows_view(r@)),
{
    let mut rows: Vec<Row> = Vec::new();
    let mut i: usize = 0;
    while i < blocks.len()
        invariant
            0 <= i <= blocks@.len(),
            rows_view(rows@) == batch_rows(blocks@.subrange(0, i as int)),
            all_well_formed(rows_view(rows@)),
        decreases blocks.len() - i,
    {
        let mut block_rows = index_block(&blocks[i]);
        let last = last_indexed_block(&blocks[i].header.hash);
        let ghost before = rows_view(rows@);
        let ghost added = rows_view(block_rows@);
        rows.append(&mut block_rows);
        rows.push(last);
        proof {
            let s = blocks@.subrange(0, i + 1);
            assert(s.drop_last() =~= blocks@.subrange(0, i as int));
            assert(s.last() == blocks@[i as int]);
            assert(rows_view(rows@) =~= before + added + seq![last@]);
            assert(last@.0 =~= seq![LAST_CODE]);
            lemma_concat_well_formed(before, added);
            lemma_concat_well_formed(before + added, seq![last@]);
        }
        i = i + 1;
    }
    assert(blocks@.subrange(0, i as int) =~= blocks@);
    rows
}

/// The hashes of `entries`, split into chunks of at most `batch_size`, in order.
pub fn chunk_blockhashes(entries: &Vec<HeaderEntry>, batch_size: usize) -> (r: Vec<Vec<FullHash>>)
    requires
        batch_size > 0,
    ensures
        forall|c: int| 0 <= c < r@.len() ==> 0 < (#[trigger] r@[c])@.len() <= batch_size,
        flatten_hashes(r@) == entries@.map_values(|e: HeaderEntry| e.header.hash),
{
    let mut chunks: Vec<Vec<FullHash>> = Vec::new();
    let mut current: Vec<FullHash> = Vec::new();
    let mut i: usize = 0;
    while i < entries.len()
        invariant
            batch_size > 0,
            0 <= i <= entries@.len(),
            current@.len() < batch_size,
            forall|c: int| 0 <= c < chunks@.len() ==> 0 < (#[trigger] chunks@[c])@.len() <= batch_size,
            flatten_hashes(chunks@) + current@ == entries@.subrange(0, i as int).map_values(
                |e: HeaderEntry| e.header.hash,
            ),
        decreases entries.len() - i,
    {
        current.push(entries[i].header.hash);
        assert(entries@.subrange(0, i + 1).map_values(|e: HeaderEntry| e.header.hash)
            =~= entries@.subrange(0, i as int).map_values(|e: HeaderEntry| e.header.hash).push(entries@[i as int].header.hash));
        if current.len() == batch_size {
            let ghost prev = chunks@;
            let full = current;
            current = Vec::new();
            chunks.push(full);
            assert(chunks@.drop_last() =~= prev);
            assert(flatten_hashes(chunks@) + current@ =~= flatten_hashes(prev) + full@);
        }
        i = i + 1;
    }
    assert(entries@.subrange(0, i as int) =~= entries@);
    if current.len() > 0 {
        let ghost prev = chunks@;
        let ghost last = current@;
        chunks.push(current);
        assert(chunks@.drop_last() =~= prev);
        assert(flatten_hashes(chunks@) =~= flatten_hashes(prev) + last);
    } else {
        assert(flatten_hashes(chunks@) + current@ =~= flatten_hashes(chunks@));
    }
    chunks
}

/// The chunks one after the other.
pub open spec fn flatten_hashes(chunks: Seq<Vec<FullHash>>) -> Seq<FullHash>
    decreases chunks.len(),
{
    if chunks.len() == 0 {
        Seq::empty()
    } else {
        flatten_hashes(chunks.drop_last()) + chunks.last()@
    }
}

/// The indexer: the chain of indexed headers and the size of a fetch batch.
pub struct Index {
    headers: HeaderList,
    batch_size: usize,
}

impl Index {
    pub open spec fn wf(&self) -> bool {
        self.headers().wf()
    }

    pub closed spec fn headers(&self) -> HeaderList {
        self.headers
    }

    pub closed spec fn batch_size_spec(&self) -> usize {
        self.batch_size
    }

    /// Loads the chain of indexed headers from `store`.
    pub fn load<S: ReadStore>(store: &S, batch_size: usize) -> (r: Result<Index, Error>)
        requires
            store.store_wf(),
        ensures
            r matches Ok(index) ==> {
                &&& index.wf()
                &&& index.headers().tip_spec() == latest_indexed(store)
                &&& index.batch_size_spec() == batch_size
                &&& forall|i: int|
                    0 <= i < index.headers().entries().len() ==> stored_header(
                        store,
                        #[trigger] index.headers().entries()[i].header,
                    )
            },
            store.lookup(seq![LAST_CODE]) matches Some(v) && v.len() != 32 ==> r is Err,
            block_rows_well_formed(store) && (exists|hs: Seq<crate::headers::BlockHeaderView>| is_stored_chain(store, hs))
                ==> r is Ok,
            block_rows_well_formed(store) ==> forall|hs: Seq<crate::headers::BlockHeaderView>|
                #[trigger] is_stored_chain(store, hs) ==> r is Ok && headers_are(r->Ok_0.headers(), hs),
            block_rows_well_formed(store) && last_row_ok(store) && (exists|gs: Seq<crate::headers::BlockHeaderView>|
                is_gapped_chain(store, gs)) ==> r == Err::<Index, Error>(Error::MissingHeader),
    {
        let headers = read_indexed_headers(store)?;
        Ok(Index { headers, batch_size })
    }

    /// Reloads the chain of indexed headers from `store`; on failure the chain is kept.
    pub fn reload<S: ReadStore>(&mut self, store: &S) -> (r: Result<(), Error>)
        requires
            old(self).wf(),
            store.store_wf(),
        ensures
            final(self).wf(),
            final(self).batch_size_spec() == old(self).batch_size_spec(),
            r is Err ==> final(self).headers() == old(self).headers(),
            r is Ok ==> final(self).headers().tip_spec() == latest_indexed(store),
            r is Ok ==> forall|i: int|
                0 <= i < final(self).headers().entries().len() ==> stored_header(
                    store,
                    #[trigger] final(self).headers().entries()[i].header,
                ),
            block_rows_well_formed(store) && (exists|hs: Seq<crate::headers::BlockHeaderView>| is_stored_chain(store, hs))
                ==> r is Ok,
            block_rows_well_formed(store) ==> forall|hs: Seq<crate::headers::BlockHeaderView>|
                #[trigger] is_stored_chain(store, hs) ==> r is Ok && headers_are(final(self).headers(), hs),
            block_rows_well_formed(store) && last_row_ok(store) && (exists|gs: Seq<crate::headers::BlockHeaderView>|
                is_gapped_chain(store, gs)) ==> r == Err::<(), Error>(Error::MissingHeader),
    {
        let headers = read_indexed_headers(store)?;
        self.headers = headers;
        Ok(())
    }

    pub fn batch_size(&self) -> (r: usize)
        ensures
            r == self.batch_size_spec(),
    {
        self.batch_size
    }

    /// The entry of the tip of the chain.
    pub fn best_header(&self) -> (r: Option<HeaderEntry>)
        requires
            self.wf(),
        ensures
            r is Some <==> self.headers().entries().len() > 0,
            r matches Some(e) ==> e@ == self.headers().entries().last(),
    {
        let n = self.headers.len();
        if n == 0 {
            return None;
        }
        self.headers.header_by_height(n - 1)
    }

    /// The entry at `height`.
    pub fn get_header(&self, height: usize) -> (r: Option<HeaderEntry>)
        ensures
            r is Some <==> height < self.headers().entries().len(),
            r matches Some(e) ==> e@ == self.headers().entries()[height as int],
    {
        self.headers.header_by_height(height)
    }

    /// The entry of the block whose hash is `block_hash`.
    pub fn get_header_by_block_hash(&self, block_hash: &FullHash) -> (r: Option<HeaderEntry>)
        ensures
            r is Some <==> exists|i: int|
                0 <= i < self.headers().entries().len()
                    && (#[trigger] self.headers().entries()[i]).header.hash == block_hash@,
            r matches Some(e) ==> e.header.hash@ == block_hash@ && exists|i: int|
                0 <= i < self.headers().entries().len() && (#[trigger] self.headers().entries()[i]) == e@,
    {
        let r = self.headers.header_by_blockhash(block_hash);
        assert(self.headers() == self.headers);
        r
    }

    /// Heights for headers newly reported by the daemon, following the indexed chain.
    pub fn order(&self, new_headers: Vec<BlockHeader>) -> (r: Vec<HeaderEntry>)
        requires
            self.headers().entries().len() + new_headers@.len() <= usize::MAX,
        ensures
            r@.len() == new_headers@.len(),
            forall|i: int| 0 <= i < r@.len() ==> (#[trigger] r@[i]).height == self.headers().entries().len() + i
                && r@[i].header@ == new_headers@[i]@,
    {
        self.headers.order(new_headers)
    }

    /// Ends an update once the rows of `new_headers` are written: moves the chain to
    /// `tip`. Headers that do not extend the chain are refused and change nothing.
    pub fn finish_update(&mut self, new_headers: Vec<HeaderEntry>, tip: FullHash) -> (r: Result<FullHash, Error>)
        requires
            old(self).wf(),
        ensures
            final(self).wf(),
            final(self).batch_size_spec() == old(self).batch_size_spec(),
            r is Ok <==> crate::headers::fits(
                old(self).headers().entries(),
                old(self).headers().tip_spec(),
                crate::headers::entries_view(new_headers@),
                tip@,
            ),
            r is Err ==> r == Err::<FullHash, Error>(Error::HeaderMismatch) && final(self).headers() == old(self).headers(),
            r matches Ok(t) ==> t == tip && final(self).headers().tip_spec() == tip@,
    {
        if !self.headers.check_fits(&new_headers, &tip) {
            return Err(Error::HeaderMismatch);
        }
        self.headers.apply(new_headers, tip);
        Ok(tip)
    }
}

/// Decoding an `I` row's key gives back the row: keys determine rows.
pub proof fn lemma_txin_row_round_trip(row: TxInRow, decoded: TxInRow)
    requires
        decoded.encoding() == row.encoding(),
    ensures
        decoded.key.code == row.key.code,
        decoded.key.prev_txid_prefix == row.key.prev_txid_prefix,
        decoded.key.prev_vout == row.key.prev_vout,
        decoded.txid_prefix == row.txid_prefix,
{
    let (a, b) = (decoded.encoding(), row.encoding());
    assert(decoded.key.prev_txid_prefix@ =~= a.subrange(1, 9));
    assert(row.key.prev_txid_prefix@ =~= b.subrange(1, 9));
    assert(decoded.txid_prefix@ =~= a.subrange(11, 19));
    assert(row.txid_prefix@ =~= b.subrange(11, 19));
    assert(a.subrange(9, 11) =~= u16_le(decoded.key.prev_vout));
    assert(b.subrange(9, 11) =~= u16_le(row.key.prev_vout));
    assert(a[0] == decoded.key.code && b[0] == row.key.code);
    lemma_u16_le_injective_at(decoded.key.prev_vout, row.key.prev_vout, a, b, 9);
    assert(decoded.key.prev_txid_prefix =~= row.key.prev_txid_prefix);
    assert(decoded.txid_prefix =~= row.txid_prefix);
}

/// Decoding an `O` row's key gives back the row: keys determine rows.
pub proof fn lemma_txout_row_round_trip(row: TxOutRow, decoded: TxOutRow)
    requires
        decoded.encoding() == row.encoding(),
    ensures
        decoded.key.code == row.key.code,
        decoded.key.script_hash_prefix == row.key.script_hash_prefix,
        decoded.txid_prefix == row.txid_prefix,
        decoded.vout == row.vout,
{
    let (a, b) = (decoded.encoding(), row.encoding());
    assert(decoded.key.script_hash_prefix@ =~= a.subrange(1, 9));
    assert(row.key.script_hash_prefix@ =~= b.subrange(1, 9));
    assert(decoded.txid_prefix@ =~= a.subrange(9, 17));
    assert(row.txid_prefix@ =~= b.subrange(9, 17));
    assert(a.subrange(17, 19) =~= u16_le(decoded.vout));
    assert(b.subrange(17, 19) =~= u16_le(row.vout));
    assert(a[0] == decoded.key.code && b[0] == row.key.code);
    lemma_u16_le_injective_at(decoded.vout, row.vout, a, b, 17);
    assert(decoded.key.script_hash_prefix =~= row.key.script_hash_prefix);
    assert(decoded.txid_prefix =~= row.txid_prefix);
}

/// Decoding a `T` row gives back the row.
pub proof fn lemma_tx_row_round_trip(row: TxRow, decoded: TxRow)
    requires
        decoded.key_encoding() == row.key_encoding(),
        decoded.block_hash@ == row.block_hash@,
    ensures
        decoded.key.code == row.key.code,
        decoded.key.txid == row.key.txid,
        decoded.block_hash == row.block_hash,
{
    assert(decoded.key.txid@ =~= decoded.key_encoding().subrange(1, 33));
    assert(row.key.txid@ =~= row.key_encoding().subrange(1, 33));
    assert(decoded.key_encoding()[0] == decoded.key.code);
    assert(row.key_encoding()[0] == row.key.code);
    assert(decoded.key.txid =~= row.key.txid);
    assert(decoded.block_hash =~= row.block_hash);
}

/// Decoding a `B` key gives back the key.
pub proof fn lemma_block_key_round_trip(key: BlockKey, decoded: BlockKey)
    requires
        decoded.encoding() == key.encoding(),
    ensures
        decoded == key,
{
    assert(decoded.hash@ =~= decoded.encoding().subrange(1, 33));
    assert(key.hash@ =~= key.encoding().subrange(1, 33));
    assert(decoded.encoding()[0] == decoded.code);
    assert(key.encoding()[0] == key.code);
    assert(decoded.hash =~= key.hash);
}

/// Two values with the same little-endian bytes are equal.
pub proof fn lemma_u16_le_injective(x: u16, y: u16)
    requires
        u16_le(x) == u16_le(y),
    ensures
        x == y,
{
    assert(u16_le(x)[0] == u16_le(y)[0]);
    assert(u16_le(x)[1] == u16_le(y)[1]);
    assert(x == (x / 256) * 256 + x % 256);
    assert(y == (y / 256) * 256 + y % 256);
}

proof fn lemma_u16_le_injective_at(x: u16, y: u16, a: Seq<u8>, b: Seq<u8>, at: int)
    requires
        a == b,
        0 <= at,
        at + 2 <= a.len(),
        a.subrange(at, at + 2) == u16_le(x),
        b.subrange(at, at + 2) == u16_le(y),
    ensures
        x == y,
{
    assert(u16_le(x) =~= a.subrange(at, at + 2));
    assert(u16_le(y) =~= b.subrange(at, at + 2));
    lemma_u16_le_injective(x, y);
}

} // verus!
