use vstd::prelude::*;
use vstd::string::StringSliceAdditionalSpecFns;

use crate::errors::Error;
use crate::hashes::{hash_from_hex, hash_of_hex, is_hash_hex};
use crate::lex::compare_bytes;
use crate::query::{SpendingInput, Status};
use crate::util::{same_hash, FullHash};

verus! {

/// Messages from a connection's reader to its writer.
pub enum Message {
    Request(String),
    Done,
}

/// Methods of the indexer's RPC interface.
#[derive(Clone, Copy, Debug, PartialEq, Eq, Structural)]
pub enum Method {
    HeadersSubscribe,
    GetBalance,
    GetHistory,
    GetOldestTx,
    GetUtxos,
    Ping,
    Version,
}

/// The name of `m` on the wire.
pub open spec fn wire_name(m: Method) -> &'static str {
    match m {
        Method::HeadersSubscribe => "blockchain.headers.subscribe",
        Method::GetBalance => "blockchain.scripthash.get_balance",
        Method::GetHistory => "blockchain.scripthash.get_history",
        Method::GetOldestTx => "blockchain.scripthash.get_oldest_tx",
        Method::GetUtxos => "blockchain.scripthash.get_utxos",
        Method::Ping => "server.ping",
        Method::Version => "server.version",
    }
}

impl Method {
    /// The method's name on the wire.
    pub fn name(&self) -> (r: &'static str)
        ensures
            r == wire_name(*self),
    {
        match self {
            Method::HeadersSubscribe => "blockchain.headers.subscribe",
            Method::GetBalance => "blockchain.scripthash.get_balance",
            Method::GetHistory => "blockchain.scripthash.get_history",
            Method::GetOldestTx => "blockchain.scripthash.get_oldest_tx",
            Method::GetUtxos => "blockchain.scripthash.get_utxos",
            Method::Ping => "server.ping",
            Method::Version => "server.version",
        }
    }
}

/// The method named `name`, if any.
pub fn parse_method(name: &str) -> (r: Option<Method>)
    ensures
        r matches Some(m) ==> name.spec_bytes() == wire_name(m).spec_bytes(),
        r is None ==> forall|m: Method| name.spec_bytes() != (#[trigger] wire_name(m)).spec_bytes(),
{
    let b = name.as_bytes();
    let all = [
        Method::HeadersSubscribe,
        Method::GetBalance,
        Method::GetHistory,
        Method::GetOldestTx,
        Method::GetUtxos,
        Method::Ping,
        Method::Version,
    ];
    let mut i: usize = 0;
    while i < 7
        invariant
            0 <= i <= 7,
            b@ == name.spec_bytes(),
            all@ == seq![
                Method::HeadersSubscribe,
                Method::GetBalance,
                Method::GetHistory,
                Method::GetOldestTx,
                Method::GetUtxos,
                Method::Ping,
                Method::Version,
            ],
            forall|j: int| 0 <= j < i ==> name.spec_bytes() != (#[trigger] wire_name(all@[j])).spec_bytes(),
        decreases 7 - i,
    {
        let m = all[i];
        if compare_bytes(b, m.name().as_bytes()) == 0 {
            return Some(m);
        }
        i = i + 1;
    }
    assert forall|m: Method| name.spec_bytes() != (#[trigger] wire_name(m)).spec_bytes() by {
        match m {
            Method::HeadersSubscribe => assert(all@[0] == m),
            Method::GetBalance => assert(all@[1] == m),
            Method::GetHistory => assert(all@[2] == m),
            Method::GetOldestTx => assert(all@[3] == m),
            Method::GetUtxos => assert(all@[4] == m),
            Method::Ping => assert(all@[5] == m),
            Method::Version => assert(all@[6] == m),
        }
    }
    None
}

/// The first bytes of a TLS handshake record.
pub open spec fn tls_prefix() -> Seq<u8> {
    seq![22u8, 3u8, 1u8]
}

/// Whether a request line starts like a TLS handshake, which this plain-text server
/// refuses.
pub fn is_tls_handshake(line: &[u8]) -> (r: bool)
    ensures
        r == crate::lex::is_prefix(tls_prefix(), line@),
{
    let prefix: [u8; 3] = [22u8, 3u8, 1u8];
    assert(prefix@ =~= tls_prefix());
    crate::lex::starts_with(line, &prefix)
}

/// Reads the script hash parameter of a request: 64 hexadecimal digits in display
/// order.
pub fn hash_from_value(val: Option<&str>) -> (r: Result<FullHash, Error>)
    ensures
        r is Ok <==> (val matches Some(s) && is_hash_hex(s@)),
        r matches Ok(h) ==> h@ == hash_of_hex(val->Some_0@),
        r is Err ==> r == Err::<FullHash, Error>(Error::BadScriptHash),
{
    match val {
        None => Err(Error::BadScriptHash),
        Some(s) => match hash_from_hex(s) {
            Some(h) => Ok(h),
            None => Err(Error::BadScriptHash),
        },
    }
}

/// Some entry of `v` is the outpoint `(t, n)`.
pub open spec fn has_outpoint(v: Seq<(FullHash, usize)>, t: Seq<u8>, n: usize) -> bool {
    exists|i: int| 0 <= i < v.len() && (#[trigger] v[i]).0@ == t && v[i].1 == n
}

/// Whether `(txid, vout)` is spent by one of `spending`.
fn is_spent(spending: &Vec<SpendingInput>, txid: &FullHash, vout: usize) -> (r: bool)
    ensures
        r <==> exists|k: int| 0 <= k < spending@.len() && (#[trigger] spending@[k]).outpoint.0@ == txid@ && spending@[k].outpoint.1 == vout,
{
    let mut k: usize = 0;
    while k < spending.len()
        invariant
            0 <= k <= spending@.len(),
            forall|j: int| 0 <= j < k ==> !((#[trigger] spending@[j]).outpoint.0@ == txid@ && spending@[j].outpoint.1 == vout),
        decreases spending.len() - k,
    {
        if same_hash(&spending[k].outpoint.0, txid) && spending[k].outpoint.1 == vout {
            return true;
        }
        k = k + 1;
    }
    false
}

fn has_outpoint_exec(v: &Vec<(FullHash, usize)>, txid: &FullHash, vout: usize) -> (r: bool)
    ensures
        r == has_outpoint(v@, txid@, vout),
{
    let mut k: usize = 0;
    while k < v.len()
        invariant
            0 <= k <= v@.len(),
            forall|j: int| 0 <= j < k ==> !((#[trigger] v@[j]).0@ == txid@ && v@[j].1 == vout),
        decreases v.len() - k,
    {
        if same_hash(&v[k].0, txid) && v[k].1 == vout {
            return true;
        }
        k = k + 1;
    }
    false
}

/// The unspent outputs of a status: every funding outpoint that no spending input
/// spends, each once, in funding order.
pub fn unspent_outpoints(status: &Status) -> (r: Vec<(FullHash, usize)>)
    ensures
        forall|t: Seq<u8>, n: usize| #[trigger] has_outpoint(r@, t, n) <==> (exists|i: int|
            0 <= i < status.funding_spec().len() && (#[trigger] status.funding_spec()[i]).txid@ == t
                && status.funding_spec()[i].vout == n) && !(exists|k: int|
            0 <= k < status.spending_spec().len() && (#[trigger] status.spending_spec()[k]).outpoint.0@ == t
                && status.spending_spec()[k].outpoint.1 == n),
        forall|a: int, b: int| 0 <= a < b < r@.len() ==> (#[trigger] r@[a]) != (#[trigger] r@[b]),
{
    let funding = status.funding();
    let spending = status.spending();
    let mut r: Vec<(FullHash, usize)> = Vec::new();
    let mut i: usize = 0;
    while i < funding.len()
        invariant
            funding@ == status.funding_spec(),
            spending@ == status.spending_spec(),
            0 <= i <= funding@.len(),
            forall|t: Seq<u8>, n: usize| #[trigger] has_outpoint(r@, t, n) <==> (exists|j: int|
                0 <= j < i && (#[trigger] funding@[j]).txid@ == t && funding@[j].vout == n) && !(exists|k: int|
                0 <= k < spending@.len() && (#[trigger] spending@[k]).outpoint.0@ == t && spending@[k].outpoint.1 == n),
            forall|a: int, b: int| 0 <= a < b < r@.len() ==> (#[trigger] r@[a]) != (#[trigger] r@[b]),
        decreases funding.len() - i,
    {
        let f = funding[i];
        let ghost prev = r@;
        if !is_spent(&spending, &f.txid, f.vout) && !has_outpoint_exec(&r, &f.txid, f.vout) {
            r.push((f.txid, f.vout));
            proof {
                assert forall|a: int, b: int| 0 <= a < b < r@.len() implies (#[trigger] r@[a]) != (#[trigger] r@[b]) by {
                    if b == r@.len() - 1 {
                        assert(r@[a] == prev[a]);
                        if r@[a] == r@[b] {
                            assert(has_outpoint(prev, f.txid@, f.vout));
                        }
                    } else {
                        assert(r@[a] == prev[a] && r@[b] == prev[b]);
                    }
                }
            }
        }
        proof {
            assert forall|t: Seq<u8>, n: usize| #[trigger] has_outpoint(r@, t, n) <==> (exists|j: int|
                0 <= j < i + 1 && (#[trigger] funding@[j]).txid@ == t && funding@[j].vout == n) && !(exists|k: int|
                0 <= k < spending@.len() && (#[trigger] spending@[k]).outpoint.0@ == t && spending@[k].outpoint.1 == n) by {
                if has_outpoint(r@, t, n) && r@.len() > prev.len() {
                    let a = choose|a: int| 0 <= a < r@.len() && (#[trigger] r@[a]).0@ == t && r@[a].1 == n;
                    if a < prev.len() {
                        assert(r@[a] == prev[a]);
                        assert(has_outpoint(prev, t, n));
                    }
                }
                if has_outpoint(prev, t, n) {
                    let a = choose|a: int| 0 <= a < prev.len() && (#[trigger] prev[a]).0@ == t && prev[a].1 == n;
                    assert(r@[a] == prev[a]);
                }
                if exists|j: int| 0 <= j < i + 1 && (#[trigger] funding@[j]).txid@ == t && funding@[j].vout == n {
                    let j = choose|j: int| 0 <= j < i + 1 && (#[trigger] funding@[j]).txid@ == t && funding@[j].vout == n;
                    if j < i {
                        assert(exists|j2: int| 0 <= j2 < i && (#[trigger] funding@[j2]).txid@ == t && funding@[j2].vout == n);
                    } else if r@.len() > prev.len() {
                        assert(r@[r@.len() - 1] == (f.txid, f.vout));
                    }
                }
            }
        }
        i = i + 1;
    }
    r
}

} // verus!
