use vstd::prelude::*;

use bitcoin_hashes::hex::FromHex;
use bitcoin_hashes::sha256d::Hash as Sha256dHash;
use bitcoin_hashes::Hash as HashTrait;
use crypto::digest::Digest;
use crypto::sha2::Sha256;

use crate::util::FullHash;

verus! {

/// The single SHA-256 digest of `data`.
pub uninterp spec fn sha256_of(data: Seq<u8>) -> Seq<u8>;

/// Computes the script hash of a `scriptPubKey`: its single SHA-256 digest.
///
/// Relies on rust-crypto's `Sha256` (`input`, then `result` into a 32-byte buffer).
#[verifier::external_body]
pub fn compute_script_hash(data: &[u8]) -> (r: FullHash)
    ensures
        r@ == sha256_of(data@),
{
    let mut hash: FullHash = [0u8; 32];
    let mut sha2 = Sha256::new();
    sha2.input(data);
    sha2.result(&mut hash);
    hash
}

pub open spec fn is_hex_digit(c: char) -> bool {
    ('0' <= c && c <= '9') || ('a' <= c && c <= 'f') || ('A' <= c && c <= 'F')
}

pub open spec fn hex_value(c: char) -> int {
    if '0' <= c && c <= '9' {
        c as int - '0' as int
    } else if 'a' <= c && c <= 'f' {
        c as int - 'a' as int + 10
    } else {
        c as int - 'A' as int + 10
    }
}

/// `s` spells a 32-byte hash: 64 hexadecimal digits.
pub open spec fn is_hash_hex(s: Seq<char>) -> bool {
    s.len() == 64 && forall|i: int| 0 <= i < 64 ==> is_hex_digit(#[trigger] s[i])
}

/// The hash that `s` spells in display order: the last digit pair is the first byte.
pub open spec fn hash_of_hex(s: Seq<char>) -> Seq<u8> {
    Seq::new(32, |i: int| (hex_value(s[62 - 2 * i]) * 16 + hex_value(s[63 - 2 * i])) as u8)
}

/// Parses a hash written in display (byte-reversed) hexadecimal.
///
/// Relies on bitcoin_hashes' `FromHex` for `sha256d::Hash`: an odd length, a length
/// other than 64 digits or a non-hexadecimal byte is an error; otherwise digit pairs
/// are read from the end of the string.
#[verifier::external_body]
pub(crate) fn hash_from_hex(s: &str) -> (r: Option<FullHash>)
    ensures
        r is Some <==> is_hash_hex(s@),
        r matches Some(h) ==> h@ == hash_of_hex(s@),
{
    match Sha256dHash::from_hex(s) {
        Ok(h) => Some(h.into_inner()),
        Err(_) => None,
    }
}

} // verus!
