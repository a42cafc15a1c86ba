use vstd::prelude::*;

verus! {

/// Length of the fingerprint of a hash stored in `I` and `O` rows.
pub const HASH_PREFIX_LEN: usize = 8;

/// A 32-byte hash: block hash, transaction id or script hash.
pub type FullHash = [u8; 32];

/// The first bytes of a `FullHash`.
pub type HashPrefix = [u8; 8];

/// Bytes stored in keys and values.
pub type Bytes = Vec<u8>;

/// The all-zero hash, standing for "no block" (and for mempool rows).
pub open spec fn null_hash_spec() -> Seq<u8> {
    Seq::new(32, |i: int| 0u8)
}

/// Returns the all-zero hash.
pub fn null_hash() -> (r: FullHash)
    ensures
        r@ == null_hash_spec(),
{
    let r: FullHash = [0u8; 32];
    assert(r@ =~= null_hash_spec());
    r
}

/// Takes the first `HASH_PREFIX_LEN` bytes of `hash`.
pub fn hash_prefix(hash: &[u8]) -> (r: HashPrefix)
    requires
        hash@.len() >= HASH_PREFIX_LEN,
    ensures
        r@ == hash@.subrange(0, 8),
{
    let mut r: HashPrefix = [0u8; 8];
    let mut i: usize = 0;
    while i < 8
        invariant
            0 <= i <= 8,
            hash@.len() >= 8,
            forall|j: int| 0 <= j < i ==> r@[j] == hash@[j],
        decreases 8 - i,
    {
        r[i] = hash[i];
        i = i + 1;
    }
    assert(r@ =~= hash@.subrange(0, 8));
    r
}

/// Copies the first 32 bytes of `hash`.
pub fn full_hash(hash: &[u8]) -> (r: FullHash)
    requires
        hash@.len() >= 32,
    ensures
        r@ == hash@.subrange(0, 32),
{
    let mut r: FullHash = [0u8; 32];
    let mut i: usize = 0;
    while i < 32
        invariant
            0 <= i <= 32,
            hash@.len() >= 32,
            forall|j: int| 0 <= j < i ==> r@[j] == hash@[j],
        decreases 32 - i,
    {
        r[i] = hash[i];
        i = i + 1;
    }
    assert(r@ =~= hash@.subrange(0, 32));
    r
}

/// Whether two hashes are equal.
pub fn same_hash(a: &FullHash, b: &FullHash) -> (r: bool)
    ensures
        r == (a@ == b@),
{
    let mut i: usize = 0;
    while i < 32
        invariant
            0 <= i <= 32,
            forall|j: int| 0 <= j < i ==> a@[j] == b@[j],
        decreases 32 - i,
    {
        if a[i] != b[i] {
            return false;
        }
        i = i + 1;
    }
    assert(a@ =~= b@);
    true
}

/// Whether `hash` is the all-zero hash.
pub fn is_null_hash(hash: &FullHash) -> (r: bool)
    ensures
        r == (hash@ == null_hash_spec()),
{
    let z = null_hash();
    same_hash(hash, &z)
}

/// Little-endian bytes of a `u16`.
pub open spec fn u16_le(v: u16) -> Seq<u8> {
    seq![(v % 256) as u8, (v / 256) as u8]
}

/// Appends the bytes of `b` to `v`.
pub fn push_all(v: &mut Bytes, b: &[u8])
    ensures
        final(v)@ == old(v)@ + b@,
{
    let ghost pre = v@;
    let mut i: usize = 0;
    while i < b.len()
        invariant
            0 <= i <= b@.len(),
            v@ == pre + b@.subrange(0, i as int),
        decreases b.len() - i,
    {
        v.push(b[i]);
        i = i + 1;
        assert(v@ =~= pre + b@.subrange(0, i as int));
    }
    assert(b@.subrange(0, i as int) =~= b@);
}

/// Appends `x` to `v` in little-endian order.
pub fn push_u16_le(v: &mut Bytes, x: u16)
    ensures
        final(v)@ == old(v)@ + u16_le(x),
{
    v.push((x % 256) as u8);
    v.push((x / 256) as u8);
    assert(v@ =~= old(v)@ + u16_le(x));
}

/// Reads a `u16` from two little-endian bytes.
pub fn read_u16_le(lo: u8, hi: u8) -> (r: u16)
    ensures
        u16_le(r) == seq![lo, hi],
{
    let r: u16 = (lo as u16) + (hi as u16) * 256;
    assert(r % 256 == lo && r / 256 == hi) by (nonlinear_arith)
        requires
            r == lo as int + hi as int * 256,
            0 <= lo < 256,
            0 <= hi < 256,
    ;
    assert(u16_le(r) =~= seq![lo, hi]);
    r
}

} // verus!
