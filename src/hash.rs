use vstd::prelude::*;

verus! {

/// The double SHA-256 digest of a byte string, as a sequence of bytes.
pub uninterp spec fn sha256d_of(data: Seq<u8>) -> Seq<u8>;

/// The parent of two nodes: the double SHA-256 of `left || right`.
pub open spec fn node_hash(left: Seq<u8>, right: Seq<u8>) -> Seq<u8> {
    sha256d_of(left + right)
}

/// Relies on bitcoin_hashes' `sha256d::Hash::hash`: the 32-byte double
/// SHA-256 digest of `data`, which depends on `data` alone.
#[verifier::external_body]
fn sha256d(data: &[u8]) -> (r: [u8; 32])
    ensures
        r@ == sha256d_of(data@),
{
    let digest = <bitcoin::hashes::sha256d::Hash as bitcoin::hashes::Hash>::hash(data);
    <bitcoin::hashes::sha256d::Hash as bitcoin::hashes::Hash>::to_byte_array(digest)
}

/// Whether two hashes hold the same bytes.
pub fn hashes_equal(a: &[u8; 32], b: &[u8; 32]) -> (r: bool)
    ensures
        r == (a@ == b@),
{
    let mut i: usize = 0;
    while i < 32
        invariant
            i <= 32,
            forall|k: int| 0 <= k < i ==> a@[k] == b@[k],
        decreases 32 - i,
    {
        if a[i] != b[i] {
            assert(a@[i as int] != b@[i as int]);
            return false;
        }
        i = i + 1;
    }
    assert(a@ =~= b@);
    true
}

/// Combines two nodes into their parent: the double SHA-256 of the 64 bytes
/// `left || right`.
pub fn hash_pairs(left: [u8; 32], right: [u8; 32]) -> (r: [u8; 32])
    ensures
        r@ == node_hash(left@, right@),
{
    let mut joined: Vec<u8> = Vec::with_capacity(64);
    let mut i: usize = 0;
    while i < 32
        invariant
            i <= 32,
            joined@ =~= left@.subrange(0, i as int),
        decreases 32 - i,
    {
        joined.push(left[i]);
        i = i + 1;
    }
    let mut j: usize = 0;
    while j < 32
        invariant
            j <= 32,
            joined@ =~= left@ + right@.subrange(0, j as int),
        decreases 32 - j,
    {
        joined.push(right[j]);
        j = j + 1;
    }
    assert(joined@ =~= left@ + right@);
    sha256d(joined.as_slice())
}

} // verus!
