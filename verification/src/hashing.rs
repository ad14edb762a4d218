use vstd::prelude::*;

verus! {

/// The 32-byte Blake2b-256 digest of a byte sequence. The digest is a
/// function of the input bytes alone; no short statement of its value
/// exists, so contracts refer to it by this name.
pub uninterp spec fn blake2_of(input: Seq<u8>) -> Seq<u8>;

/// Hash of a leaf of the commitment tree: the digest of one chunk's raw bytes.
pub open spec fn leaf_hash(data: Seq<u8>) -> Seq<u8> {
    blake2_of(data)
}

/// Hash of an inner node of the commitment tree: the digest of the two child
/// hashes concatenated, left child first.
pub open spec fn node_hash(left: Seq<u8>, right: Seq<u8>) -> Seq<u8> {
    blake2_of(left + right)
}

/// Relies on `sp_crypto_hashing::blake2_256`: returns the 32-byte Blake2b-256
/// digest of `data`, a pure function of the input bytes.
#[verifier::external_body]
pub fn blake2_256(data: &Vec<u8>) -> (r: Vec<u8>)
    ensures
        r@ == blake2_of(data@),
        r@.len() == 32,
{
    sp_crypto_hashing::blake2_256(data.as_slice()).to_vec()
}

/// Digest of the concatenation of two hashes: the inner-node rule of the
/// commitment tree.
pub fn combine(left: &Vec<u8>, right: &Vec<u8>) -> (r: Vec<u8>)
    ensures
        r@ == node_hash(left@, right@),
        r@.len() == 32,
{
    let mut buf: Vec<u8> = Vec::new();
    buf.extend_from_slice(left.as_slice());
    buf.extend_from_slice(right.as_slice());
    proof {
        assert(buf@ =~= left@ + right@);
    }
    blake2_256(&buf)
}

/// Byte-for-byte comparison of two byte vectors.
pub fn bytes_eq(a: &Vec<u8>, b: &Vec<u8>) -> (r: bool)
    ensures
        r == (a@ == b@),
{
    if a.len() != b.len() {
        return false;
    }
    let mut i: usize = 0;
    while i < a.len()
        invariant
            a@.len() == b@.len(),
            i <= a@.len(),
            forall|k: int| 0 <= k < i ==> a@[k] == b@[k],
        decreases a@.len() - i,
    {
        if a[i] != b[i] {
            return false;
        }
        i = i + 1;
    }
    proof {
        assert(a@ =~= b@);
    }
    true
}

} // verus!
