use vstd::prelude::*;

verus! {

/// A 256-bit digest.
pub type Hash256 = [u8; 32];

/// The SHA-256 digest of a byte string.
pub uninterp spec fn sha256_of(data: Seq<u8>) -> Hash256;

/// Relies on sha2's `Digest::digest` for `Sha256`: the digest depends on the
/// bytes alone.
#[verifier::external_body]
fn sha256(data: &[u8]) -> (r: Hash256)
    ensures
        r == sha256_of(data@),
{
    <sha2::Sha256 as sha2::Digest>::digest(data).into()
}

/// The leaf of a key and its value: the digest of the key's bytes followed by
/// the value's bytes.
pub open spec fn leaf_of(key: Seq<char>, value: Seq<char>) -> Hash256 {
    sha256_of(vstd::utf8::encode_utf8(key) + vstd::utf8::encode_utf8(value))
}

/// Hashes a key together with its value into a leaf.
pub fn hash_kv(key: &str, value: &str) -> (r: Hash256)
    ensures
        r == leaf_of(key@, value@),
{
    let kb = key.as_bytes();
    let vb = value.as_bytes();
    let mut buf: Vec<u8> = Vec::new();
    let mut i: usize = 0;
    while i < kb.len()
        invariant
            i <= kb@.len(),
            buf@ == kb@.subrange(0, i as int),
        decreases kb@.len() - i,
    {
        buf.push(kb[i]);
        i = i + 1;
    }
    let mut j: usize = 0;
    while j < vb.len()
        invariant
            j <= vb@.len(),
            buf@ == kb@ + vb@.subrange(0, j as int),
        decreases vb@.len() - j,
    {
        buf.push(vb[j]);
        j = j + 1;
    }
    assert(vb@.subrange(0, vb@.len() as int) =~= vb@);
    sha256(buf.as_slice())
}

/// Tells whether two digests are equal.
pub fn hash_eq(a: &Hash256, b: &Hash256) -> (r: bool)
    ensures
        r == (*a == *b),
{
    let mut i: usize = 0;
    while i < 32
        invariant
            i <= 32,
            forall|j: int| 0 <= j < i ==> a[j] == b[j],
        decreases 32 - i,
    {
        if a[i] != b[i] {
            return false;
        }
        i = i + 1;
    }
    assert(a@ =~= b@);
    proof {
        vstd::array::axiom_array_ext_equal(*a, *b);
    }
    true
}

} // verus!
