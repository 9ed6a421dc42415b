use vstd::prelude::*;
use crate::digest::Hash256;
use rs_merkle::algorithms::Sha256;
use rs_merkle::MerkleTree;

verus! {

/// The authenticated index: an `rs_merkle` tree over SHA-256. Verus refuses
/// a declaration of `MerkleTree` (its parameter is bound by an outside
/// trait), so the tree is held here and seen through `tree_leaves`.
#[verifier::external_body]
pub struct AuthIndex {
    tree: MerkleTree<Sha256>,
}

/// The leaves that a tree was built over, in order.
pub uninterp spec fn tree_leaves(t: AuthIndex) -> Seq<Hash256>;

/// The root of the SHA-256 Merkle tree over a non-empty sequence of leaves.
pub uninterp spec fn merkle_root_of(leaves: Seq<Hash256>) -> Hash256;

/// The sibling hashes of a multi-leaf proof for the given positions of a tree
/// over the given leaves.
pub uninterp spec fn proof_hashes_of(leaves: Seq<Hash256>, indices: Seq<usize>) -> Seq<Hash256>;

/// The root that a proof made of the given sibling hashes yields for the
/// given leaves at the given positions, in a tree of `total` leaves; `None`
/// where the proof does not fit that shape.
pub uninterp spec fn proof_root_of(
    hashes: Seq<Hash256>,
    indices: Seq<usize>,
    leaves: Seq<Hash256>,
    total: usize,
) -> Option<Hash256>;

/// Relies on `MerkleTree::new`: a tree with no leaves.
#[verifier::external_body]
pub(crate) fn empty_tree() -> (t: AuthIndex)
    ensures
        tree_leaves(t) == Seq::<Hash256>::empty(),
{
    AuthIndex { tree: MerkleTree::<Sha256>::new() }
}

/// Relies on `MerkleTree::from_leaves`: a committed tree over exactly these
/// leaves.
#[verifier::external_body]
pub(crate) fn tree_from_leaves(leaves: &[Hash256]) -> (t: AuthIndex)
    ensures
        tree_leaves(t) == leaves@,
{
    AuthIndex { tree: MerkleTree::<Sha256>::from_leaves(leaves) }
}

/// Relies on `MerkleTree::root`: no root without leaves, and otherwise the
/// root over the leaves.
#[verifier::external_body]
pub(crate) fn tree_root(t: &AuthIndex) -> (r: Option<Hash256>)
    ensures
        r == (if tree_leaves(*t).len() == 0 {
            None
        } else {
            Some(merkle_root_of(tree_leaves(*t)))
        }),
{
    t.tree.root()
}

/// Relies on `MerkleTree::proof` and `MerkleProof::proof_hashes`: the sibling
/// hashes that prove the leaves at `indices`.
#[verifier::external_body]
pub(crate) fn tree_proof(t: &AuthIndex, indices: &[usize]) -> (r: Vec<Hash256>)
    ensures
        r@ == proof_hashes_of(tree_leaves(*t), indices@),
{
    t.tree.proof(indices).proof_hashes().to_vec()
}

/// Relies on `MerkleProof::root`: the root that the sibling hashes yield for
/// the given leaves, or `None` where it reports an error.
#[verifier::external_body]
pub(crate) fn proof_root(
    hashes: &[Hash256],
    indices: &[usize],
    leaves: &[Hash256],
    total: usize,
) -> (r: Option<Hash256>)
    ensures
        r == proof_root_of(hashes@, indices@, leaves@, total),
{
    rs_merkle::MerkleProof::<Sha256>::new(hashes.to_vec()).root(indices, leaves, total).ok()
}

/// Relies on `MerkleProof::verify`, which accepts exactly when the root that
/// `MerkleProof::root` yields equals the expected root.
#[verifier::external_body]
pub(crate) fn proof_verify(
    hashes: &[Hash256],
    root: Hash256,
    indices: &[usize],
    leaves: &[Hash256],
    total: usize,
) -> (r: bool)
    ensures
        r == (proof_root_of(hashes@, indices@, leaves@, total) == Some(root)),
{
    rs_merkle::MerkleProof::<Sha256>::new(hashes.to_vec()).verify(root, indices, leaves, total)
}

} // verus!
