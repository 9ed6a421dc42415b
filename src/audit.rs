use vstd::prelude::*;
use crate::digest::{Hash256, hash_eq, hash_kv};
use crate::entries::{
    find_pair, has_unique_keys, insert_sorted, keys_sorted, keys_unique, leaves_of,
    lemma_sorted_listing_unique, lookup, pairs_view,
};
use crate::merkle::{proof_root, proof_root_of, proof_verify};
use crate::txn::Proof;

verus! {

/// The claimed pairs in ascending key order.
pub open spec fn sorted_listing(c: Seq<(Seq<char>, Seq<char>)>) -> Seq<(Seq<char>, Seq<char>)> {
    choose|s: Seq<(Seq<char>, Seq<char>)>|
        keys_sorted(s) && forall|k: Seq<char>| #[trigger] lookup(s, k) == lookup(c, k)
}

/// Each pair of `s` with the value that `n` gives its key, where it gives
/// one.
pub open spec fn updated(
    s: Seq<(Seq<char>, Seq<char>)>,
    n: Seq<(Seq<char>, Seq<char>)>,
) -> Seq<(Seq<char>, Seq<char>)> {
    s.map_values(
        |p: (Seq<char>, Seq<char>)|
            (
                p.0,
                match lookup(n, p.0) {
                    Some(v) => v,
                    None => p.1,
                },
            ),
    )
}

/// The claimed old leaves, in key order.
pub open spec fn claimed_old_leaves(c: Seq<(Seq<char>, Seq<char>)>) -> Seq<Hash256> {
    leaves_of(sorted_listing(c))
}

/// The claimed new leaves, in the same order: a claimed old key takes its
/// claimed new value, or keeps its old one.
pub open spec fn claimed_new_leaves(
    c: Seq<(Seq<char>, Seq<char>)>,
    n: Seq<(Seq<char>, Seq<char>)>,
) -> Seq<Hash256> {
    leaves_of(updated(sorted_listing(c), n))
}

/// The proof accepts the claim: the old leaves yield the old root at the
/// affected positions, and the new leaves put in their place yield the new
/// root.
pub open spec fn accepts(
    p: Proof,
    c: Seq<(Seq<char>, Seq<char>)>,
    n: Seq<(Seq<char>, Seq<char>)>,
) -> bool {
    &&& proof_root_of(
        p.pre_state_proof@,
        p.affected_indices@,
        claimed_old_leaves(c),
        p.total_leaves_old,
    ) == Some(p.old_root)
    &&& proof_root_of(
        p.pre_state_proof@,
        p.affected_indices@,
        claimed_new_leaves(c, n),
        p.total_leaves_old,
    ) == Some(p.new_root)
}

/// Sorts pairs with unique keys by key.
fn sort_pairs(v: &Vec<(String, String)>) -> (r: Vec<(String, String)>)
    requires
        keys_unique(pairs_view(v@)),
    ensures
        pairs_view(r@) == sorted_listing(pairs_view(v@)),
{
    let ghost c = pairs_view(v@);
    let mut out: Vec<(String, String)> = Vec::new();
    let mut i: usize = 0;
    assert(pairs_view(out@) =~= Seq::empty());
    while i < v.len()
        invariant
            i <= v@.len(),
            c == pairs_view(v@),
            keys_sorted(pairs_view(out@)),
            forall|k: Seq<char>| lookup(pairs_view(out@), k) == lookup(c.subrange(0, i as int), k),
        decreases v@.len() - i,
    {
        insert_sorted(&mut out, v[i].0.clone(), v[i].1.clone());
        assert(c.subrange(0, i + 1).drop_last() =~= c.subrange(0, i as int));
        assert(c.subrange(0, i + 1).last() == c[i as int]);
        i = i + 1;
    }
    assert(c.subrange(0, i as int) =~= c);
    proof {
        let s = sorted_listing(c);
        assert(keys_sorted(pairs_view(out@)) && forall|k: Seq<char>|
            #[trigger] lookup(pairs_view(out@), k) == lookup(c, k));
        lemma_sorted_listing_unique(s, pairs_view(out@));
    }
    out
}

/// The outcome of checking a claimed transition.
#[derive(Clone, Copy, Debug, PartialEq, Eq, Structural)]
pub enum Verdict {
    /// The claim holds.
    Accepted,
    /// A claim names a key twice.
    MalformedClaim,
    /// The claimed old values are not the ones committed at the old root.
    PreStateInvalid,
    /// The claimed new values do not lead to the new root.
    PostStateMismatch,
}

/// The verdict on a claim: malformed where a key repeats, else whether the
/// old leaves fail to yield the old root, else whether the new leaves fail
/// to yield the new root.
pub open spec fn verdict_of(
    p: Proof,
    c: Seq<(Seq<char>, Seq<char>)>,
    n: Seq<(Seq<char>, Seq<char>)>,
) -> Verdict {
    if !keys_unique(c) || !keys_unique(n) {
        Verdict::MalformedClaim
    } else if proof_root_of(
        p.pre_state_proof@,
        p.affected_indices@,
        claimed_old_leaves(c),
        p.total_leaves_old,
    ) != Some(p.old_root) {
        Verdict::PreStateInvalid
    } else if proof_root_of(
        p.pre_state_proof@,
        p.affected_indices@,
        claimed_new_leaves(c, n),
        p.total_leaves_old,
    ) != Some(p.new_root) {
        Verdict::PostStateMismatch
    } else {
        Verdict::Accepted
    }
}

/// Checks a claimed transition against a proof, without the store, and
/// says which part failed.
pub fn check_update(
    proof: &Proof,
    old_state: &Vec<(String, String)>,
    new_state: &Vec<(String, String)>,
) -> (r: Verdict)
    ensures
        r == verdict_of(*proof, pairs_view(old_state@), pairs_view(new_state@)),
{
    if !has_unique_keys(old_state) || !has_unique_keys(new_state) {
        return Verdict::MalformedClaim;
    }
    let sorted = sort_pairs(old_state);
    let ghost s = pairs_view(sorted@);
    let ghost n = pairs_view(new_state@);
    let mut old_leaves: Vec<Hash256> = Vec::new();
    let mut new_leaves: Vec<Hash256> = Vec::new();
    let mut i: usize = 0;
    while i < sorted.len()
        invariant
            i <= sorted@.len(),
            s == pairs_view(sorted@),
            n == pairs_view(new_state@),
            keys_unique(n),
            old_leaves@ == leaves_of(s).subrange(0, i as int),
            new_leaves@ == leaves_of(updated(s, n)).subrange(0, i as int),
        decreases sorted@.len() - i,
    {
        let key = sorted[i].0.as_str();
        let ho = hash_kv(key, sorted[i].1.as_str());
        let hn = match find_pair(new_state, key) {
            Some(j) => hash_kv(key, new_state[j].1.as_str()),
            None => hash_kv(key, sorted[i].1.as_str()),
        };
        old_leaves.push(ho);
        new_leaves.push(hn);
        assert(leaves_of(s).subrange(0, i + 1) =~= leaves_of(s).subrange(0, i as int).push(ho));
        assert(leaves_of(updated(s, n)).subrange(0, i + 1) =~= leaves_of(updated(s, n)).subrange(
            0,
            i as int,
        ).push(hn));
        i = i + 1;
    }
    assert(leaves_of(s).subrange(0, i as int) =~= leaves_of(s));
    assert(leaves_of(updated(s, n)).subrange(0, i as int) =~= leaves_of(updated(s, n)));
    let read_ok = proof_verify(
        proof.pre_state_proof.as_slice(),
        proof.old_root,
        proof.affected_indices.as_slice(),
        old_leaves.as_slice(),
        proof.total_leaves_old,
    );
    if !read_ok {
        return Verdict::PreStateInvalid;
    }
    match proof_root(
        proof.pre_state_proof.as_slice(),
        proof.affected_indices.as_slice(),
        new_leaves.as_slice(),
        proof.total_leaves_old,
    ) {
        Some(root) => if hash_eq(&root, &proof.new_root) {
            Verdict::Accepted
        } else {
            Verdict::PostStateMismatch
        },
        None => Verdict::PostStateMismatch,
    }
}


/// Checks a claimed transition against a proof, without the store: the
/// claimed old values must be the ones committed at the proof's old root,
/// and substituting the claimed new values must give its new root. A claim
/// that names a key twice is rejected.
pub fn verify_secure_update(
    proof: &Proof,
    old_state: &Vec<(String, String)>,
    new_state: &Vec<(String, String)>,
) -> (r: bool)
    ensures
        r == (keys_unique(pairs_view(old_state@)) && keys_unique(pairs_view(new_state@))
            && accepts(*proof, pairs_view(old_state@), pairs_view(new_state@))),
{
    match check_update(proof, old_state, new_state) {
        Verdict::Accepted => true,
        _ => false,
    }
}

} // verus!
