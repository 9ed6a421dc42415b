use vstd::prelude::*;
use crate::audit::{accepts, claimed_new_leaves, claimed_old_leaves, sorted_listing, updated};
use crate::entries::{
    keys_sorted, keys_unique, leaves_of, lemma_lookup_iff, lemma_sorted_listing_unique,
    lemma_sorted_unique, lookup,
};
use crate::order::lemma_key_lt_irreflexive;
use crate::merkle::proof_root_of;
use crate::store::{overlay, root_of};
use crate::txn::{Proof, Transaction, VerifiableDB, committed, touched};

verus! {

/// A transaction that writes nothing, begun on `before`, commits to a proof
/// whose old and new roots are equal; a claim of unchanged values then
/// stands or falls with its old values alone.
pub proof fn lemma_empty_commit_keeps_root(
    t: Transaction,
    before: VerifiableDB,
    after: VerifiableDB,
    p: Proof,
    c: Seq<(Seq<char>, Seq<char>)>,
)
    requires
        before.wf(),
        t.old_root() == root_of(before.entries()),
        t.writes().len() == 0,
        committed(t, before, after, Some(p)),
    ensures
        p.old_root == p.new_root,
        accepts(p, c, Seq::empty()) == (proof_root_of(
            p.pre_state_proof@,
            p.affected_indices@,
            claimed_old_leaves(c),
            p.total_leaves_old,
        ) == Some(p.old_root)),
{
    let s = sorted_listing(c);
    assert(updated(s, Seq::empty()) =~= s);
}

/// A key that a transaction wrote, read or not, is among the affected
/// positions of its proof whenever it was already in the store.
pub proof fn lemma_blind_write_covered(
    t: Transaction,
    before: VerifiableDB,
    after: VerifiableDB,
    p: Proof,
    q: int,
)
    requires
        committed(t, before, after, Some(p)),
        0 <= q < before.entries().len(),
        lookup(t.writes(), before.entries()[q].0) is Some,
    ensures
        exists|i: int| 0 <= i < p.affected_indices@.len() && p.affected_indices@[i] == q,
{
}

/// The honest claim of a transaction's old state: each key that it read or
/// wrote and that the store held, with the value the store held.
pub open spec fn true_old_claim(
    c: Seq<(Seq<char>, Seq<char>)>,
    before: VerifiableDB,
    t: Transaction,
) -> bool {
    &&& keys_unique(c)
    &&& forall|k: Seq<char>|
        #[trigger] lookup(c, k) == if touched(t.reads(), t.writes(), k) {
            lookup(before.entries(), k)
        } else {
            None
        }
}

/// The honest claim of a transaction's new state: the values it wrote.
pub open spec fn true_new_claim(n: Seq<(Seq<char>, Seq<char>)>, t: Transaction) -> bool {
    forall|k: Seq<char>| #[trigger] lookup(n, k) == lookup(t.writes(), k)
}

/// Given the honest old and new values of a commit that added no key, the
/// checker's old leaves are the old tree's leaves at the proof's affected
/// positions and its new leaves are the new tree's leaves there, while every
/// other position keeps its entry. What remains for acceptance is that the
/// Merkle proof recomputes roots from such leaves.
pub proof fn lemma_true_claim_gives_committed_leaves(
    t: Transaction,
    before: VerifiableDB,
    after: VerifiableDB,
    p: Proof,
    c: Seq<(Seq<char>, Seq<char>)>,
    n: Seq<(Seq<char>, Seq<char>)>,
)
    requires
        before.wf(),
        committed(t, before, after, Some(p)),
        true_old_claim(c, before, t),
        true_new_claim(n, t),
        forall|k: Seq<char>|
            #[trigger] lookup(t.writes(), k) is Some ==> lookup(before.entries(), k) is Some,
    ensures
        after.entries().len() == before.entries().len(),
        claimed_old_leaves(c) == p.affected_indices@.map_values(
            |i: usize| leaves_of(before.entries())[i as int],
        ),
        claimed_new_leaves(c, n) == p.affected_indices@.map_values(
            |i: usize| leaves_of(after.entries())[i as int],
        ),
        forall|q: int|
            0 <= q < before.entries().len() && !(exists|i: int|
                0 <= i < p.affected_indices@.len() && p.affected_indices@[i] == q) ==> after.entries()[q]
                == before.entries()[q],
{
    let s0 = before.entries();
    let s1 = after.entries();
    let a = p.affected_indices@;
    let w = t.writes();
    before.lemma_wf_sorted();
    after.lemma_wf_sorted();
    lemma_sorted_unique(s0);
    let l = a.map_values(|i: usize| s0[i as int]);
    assert forall|x: int, y: int| 0 <= x < y < l.len() implies crate::order::key_lt(
        #[trigger] l[x].0,
        #[trigger] l[y].0,
    ) by {
        assert(a[x] < a[y]);
    }
    assert(keys_sorted(l));
    lemma_sorted_unique(l);
    assert forall|k: Seq<char>| #[trigger] lookup(l, k) == lookup(c, k) by {
        lemma_lookup_iff(l, k);
        lemma_lookup_iff(s0, k);
        if lookup(c, k) is Some {
            let q = choose|q: int|
                0 <= q < s0.len() && s0[q].0 == k && lookup(s0, k) == Some(#[trigger] s0[q].1);
            assert(touched(t.reads(), t.writes(), s0[q].0));
            let i = choose|i: int| 0 <= i < a.len() && a[i] == q;
            assert(l[i] == s0[q]);
        } else if lookup(l, k) is Some {
            let i = choose|i: int|
                0 <= i < l.len() && l[i].0 == k && lookup(l, k) == Some(#[trigger] l[i].1);
            assert(l[i] == s0[a[i] as int]);
            assert(touched(t.reads(), t.writes(), s0[a[i] as int].0));
        }
    }
    lemma_sorted_listing_unique(sorted_listing(c), l);
    assert(sorted_listing(c) == l);
    let u = updated(s0, n);
    assert forall|x: int, y: int| 0 <= x < y < u.len() implies crate::order::key_lt(
        #[trigger] u[x].0,
        #[trigger] u[y].0,
    ) by {
        assert(s0[x].0 == u[x].0 && s0[y].0 == u[y].0);
    }
    assert forall|k: Seq<char>| #[trigger] lookup(u, k) == lookup(s1, k) by {
        assert(lookup(s1, k) == overlay(w, s0, k));
        lemma_sorted_unique(u);
        lemma_lookup_iff(u, k);
        lemma_lookup_iff(s0, k);
        if lookup(s0, k) is Some {
            let q = choose|q: int|
                0 <= q < s0.len() && s0[q].0 == k && lookup(s0, k) == Some(#[trigger] s0[q].1);
            assert(u[q].0 == k);
        } else {
            assert(lookup(w, k) is None);
            assert forall|q: int| 0 <= q < u.len() implies u[q].0 != k by {
                assert(u[q].0 == s0[q].0);
            }
        }
    }
    lemma_sorted_listing_unique(u, s1);
    assert(claimed_old_leaves(c) =~= a.map_values(|i: usize| leaves_of(s0)[i as int]));
    assert(updated(l, n) =~= a.map_values(|i: usize| u[i as int]));
    assert(claimed_new_leaves(c, n) =~= a.map_values(|i: usize| leaves_of(s1)[i as int]));
    assert forall|q: int|
        0 <= q < s0.len() && !(exists|i: int| 0 <= i < a.len() && a[i] == q) implies s1[q]
        == s0[q] by {
        if lookup(w, s0[q].0) is Some {
            assert(touched(t.reads(), t.writes(), s0[q].0));
        }
        assert(lookup(n, s0[q].0) is None);
        assert(u[q] == s0[q]);
    }
}

} // verus!
