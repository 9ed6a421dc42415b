use vstd::prelude::*;
use crate::digest::{Hash256, hash_kv};
use crate::entries::{
    find_pair, insert_sorted, keys_sorted, keys_unique, leaves_of, lemma_lookup_iff, lemma_sorted_unique, lookup,
    opt_view, pairs_view,
};
use crate::merkle::{AuthIndex, empty_tree, proof_hashes_of, tree_proof, merkle_root_of, tree_from_leaves, tree_leaves, tree_root};

verus! {

/// The value a key has once the pairs of `w` are laid over the entries `s`.
pub open spec fn overlay(
    w: Seq<(Seq<char>, Seq<char>)>,
    s: Seq<(Seq<char>, Seq<char>)>,
    k: Seq<char>,
) -> Option<Seq<char>> {
    match lookup(w, k) {
        Some(v) => Some(v),
        None => lookup(s, k),
    }
}

/// The root of an empty store: all bytes zero.
pub open spec fn empty_root() -> Hash256 {
    choose|h: Hash256| h@ == Seq::new(32, |i: int| 0u8)
}

/// Returns the root of an empty store.
pub fn zero_root() -> (r: Hash256)
    ensures
        r == empty_root(),
{
    let r: Hash256 = [0u8; 32];
    assert(r@ =~= Seq::new(32, |i: int| 0u8));
    let ghost e = empty_root();
    assert(e@ == r@);
    r
}

/// The root of a store that holds the given entries in key order.
pub open spec fn root_of(s: Seq<(Seq<char>, Seq<char>)>) -> Hash256 {
    if s.len() == 0 {
        empty_root()
    } else {
        merkle_root_of(leaves_of(s))
    }
}

/// The entry set in key order, together with the Merkle index over it.
pub struct Store {
    data: Vec<(String, String)>,
    index: AuthIndex,
}

impl Store {
    /// The entries, in ascending key order.
    pub closed spec fn entries(&self) -> Seq<(Seq<char>, Seq<char>)> {
        pairs_view(self.data@)
    }

    /// Keys ascend and the index is built over exactly the entries' leaves.
    pub closed spec fn wf(&self) -> bool {
        keys_sorted(self.entries()) && tree_leaves(self.index) == leaves_of(self.entries())
    }

    /// A well-formed store holds its keys in ascending order.
    pub proof fn lemma_wf_sorted(&self)
        requires
            self.wf(),
        ensures
            keys_sorted(self.entries()),
    {
    }

    /// An empty store.
    pub fn new() -> (r: Store)
        ensures
            r.wf(),
            r.entries().len() == 0,
    {
        let r = Store { data: Vec::new(), index: empty_tree() };
        assert(r.entries() =~= Seq::empty());
        assert(leaves_of(r.entries()) =~= Seq::empty());
        r
    }

    /// The number of entries.
    pub fn size(&self) -> (r: usize)
        ensures
            r == self.entries().len(),
    {
        self.data.len()
    }

    /// The key at a position.
    pub fn key_at(&self, i: usize) -> (r: &str)
        requires
            i < self.entries().len(),
        ensures
            r@ == self.entries()[i as int].0,
    {
        self.data[i].0.as_str()
    }

    /// The current root.
    pub fn root(&self) -> (r: Hash256)
        requires
            self.wf(),
        ensures
            r == root_of(self.entries()),
    {
        match tree_root(&self.index) {
            Some(h) => h,
            None => zero_root(),
        }
    }

    /// The value stored under a key.
    pub fn get(&self, key: &str) -> (r: Option<String>)
        requires
            self.wf(),
        ensures
            opt_view(r) == lookup(self.entries(), key@),
    {
        proof {
            lemma_sorted_unique(self.entries());
        }
        match find_pair(&self.data, key) {
            Some(i) => Some(self.data[i].1.clone()),
            None => None,
        }
    }

    /// The sibling hashes that prove the leaves at `indices` against the
    /// current root.
    pub fn proof_for(&self, indices: &Vec<usize>) -> (r: Vec<Hash256>)
        requires
            self.wf(),
        ensures
            r@ == proof_hashes_of(leaves_of(self.entries()), indices@),
    {
        tree_proof(&self.index, indices.as_slice())
    }

    /// Lays the pairs of `writes` over the entries and rebuilds the index.
    pub fn apply_writes(&mut self, writes: &Vec<(String, String)>)
        requires
            old(self).wf(),
        ensures
            final(self).wf(),
            forall|k: Seq<char>|
                lookup(final(self).entries(), k) == overlay(
                    pairs_view(writes@),
                    old(self).entries(),
                    k,
                ),
            writes@.len() == 0 ==> final(self).entries() == old(self).entries(),
    {
        let ghost s0 = self.entries();
        let ghost w = pairs_view(writes@);
        let mut i: usize = 0;
        while i < writes.len()
            invariant
                i <= writes@.len(),
                w == pairs_view(writes@),
                keys_sorted(self.entries()),
                i == 0 ==> self.entries() == s0,
                forall|k: Seq<char>|
                    lookup(self.entries(), k) == overlay(w.subrange(0, i as int), s0, k),
            decreases writes@.len() - i,
        {
            self.insert(writes[i].0.clone(), writes[i].1.clone());
            assert(w.subrange(0, i + 1).drop_last() =~= w.subrange(0, i as int));
            assert(w.subrange(0, i + 1).last() == w[i as int]);
            i = i + 1;
        }
        assert(w.subrange(0, i as int) =~= w);
        self.refresh_tree();
    }

    /// Rebuilds the index over the current entries.
    fn refresh_tree(&mut self)
        requires
            keys_sorted(old(self).entries()),
        ensures
            final(self).wf(),
            final(self).entries() == old(self).entries(),
    {
        if self.data.len() == 0 {
            self.index = empty_tree();
            assert(leaves_of(self.entries()) =~= Seq::empty());
            return;
        }
        let mut leaves: Vec<Hash256> = Vec::new();
        let mut i: usize = 0;
        while i < self.data.len()
            invariant
                i <= self.data@.len(),
                leaves@ == leaves_of(self.entries()).subrange(0, i as int),
            decreases self.data@.len() - i,
        {
            let h = hash_kv(self.data[i].0.as_str(), self.data[i].1.as_str());
            leaves.push(h);
            assert(leaves_of(self.entries()).subrange(0, i + 1) =~= leaves_of(
                self.entries(),
            ).subrange(0, i as int).push(h));
            i = i + 1;
        }
        assert(leaves_of(self.entries()).subrange(0, i as int) =~= leaves_of(self.entries()));
        self.index = tree_from_leaves(leaves.as_slice());
    }

    /// Sets a key's value, keeping the keys in order; the index is left as
    /// it was.
    fn insert(&mut self, key: String, value: String)
        requires
            keys_sorted(old(self).entries()),
        ensures
            keys_sorted(final(self).entries()),
            forall|k: Seq<char>|
                lookup(final(self).entries(), k) == if k == key@ {
                    Some(value@)
                } else {
                    lookup(old(self).entries(), k)
                },
    {
        insert_sorted(&mut self.data, key, value);
    }
}

} // verus!
