use vstd::prelude::*;
use crate::digest::Hash256;
use crate::entries::{find_pair, keys_sorted, keys_unique, leaves_of, lookup, opt_view, pairs_view, set_pair};
use crate::merkle::proof_hashes_of;
use crate::store::{Store, overlay, root_of};

verus! {

/// What a commit proves: the roots before and after, the leaf count before,
/// the positions (in the old key order) of every pre-existing key that the
/// transaction read or wrote, and the sibling hashes that prove the leaves at
/// those positions against the old root.
pub struct Proof {
    pub old_root: Hash256,
    pub new_root: Hash256,
    pub total_leaves_old: usize,
    pub affected_indices: Vec<usize>,
    pub pre_state_proof: Vec<Hash256>,
}

/// Whether a transaction read or wrote a key.
pub open spec fn touched(
    reads: Seq<(Seq<char>, Seq<char>)>,
    writes: Seq<(Seq<char>, Seq<char>)>,
    k: Seq<char>,
) -> bool {
    lookup(reads, k) is Some || lookup(writes, k) is Some
}

/// `a` lists, in ascending order, exactly the positions of `s` whose key was
/// read or written.
pub open spec fn is_affected_listing(
    a: Seq<usize>,
    s: Seq<(Seq<char>, Seq<char>)>,
    reads: Seq<(Seq<char>, Seq<char>)>,
    writes: Seq<(Seq<char>, Seq<char>)>,
) -> bool {
    &&& forall|i: int, j: int| 0 <= i < j < a.len() ==> a[i] < a[j]
    &&& forall|i: int|
        0 <= i < a.len() ==> #[trigger] a[i] < s.len() && touched(reads, writes, s[a[i] as int].0)
    &&& forall|p: int|
        0 <= p < s.len() && touched(reads, writes, #[trigger] s[p].0) ==> exists|i: int|
            0 <= i < a.len() && a[i] == p
}

/// What a commit of `t` does: the store `after` holds the entries of
/// `before` with the writes of `t` laid over them; with verification on, the
/// proof records the roots, the old leaf count, the affected positions and
/// the sibling hashes for them in the old tree.
pub open spec fn committed(
    t: Transaction,
    before: VerifiableDB,
    after: VerifiableDB,
    r: Option<Proof>,
) -> bool {
    &&& after.wf()
    &&& after.verifies() == before.verifies()
    &&& forall|k: Seq<char>|
        lookup(after.entries(), k) == overlay(t.writes(), before.entries(), k)
    &&& t.writes().len() == 0 ==> after.entries() == before.entries()
    &&& r is Some <==> t.verifies()
    &&& r matches Some(p) ==> {
        &&& p.old_root == t.old_root()
        &&& p.new_root == root_of(after.entries())
        &&& p.total_leaves_old == before.entries().len()
        &&& is_affected_listing(p.affected_indices@, before.entries(), t.reads(), t.writes())
        &&& p.pre_state_proof@ == proof_hashes_of(leaves_of(before.entries()), p.affected_indices@)
    }
}

/// A store whose transactions run one at a time; with verification on, each
/// commit yields a `Proof`.
pub struct VerifiableDB {
    state: Store,
    verify_txn: bool,
}

impl VerifiableDB {
    /// The entries, in ascending key order.
    pub closed spec fn entries(&self) -> Seq<(Seq<char>, Seq<char>)> {
        self.state.entries()
    }

    pub closed spec fn wf(&self) -> bool {
        self.state.wf()
    }

    /// A well-formed store holds its keys in ascending order.
    pub proof fn lemma_wf_sorted(&self)
        requires
            self.wf(),
        ensures
            keys_sorted(self.entries()),
    {
        self.state.lemma_wf_sorted();
    }

    /// Whether commits produce proofs.
    pub closed spec fn verifies(&self) -> bool {
        self.verify_txn
    }

    /// An empty store; `verify_txn` fixes for its lifetime whether commits
    /// produce proofs.
    pub fn new(verify_txn: bool) -> (r: VerifiableDB)
        ensures
            r.wf(),
            r.entries().len() == 0,
            r.verifies() == verify_txn,
    {
        VerifiableDB { state: Store::new(), verify_txn }
    }

    /// Starts a transaction, capturing the current root.
    pub fn begin(&self) -> (t: Transaction)
        requires
            self.wf(),
        ensures
            t.wf(),
            t.old_root() == root_of(self.entries()),
            t.reads().len() == 0,
            t.writes().len() == 0,
            t.verifies() == self.verifies(),
    {
        let t = Transaction {
            performed_reads: Vec::new(),
            pending_writes: Vec::new(),
            old_root: self.state.root(),
            verify_txn: self.verify_txn,
        };
        assert(t.reads() =~= Seq::empty());
        assert(t.writes() =~= Seq::empty());
        t
    }

    /// The number of entries.
    pub fn get_db_size(&self) -> (r: usize)
        ensures
            r == self.entries().len(),
    {
        self.state.size()
    }

    /// The current root.
    pub fn root(&self) -> (r: Hash256)
        requires
            self.wf(),
        ensures
            r == root_of(self.entries()),
    {
        self.state.root()
    }
}

/// A transaction: the values it observed in the store, the writes it
/// buffers, and the root when it began.
pub struct Transaction {
    performed_reads: Vec<(String, String)>,
    pending_writes: Vec<(String, String)>,
    old_root: Hash256,
    verify_txn: bool,
}

impl Transaction {
    /// Each key read from the store, with the value first observed.
    pub closed spec fn reads(&self) -> Seq<(Seq<char>, Seq<char>)> {
        pairs_view(self.performed_reads@)
    }

    /// The buffered writes.
    pub closed spec fn writes(&self) -> Seq<(Seq<char>, Seq<char>)> {
        pairs_view(self.pending_writes@)
    }

    pub closed spec fn old_root(&self) -> Hash256 {
        self.old_root
    }

    pub closed spec fn verifies(&self) -> bool {
        self.verify_txn
    }

    pub closed spec fn wf(&self) -> bool {
        keys_unique(self.reads()) && keys_unique(self.writes())
    }

    /// The root captured when the transaction began.
    pub fn start_root(&self) -> (r: Hash256)
        ensures
            r == self.old_root(),
    {
        self.old_root
    }

    /// Reads a key: a value written earlier in this transaction if there is
    /// one, else the store's value, which is then logged as observed (the
    /// first observation of a key is kept).
    pub fn get(&mut self, db: &VerifiableDB, key: &str) -> (r: Option<String>)
        requires
            old(self).wf(),
            db.wf(),
        ensures
            final(self).wf(),
            final(self).writes() == old(self).writes(),
            final(self).old_root() == old(self).old_root(),
            final(self).verifies() == old(self).verifies(),
            opt_view(r) == overlay(old(self).writes(), db.entries(), key@),
            forall|k: Seq<char>|
                lookup(final(self).reads(), k) == if k == key@ && lookup(
                    old(self).writes(),
                    k,
                ) is None && lookup(old(self).reads(), k) is None {
                    lookup(db.entries(), k)
                } else {
                    lookup(old(self).reads(), k)
                },
    {
        match find_pair(&self.pending_writes, key) {
            Some(i) => {
                return Some(self.pending_writes[i].1.clone());
            },
            None => {},
        }
        let val = db.state.get(key);
        match &val {
            Some(v) => {
                if find_pair(&self.performed_reads, key).is_none() {
                    let ghost s0 = self.reads();
                    self.performed_reads.push((key.to_owned(), v.clone()));
                    assert(self.reads() =~= s0.push((key@, v@)));
                    assert(self.reads().drop_last() =~= s0);
                    proof {
                        crate::entries::lemma_lookup_iff(s0, key@);
                        let s1 = self.reads();
                        assert forall|a: int, b: int|
                            0 <= a < s1.len() && 0 <= b < s1.len() && a != b implies s1[a].0
                            != s1[b].0 by {
                            if a < s0.len() {
                                assert(s1[a] == s0[a]);
                            }
                            if b < s0.len() {
                                assert(s1[b] == s0[b]);
                            }
                        }
                    }
                }
            },
            None => {},
        }
        val
    }

    /// Buffers a write; a later write of the same key replaces it.
    pub fn put(&mut self, key: &str, value: &str)
        requires
            old(self).wf(),
        ensures
            final(self).wf(),
            final(self).reads() == old(self).reads(),
            final(self).old_root() == old(self).old_root(),
            final(self).verifies() == old(self).verifies(),
            forall|k: Seq<char>|
                lookup(final(self).writes(), k) == if k == key@ {
                    Some(value@)
                } else {
                    lookup(old(self).writes(), k)
                },
    {
        set_pair(&mut self.pending_writes, key, value);
    }

    /// Ends the transaction: applies the buffered writes to the store and,
    /// with verification on, returns the proof of the transition.
    pub fn commit(self, db: &mut VerifiableDB) -> (r: Option<Proof>)
        requires
            self.wf(),
            old(db).wf(),
        ensures
            committed(self, *old(db), *final(db), r),
    {
        if !self.verify_txn {
            db.state.apply_writes(&self.pending_writes);
            return None;
        }
        let ghost s0 = db.entries();
        let total_leaves_old = db.state.size();
        let affected_indices = affected_positions(&db.state, &self.performed_reads, &self.pending_writes);
        let pre_state_proof = db.state.proof_for(&affected_indices);
        db.state.apply_writes(&self.pending_writes);
        let new_root = db.state.root();
        Some(Proof {
            old_root: self.old_root,
            new_root,
            total_leaves_old,
            affected_indices,
            pre_state_proof,
        })
    }
}

/// The ascending positions of the store's keys that were read or written.
fn affected_positions(
    store: &Store,
    reads: &Vec<(String, String)>,
    writes: &Vec<(String, String)>,
) -> (r: Vec<usize>)
    requires
        store.wf(),
        keys_unique(pairs_view(reads@)),
        keys_unique(pairs_view(writes@)),
    ensures
        is_affected_listing(r@, store.entries(), pairs_view(reads@), pairs_view(writes@)),
{
    let ghost s = store.entries();
    let ghost rd = pairs_view(reads@);
    let ghost wr = pairs_view(writes@);
    let n = store.size();
    let mut out: Vec<usize> = Vec::new();
    let mut i: usize = 0;
    while i < n
        invariant
            n == s.len(),
            s == store.entries(),
            store.wf(),
            rd == pairs_view(reads@),
            wr == pairs_view(writes@),
            keys_unique(rd),
            keys_unique(wr),
            i <= n,
            forall|a: int, b: int| 0 <= a < b < out@.len() ==> out@[a] < out@[b],
            forall|a: int|
                0 <= a < out@.len() ==> #[trigger] out@[a] < i && touched(
                    rd,
                    wr,
                    s[out@[a] as int].0,
                ),
            forall|p: int|
                0 <= p < i && touched(rd, wr, #[trigger] s[p].0) ==> exists|a: int|
                    0 <= a < out@.len() && out@[a] == p,
        decreases n - i,
    {
        let key = store.key_at(i);
        let hit = find_pair(reads, key).is_some() || find_pair(writes, key).is_some();
        let ghost before = out@;
        if hit {
            out.push(i);
        }
        proof {
            assert forall|p: int|
                0 <= p < i + 1 && touched(rd, wr, #[trigger] s[p].0) implies exists|a: int|
                0 <= a < out@.len() && out@[a] == p by {
                if p == i {
                    assert(out@[out@.len() - 1] == i);
                } else {
                    let a = choose|a: int| 0 <= a < before.len() && before[a] == p;
                    assert(out@[a] == before[a]);
                }
            }
        }
        i = i + 1;
    }
    out
}

} // verus!
