use vstd::prelude::*;
use crate::digest::{Hash256, leaf_of};
use crate::order::{
    key_equal, key_less, key_lt, lemma_key_lt_asymmetric, lemma_key_lt_irreflexive, lemma_key_lt_total,
    lemma_key_lt_transitive,
};

verus! {

/// The abstract view of a list of string pairs.
pub open spec fn pairs_view(v: Seq<(String, String)>) -> Seq<(Seq<char>, Seq<char>)> {
    v.map_values(|p: (String, String)| (p.0@, p.1@))
}

/// The view of an optional string.
pub open spec fn opt_view(o: Option<String>) -> Option<Seq<char>> {
    match o {
        Some(s) => Some(s@),
        None => None,
    }
}

/// The value that a list of pairs gives a key: the last pair with that key
/// wins.
pub open spec fn lookup(s: Seq<(Seq<char>, Seq<char>)>, k: Seq<char>) -> Option<Seq<char>>
    decreases s.len(),
{
    if s.len() == 0 {
        None
    } else if s.last().0 == k {
        Some(s.last().1)
    } else {
        lookup(s.drop_last(), k)
    }
}

/// No key occurs twice.
pub open spec fn keys_unique(s: Seq<(Seq<char>, Seq<char>)>) -> bool {
    forall|i: int, j: int| 0 <= i < s.len() && 0 <= j < s.len() && i != j ==> s[i].0 != s[j].0
}

/// Keys are in strictly ascending order.
pub open spec fn keys_sorted(s: Seq<(Seq<char>, Seq<char>)>) -> bool {
    forall|i: int, j: int| 0 <= i < j < s.len() ==> key_lt(#[trigger] s[i].0, #[trigger] s[j].0)
}

/// The leaf of each pair, in order.
pub open spec fn leaves_of(s: Seq<(Seq<char>, Seq<char>)>) -> Seq<Hash256> {
    s.map_values(|p: (Seq<char>, Seq<char>)| leaf_of(p.0, p.1))
}

pub proof fn lemma_sorted_unique(s: Seq<(Seq<char>, Seq<char>)>)
    requires
        keys_sorted(s),
    ensures
        keys_unique(s),
{
    assert forall|i: int, j: int| 0 <= i < s.len() && 0 <= j < s.len() && i != j implies s[i].0
        != s[j].0 by {
        if i < j {
            lemma_key_lt_irreflexive(s[i].0);
        } else {
            lemma_key_lt_irreflexive(s[j].0);
        }
    }
}

/// With unique keys, a key's pair gives its value.
pub proof fn lemma_lookup_at(s: Seq<(Seq<char>, Seq<char>)>, i: int)
    requires
        keys_unique(s),
        0 <= i < s.len(),
    ensures
        lookup(s, s[i].0) == Some(s[i].1),
    decreases s.len(),
{
    if i != s.len() - 1 {
        assert(s.last() == s[s.len() - 1]);
        assert(s.drop_last()[i] == s[i]);
        lemma_lookup_at(s.drop_last(), i);
    }
}

/// A key that no pair holds has no value.
pub proof fn lemma_lookup_absent(s: Seq<(Seq<char>, Seq<char>)>, k: Seq<char>)
    requires
        forall|i: int| 0 <= i < s.len() ==> s[i].0 != k,
    ensures
        lookup(s, k) is None,
    decreases s.len(),
{
    if s.len() > 0 {
        assert(s.last() == s[s.len() - 1]);
        assert forall|i: int| 0 <= i < s.drop_last().len() implies s.drop_last()[i].0 != k by {
            assert(s.drop_last()[i] == s[i]);
        }
        lemma_lookup_absent(s.drop_last(), k);
    }
}

/// A value that a key has comes from one of the pairs.
pub proof fn lemma_lookup_some(s: Seq<(Seq<char>, Seq<char>)>, k: Seq<char>)
    requires
        lookup(s, k) is Some,
    ensures
        exists|i: int| 0 <= i < s.len() && s[i].0 == k && lookup(s, k) == Some(#[trigger] s[i].1),
    decreases s.len(),
{
    if s.last().0 == k {
        assert(s[s.len() - 1].0 == k);
    } else {
        lemma_lookup_some(s.drop_last(), k);
        let i = choose|i: int|
            0 <= i < s.drop_last().len() && s.drop_last()[i].0 == k && lookup(s.drop_last(), k)
                == Some(#[trigger] s.drop_last()[i].1);
        assert(s[i] == s.drop_last()[i]);
    }
}

/// With unique keys, a key has a value exactly when a pair holds it.
pub proof fn lemma_lookup_iff(s: Seq<(Seq<char>, Seq<char>)>, k: Seq<char>)
    requires
        keys_unique(s),
    ensures
        forall|i: int| 0 <= i < s.len() && s[i].0 == k ==> lookup(s, k) == Some(#[trigger] s[i].1),
        lookup(s, k) is Some ==> exists|i: int|
            0 <= i < s.len() && s[i].0 == k && lookup(s, k) == Some(#[trigger] s[i].1),
        (lookup(s, k) is None) <==> forall|i: int| 0 <= i < s.len() ==> s[i].0 != k,
{
    if lookup(s, k) is Some {
        lemma_lookup_some(s, k);
    } else {
        assert forall|i: int| 0 <= i < s.len() implies s[i].0 != k by {
            if s[i].0 == k {
                lemma_lookup_at(s, i);
            }
        }
    }
    assert forall|i: int| 0 <= i < s.len() && s[i].0 == k implies lookup(s, k) == Some(
        #[trigger] s[i].1,
    ) by {
        lemma_lookup_at(s, i);
    }
}

/// Looks a key up in a list of pairs with unique keys.
pub fn find_pair(v: &Vec<(String, String)>, key: &str) -> (r: Option<usize>)
    requires
        keys_unique(pairs_view(v@)),
    ensures
        match r {
            Some(i) => i < v@.len() && v@[i as int].0@ == key@ && lookup(pairs_view(v@), key@)
                == Some(v@[i as int].1@),
            None => lookup(pairs_view(v@), key@) is None,
        },
{
    let mut i: usize = 0;
    while i < v.len()
        invariant
            i <= v@.len(),
            keys_unique(pairs_view(v@)),
            forall|j: int| 0 <= j < i ==> v@[j].0@ != key@,
        decreases v@.len() - i,
    {
        if key_equal(v[i].0.as_str(), key) {
            proof {
                assert(pairs_view(v@)[i as int] == (v@[i as int].0@, v@[i as int].1@));
                lemma_lookup_at(pairs_view(v@), i as int);
            }
            return Some(i);
        }
        i = i + 1;
    }
    proof {
        assert forall|j: int| 0 <= j < pairs_view(v@).len() implies pairs_view(v@)[j].0
            != key@ by {
            assert(pairs_view(v@)[j].0 == v@[j].0@);
        }
        lemma_lookup_absent(pairs_view(v@), key@);
    }
    None
}

/// Sets a key's value in a list of pairs with unique keys.
pub fn set_pair(v: &mut Vec<(String, String)>, key: &str, value: &str)
    requires
        keys_unique(pairs_view(old(v)@)),
    ensures
        keys_unique(pairs_view(final(v)@)),
        forall|k: Seq<char>|
            lookup(pairs_view(final(v)@), k) == if k == key@ {
                Some(value@)
            } else {
                lookup(pairs_view(old(v)@), k)
            },
{
    let ghost s0 = pairs_view(v@);
    match find_pair(v, key) {
        Some(i) => {
            v.set(i, (key.to_owned(), value.to_owned()));
            let ghost s1 = pairs_view(v@);
            assert(s1 =~= s0.update(i as int, (key@, value@)));
            assert forall|a: int, b: int|
                0 <= a < s1.len() && 0 <= b < s1.len() && a != b implies s1[a].0 != s1[b].0 by {
                if a != i && b != i {
                    assert(s1[a] == s0[a] && s1[b] == s0[b]);
                } else if a == i {
                    assert(s0[a].0 == s1[a].0 && s1[b] == s0[b]);
                } else {
                    assert(s0[b].0 == s1[b].0 && s1[a] == s0[a]);
                }
            }
            assert forall|k: Seq<char>|
                lookup(s1, k) == if k == key@ {
                    Some(value@)
                } else {
                    lookup(s0, k)
                } by {
                lemma_lookup_iff(s0, k);
                lemma_lookup_iff(s1, k);
                if k != key@ {
                    if lookup(s0, k) is Some {
                        let j = choose|j: int|
                            0 <= j < s0.len() && s0[j].0 == k && lookup(s0, k) == Some(
                                #[trigger] s0[j].1,
                            );
                        assert(s1[j] == s0[j]);
                    } else {
                        assert forall|j: int| 0 <= j < s1.len() implies s1[j].0 != k by {
                            if j != i {
                                assert(s1[j] == s0[j]);
                            }
                        }
                    }
                } else {
                    assert(s1[i as int] == (key@, value@));
                }
            }
        },
        None => {
            v.push((key.to_owned(), value.to_owned()));
            let ghost s1 = pairs_view(v@);
            assert(s1 =~= s0.push((key@, value@)));
            assert(s1.drop_last() =~= s0);
            proof {
                lemma_lookup_iff(s0, key@);
            }
            assert forall|a: int, b: int|
                0 <= a < s1.len() && 0 <= b < s1.len() && a != b implies s1[a].0 != s1[b].0 by {
                if a < s0.len() && b < s0.len() {
                    assert(s1[a] == s0[a] && s1[b] == s0[b]);
                } else if a < s0.len() {
                    assert(s1[a] == s0[a]);
                } else {
                    assert(s1[b] == s0[b]);
                }
            }
        },
    }
}

/// Sets a key's value in a list of pairs whose keys ascend, keeping them in
/// order.
pub fn insert_sorted(v: &mut Vec<(String, String)>, key: String, value: String)
    requires
        keys_sorted(pairs_view(old(v)@)),
    ensures
        keys_sorted(pairs_view(final(v)@)),
        forall|k: Seq<char>|
            lookup(pairs_view(final(v)@), k) == if k == key@ {
                Some(value@)
            } else {
                lookup(pairs_view(old(v)@), k)
            },
{
    let ghost s0 = pairs_view(v@);
    let mut p: usize = 0;
    while p < v.len() && key_less(v[p].0.as_str(), key.as_str())
        invariant
            p <= v@.len(),
            s0 == pairs_view(v@),
            forall|j: int| 0 <= j < p ==> key_lt(#[trigger] s0[j].0, key@),
        decreases v@.len() - p,
    {
        p = p + 1;
    }
    proof {
        lemma_sorted_unique(s0);
    }
    if p < v.len() && key_equal(v[p].0.as_str(), key.as_str()) {
        let ghost kv = (key@, value@);
        v.set(p, (key, value));
        let ghost s1 = pairs_view(v@);
        assert(s1 =~= s0.update(p as int, kv));
        proof {
            lemma_sorted_unique(s1);
            assert forall|k: Seq<char>|
                lookup(s1, k) == if k == kv.0 {
                    Some(kv.1)
                } else {
                    lookup(s0, k)
                } by {
                lemma_lookup_iff(s0, k);
                lemma_lookup_iff(s1, k);
                if k != kv.0 {
                    if lookup(s0, k) is Some {
                        let i = choose|i: int|
                            0 <= i < s0.len() && s0[i].0 == k && lookup(s0, k) == Some(
                                #[trigger] s0[i].1,
                            );
                        assert(s1[i] == s0[i]);
                    }
                } else {
                    assert(s1[p as int] == kv);
                }
            }
        }
    } else {
        let ghost kv = (key@, value@);
        proof {
            if p < s0.len() {
                lemma_key_lt_total(s0[p as int].0, key@);
            }
        }
        v.insert(p, (key, value));
        let ghost s1 = pairs_view(v@);
        assert(s1 =~= s0.insert(p as int, kv));
        proof {
            assert forall|i: int, j: int| 0 <= i < j < s1.len() implies key_lt(
                #[trigger] s1[i].0,
                #[trigger] s1[j].0,
            ) by {
                if j > p && i <= p {
                    if p < j - 1 {
                        lemma_key_lt_transitive(kv.0, s0[p as int].0, s0[j - 1].0);
                    }
                    if i < p {
                        lemma_key_lt_transitive(s0[i].0, kv.0, s0[j - 1].0);
                    }
                }
            }
            lemma_sorted_unique(s1);
            assert forall|k: Seq<char>|
                lookup(s1, k) == if k == kv.0 {
                    Some(kv.1)
                } else {
                    lookup(s0, k)
                } by {
                lemma_lookup_iff(s0, k);
                lemma_lookup_iff(s1, k);
                if k != kv.0 {
                    if lookup(s0, k) is Some {
                        let i = choose|i: int|
                            0 <= i < s0.len() && s0[i].0 == k && lookup(s0, k) == Some(
                                #[trigger] s0[i].1,
                            );
                        if i < p {
                            assert(s1[i] == s0[i]);
                        } else {
                            assert(s1[i + 1] == s0[i]);
                        }
                    } else {
                        assert forall|j: int| 0 <= j < s1.len() implies s1[j].0 != k by {
                            if j < p {
                                assert(s1[j] == s0[j]);
                            } else if j > p {
                                assert(s1[j] == s0[j - 1]);
                            }
                        }
                    }
                } else {
                    assert(s1[p as int] == kv);
                }
            }
        }
    }
}

/// Two lists with ascending keys that give every key the same value are
/// the same list.
pub proof fn lemma_sorted_listing_unique(s: Seq<(Seq<char>, Seq<char>)>, t: Seq<(Seq<char>, Seq<char>)>)
    requires
        keys_sorted(s),
        keys_sorted(t),
        forall|k: Seq<char>| lookup(s, k) == lookup(t, k),
    ensures
        s == t,
    decreases s.len() + t.len(),
{
    lemma_sorted_unique(s);
    lemma_sorted_unique(t);
    if s.len() == 0 && t.len() == 0 {
        assert(s =~= t);
    } else if s.len() == 0 {
        lemma_lookup_at(t, t.len() - 1);
        assert(lookup(s, t.last().0) is None);
    } else if t.len() == 0 {
        lemma_lookup_at(s, s.len() - 1);
        assert(lookup(t, s.last().0) is None);
    } else {
        let ls = s.last();
        let lt = t.last();
        lemma_lookup_at(s, s.len() - 1);
        lemma_lookup_at(t, t.len() - 1);
        lemma_lookup_iff(s, lt.0);
        lemma_lookup_iff(t, ls.0);
        let i = choose|i: int| 0 <= i < s.len() && s[i].0 == lt.0 && lookup(s, lt.0) == Some(#[trigger] s[i].1);
        let j = choose|j: int| 0 <= j < t.len() && t[j].0 == ls.0 && lookup(t, ls.0) == Some(#[trigger] t[j].1);
        if ls.0 != lt.0 {
            if i < s.len() - 1 {
                assert(key_lt(s[i].0, s[s.len() - 1].0));
            }
            if j < t.len() - 1 {
                assert(key_lt(t[j].0, t[t.len() - 1].0));
            }
            lemma_key_lt_irreflexive(ls.0);
            lemma_key_lt_irreflexive(lt.0);
            if i < s.len() - 1 && j < t.len() - 1 {
                lemma_key_lt_asymmetric(lt.0, ls.0);
            }
        }
        assert(ls == lt);
        let s2 = s.drop_last();
        let t2 = t.drop_last();
        assert forall|k: Seq<char>| lookup(s2, k) == lookup(t2, k) by {
            if k == ls.0 {
                assert forall|a: int| 0 <= a < s2.len() implies s2[a].0 != k by {
                    assert(s2[a] == s[a]);
                }
                assert forall|a: int| 0 <= a < t2.len() implies t2[a].0 != k by {
                    assert(t2[a] == t[a]);
                }
                lemma_lookup_absent(s2, k);
                lemma_lookup_absent(t2, k);
            } else {
                assert(lookup(s, k) == lookup(t, k));
                assert(lookup(s, k) == lookup(s2, k));
                assert(lookup(t, k) == lookup(t2, k));
            }
        }
        assert(keys_sorted(s2));
        assert(keys_sorted(t2));
        lemma_sorted_listing_unique(s2, t2);
        assert(s =~= s2.push(ls));
        assert(t =~= t2.push(lt));
    }
}

/// Tells whether no key occurs twice.
pub fn has_unique_keys(v: &Vec<(String, String)>) -> (r: bool)
    ensures
        r == keys_unique(pairs_view(v@)),
{
    let ghost s = pairs_view(v@);
    let mut i: usize = 0;
    while i < v.len()
        invariant
            i <= v@.len(),
            s == pairs_view(v@),
            forall|a: int, b: int| 0 <= a < i && 0 <= b < s.len() && a != b ==> s[a].0 != s[b].0,
        decreases v@.len() - i,
    {
        let mut j: usize = 0;
        while j < v.len()
            invariant
                i < v@.len(),
                j <= v@.len(),
                s == pairs_view(v@),
                forall|a: int, b: int|
                    0 <= a < i && 0 <= b < s.len() && a != b ==> s[a].0 != s[b].0,
                forall|b: int| 0 <= b < j && b != i ==> s[i as int].0 != s[b].0,
            decreases v@.len() - j,
        {
            if j != i && key_equal(v[i].0.as_str(), v[j].0.as_str()) {
                assert(s[i as int].0 == s[j as int].0);
                return false;
            }
            j = j + 1;
        }
        i = i + 1;
    }
    true
}

} // verus!
