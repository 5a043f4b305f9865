//! Association lists with string keys, seen as maps, and the search that
//! keeps them in key order.
use vstd::prelude::*;
use crate::order::{
    compare_str, lemma_str_lt_asymmetric, lemma_str_lt_transitive, str_lt, strictly_sorted, KeyOrder,
};

verus! {

/// The map that pairs each key with the value at the same position.
pub open spec fn assoc<V>(ks: Seq<Seq<char>>, vs: Seq<V>) -> Map<Seq<char>, V> {
    Map::new(|k: Seq<char>| ks.contains(k), |k: Seq<char>| vs[ks.index_of(k)])
}

/// The keys of a list of keyed pairs.
pub open spec fn keys_of<X>(e: Seq<(String, X)>) -> Seq<Seq<char>> {
    e.map_values(|p: (String, X)| p.0@)
}

/// The character sequences of a list of strings.
pub open spec fn strs(v: Seq<String>) -> Seq<Seq<char>> {
    v.map_values(|s: String| s@)
}

pub proof fn lemma_index_of_unique(ks: Seq<Seq<char>>, i: int)
    requires
        ks.no_duplicates(),
        0 <= i < ks.len(),
    ensures
        ks.contains(ks[i]),
        ks.index_of(ks[i]) == i,
{
    assert(ks[i] == ks[i]);
    let j = ks.index_of(ks[i]);
    assert(0 <= j < ks.len() && ks[j] == ks[i]);
}

pub proof fn lemma_assoc_at<V>(ks: Seq<Seq<char>>, vs: Seq<V>, i: int)
    requires
        ks.no_duplicates(),
        ks.len() == vs.len(),
        0 <= i < ks.len(),
    ensures
        assoc(ks, vs).contains_key(ks[i]),
        assoc(ks, vs)[ks[i]] == vs[i],
{
    lemma_index_of_unique(ks, i);
}

pub proof fn lemma_assoc_update<V>(ks: Seq<Seq<char>>, vs: Seq<V>, i: int, v: V)
    requires
        ks.no_duplicates(),
        ks.len() == vs.len(),
        0 <= i < ks.len(),
    ensures
        assoc(ks, vs.update(i, v)) == assoc(ks, vs).insert(ks[i], v),
{
    let a = assoc(ks, vs.update(i, v));
    let b = assoc(ks, vs).insert(ks[i], v);
    assert forall|k: Seq<char>| #[trigger] a.contains_key(k) implies a[k] == b[k] by {
        let j = ks.index_of(k);
        lemma_index_of_unique(ks, j);
        lemma_index_of_unique(ks, i);
    }
    assert(a.dom() =~= b.dom());
    assert(a =~= b);
}

pub proof fn lemma_assoc_insert<V>(ks: Seq<Seq<char>>, vs: Seq<V>, p: int, k: Seq<char>, v: V)
    requires
        ks.no_duplicates(),
        ks.len() == vs.len(),
        0 <= p <= ks.len(),
        !ks.contains(k),
    ensures
        ks.insert(p, k).no_duplicates(),
        assoc(ks.insert(p, k), vs.insert(p, v)) == assoc(ks, vs).insert(k, v),
{
    let nks = ks.insert(p, k);
    let nvs = vs.insert(p, v);
    assert forall|i: int, j: int|
        0 <= i < nks.len() && 0 <= j < nks.len() && i != j implies nks[i] != nks[j] by {
        if i == p {
            assert(ks.contains(nks[j]) ==> nks[j] != k);
            if j < p {
                assert(nks[j] == ks[j]);
            } else {
                assert(nks[j] == ks[j - 1]);
            }
        } else if j == p {
            if i < p {
                assert(nks[i] == ks[i]);
            } else {
                assert(nks[i] == ks[i - 1]);
            }
        }
    }
    let a = assoc(nks, nvs);
    let b = assoc(ks, vs).insert(k, v);
    assert forall|x: Seq<char>| a.contains_key(x) <==> b.contains_key(x) by {
        if nks.contains(x) {
            let j = choose|j: int| 0 <= j < nks.len() && nks[j] == x;
            if j < p {
                assert(ks[j] == x);
            } else if j > p {
                assert(ks[j - 1] == x);
            }
        }
        if ks.contains(x) {
            let j = choose|j: int| 0 <= j < ks.len() && ks[j] == x;
            if j < p {
                assert(nks[j] == x);
            } else {
                assert(nks[j + 1] == x);
            }
        }
        if x == k {
            assert(nks[p] == k);
        }
    }
    assert forall|x: Seq<char>| #[trigger] a.contains_key(x) implies a[x] == b[x] by {
        let j = nks.index_of(x);
        lemma_index_of_unique(nks, j);
        if j < p {
            assert(ks[j] == x);
            lemma_index_of_unique(ks, j);
        } else if j > p {
            assert(ks[j - 1] == x);
            lemma_index_of_unique(ks, j - 1);
        }
    }
    assert(a.dom() =~= b.dom());
    assert(a =~= b);
}

pub proof fn lemma_assoc_push<V>(ks: Seq<Seq<char>>, vs: Seq<V>, k: Seq<char>, v: V)
    requires
        ks.no_duplicates(),
        ks.len() == vs.len(),
        !ks.contains(k),
    ensures
        ks.push(k).no_duplicates(),
        assoc(ks.push(k), vs.push(v)) == assoc(ks, vs).insert(k, v),
{
    assert(ks.insert(ks.len() as int, k) =~= ks.push(k));
    assert(vs.insert(vs.len() as int, v) =~= vs.push(v));
    lemma_assoc_insert(ks, vs, ks.len() as int, k, v);
}

pub proof fn lemma_assoc_empty<V>(ks: Seq<Seq<char>>, vs: Seq<V>)
    requires
        ks.len() == 0,
    ensures
        assoc(ks, vs) == Map::<Seq<char>, V>::empty(),
{
    assert(assoc(ks, vs) =~= Map::<Seq<char>, V>::empty());
}

/// Where a key stands in a list of keyed pairs in strict key order: `Ok` with
/// its position, or `Err` with the position at which it would be inserted.
pub fn locate<X>(e: &Vec<(String, X)>, key: &str) -> (r: Result<usize, usize>)
    requires
        strictly_sorted(keys_of(e@)),
    ensures
        match r {
            Ok(i) => i < e@.len() && e@[i as int].0@ == key@,
            Err(p) => p <= e@.len() && !keys_of(e@).contains(key@) && (forall|j: int|
                0 <= j < p ==> str_lt(#[trigger] keys_of(e@)[j], key@)) && (forall|j: int|
                p <= j < e@.len() ==> str_lt(key@, #[trigger] keys_of(e@)[j])),
        },
{
    let mut i: usize = 0;
    while i < e.len()
        invariant
            i <= e@.len(),
            strictly_sorted(keys_of(e@)),
            forall|j: int| 0 <= j < i ==> str_lt(#[trigger] keys_of(e@)[j], key@),
        decreases e@.len() - i,
    {
        match compare_str(e[i].0.as_str(), key) {
            KeyOrder::Less => {
                i = i + 1;
            },
            KeyOrder::Equal => {
                return Ok(i);
            },
            KeyOrder::Greater => {
                assert forall|j: int| i <= j < e@.len() implies str_lt(
                    key@,
                    #[trigger] keys_of(e@)[j],
                ) by {
                    if j > i {
                        lemma_str_lt_transitive(key@, keys_of(e@)[i as int], keys_of(e@)[j]);
                    }
                }
                assert forall|j: int| 0 <= j < e@.len() implies keys_of(e@)[j] != key@ by {
                    if j < i {
                        lemma_str_lt_asymmetric(keys_of(e@)[j], key@);
                    } else {
                        lemma_str_lt_asymmetric(key@, keys_of(e@)[j]);
                    }
                }
                return Err(i);
            },
        }
    }
    assert forall|j: int| 0 <= j < e@.len() implies keys_of(e@)[j] != key@ by {
        lemma_str_lt_asymmetric(keys_of(e@)[j], key@);
    }
    Err(i)
}

/// Where a string stands in a list of strings in strict order: `Ok` with its
/// position, or `Err` with the position at which it would be inserted.
pub fn locate_str(v: &Vec<String>, s: &str) -> (r: Result<usize, usize>)
    requires
        strictly_sorted(strs(v@)),
    ensures
        match r {
            Ok(i) => i < v@.len() && v@[i as int]@ == s@,
            Err(p) => p <= v@.len() && !strs(v@).contains(s@) && (forall|j: int|
                0 <= j < p ==> str_lt(#[trigger] strs(v@)[j], s@)) && (forall|j: int|
                p <= j < v@.len() ==> str_lt(s@, #[trigger] strs(v@)[j])),
        },
{
    let mut i: usize = 0;
    while i < v.len()
        invariant
            i <= v@.len(),
            strictly_sorted(strs(v@)),
            forall|j: int| 0 <= j < i ==> str_lt(#[trigger] strs(v@)[j], s@),
        decreases v@.len() - i,
    {
        match compare_str(v[i].as_str(), s) {
            KeyOrder::Less => {
                i = i + 1;
            },
            KeyOrder::Equal => {
                return Ok(i);
            },
            KeyOrder::Greater => {
                assert forall|j: int| i <= j < v@.len() implies str_lt(
                    s@,
                    #[trigger] strs(v@)[j],
                ) by {
                    if j > i {
                        lemma_str_lt_transitive(s@, strs(v@)[i as int], strs(v@)[j]);
                    }
                }
                assert forall|j: int| 0 <= j < v@.len() implies strs(v@)[j] != s@ by {
                    if j < i {
                        lemma_str_lt_asymmetric(strs(v@)[j], s@);
                    } else {
                        lemma_str_lt_asymmetric(s@, strs(v@)[j]);
                    }
                }
                return Err(i);
            },
        }
    }
    assert forall|j: int| 0 <= j < v@.len() implies strs(v@)[j] != s@ by {
        lemma_str_lt_asymmetric(strs(v@)[j], s@);
    }
    Err(i)
}

} // verus!

verus! {

pub proof fn lemma_insert_to_set<A>(s: Seq<A>, p: int, x: A)
    requires
        0 <= p <= s.len(),
    ensures
        s.insert(p, x).to_set() == s.to_set().insert(x),
{
    let t = s.insert(p, x);
    assert forall|a: A| t.to_set().contains(a) <==> s.to_set().insert(x).contains(a) by {
        if t.contains(a) {
            let j = choose|j: int| 0 <= j < t.len() && t[j] == a;
            if j < p {
                assert(s[j] == a);
            } else if j > p {
                assert(s[j - 1] == a);
            }
        }
        if s.contains(a) {
            let j = choose|j: int| 0 <= j < s.len() && s[j] == a;
            if j < p {
                assert(t[j] == a);
            } else {
                assert(t[j + 1] == a);
            }
        }
        if a == x {
            assert(t[p] == x);
        }
    }
    assert(t.to_set() =~= s.to_set().insert(x));
}

} // verus!
