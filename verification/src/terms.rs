//! Sequences of `(variable, coefficient)` terms sorted by variable, read as
//! maps from variable indices to coefficients.
use vstd::prelude::*;
use crate::rational::Rational;
use crate::var::VarId;

verus! {

pub type Term = (VarId, Rational);


/// Variables strictly increase along the sequence.
pub open spec fn sorted_terms<V>(s: Seq<(VarId, V)>) -> bool {
    forall|i: int, j: int| 0 <= i < j < s.len() ==> s[i].0.0 < s[j].0.0
}

/// Some term of `s` is on variable `k`.
pub open spec fn has_key<V>(s: Seq<(VarId, V)>, k: usize) -> bool {
    exists|i: int| 0 <= i < s.len() && s[i].0.0 == k
}

/// The position of the term on variable `k`.
pub open spec fn key_index<V>(s: Seq<(VarId, V)>, k: usize) -> int {
    choose|i: int| 0 <= i < s.len() && s[i].0.0 == k
}

/// The map from each variable of `s` to its coefficient.
pub open spec fn term_map<V>(s: Seq<(VarId, V)>) -> Map<usize, V> {
    Map::new(|k: usize| has_key(s, k), |k: usize| s[key_index(s, k)].1)
}

/// The term at position `i` is what the map holds for its variable.
pub proof fn lemma_term_index<V>(s: Seq<(VarId, V)>, i: int)
    requires
        sorted_terms(s),
        0 <= i < s.len(),
    ensures
        has_key(s, s[i].0.0),
        key_index(s, s[i].0.0) == i,
        term_map(s).contains_key(s[i].0.0),
        term_map(s)[s[i].0.0] == s[i].1,
{
    let k = s[i].0.0;
    assert(has_key(s, k));
    let j = key_index(s, k);
    if j < i {
        assert(s[j].0.0 < s[i].0.0);
    } else if j > i {
        assert(s[i].0.0 < s[j].0.0);
    }
}

/// Inserting a term at its sorted position inserts it in the map.
pub proof fn lemma_insert_term<V>(s: Seq<(VarId, V)>, p: int, k: usize, c: V)
    requires
        sorted_terms(s),
        0 <= p <= s.len(),
        forall|j: int| 0 <= j < p ==> s[j].0.0 < k,
        forall|j: int| p <= j < s.len() ==> s[j].0.0 > k,
    ensures
        sorted_terms(s.insert(p, (VarId(k), c))),
        term_map(s.insert(p, (VarId(k), c))) == term_map(s).insert(k, c),
{
    let t = s.insert(p, (VarId(k), c));
    assert(sorted_terms(t)) by {
        assert forall|i: int, j: int| 0 <= i < j < t.len() implies t[i].0.0 < t[j].0.0 by {
            if i < p && j < p {
            } else if i < p && j == p {
            } else if i < p {
                assert(t[j] == s[j - 1]);
            } else if i == p {
                assert(t[j] == s[j - 1]);
            } else {
                assert(t[i] == s[i - 1]);
                assert(t[j] == s[j - 1]);
            }
        }
    }
    assert forall|k2: usize| #[trigger] has_key(t, k2) <==> (has_key(s, k2) || k2 == k) by {
        if has_key(t, k2) {
            let i = choose|i: int| 0 <= i < t.len() && t[i].0.0 == k2;
            if i < p {
                assert(s[i].0.0 == k2);
            } else if i > p {
                assert(s[i - 1].0.0 == k2);
            }
        }
        if has_key(s, k2) {
            let i = choose|i: int| 0 <= i < s.len() && s[i].0.0 == k2;
            if i < p {
                assert(t[i].0.0 == k2);
            } else {
                assert(t[i + 1].0.0 == k2);
            }
        }
        if k2 == k {
            assert(t[p].0.0 == k2);
        }
    }
    assert forall|k2: usize| #[trigger] term_map(t).contains_key(k2) implies term_map(t)[k2]
        == term_map(s).insert(k, c)[k2] by {
        if k2 == k {
            lemma_term_index(t, p);
        } else {
            let i = choose|i: int| 0 <= i < s.len() && s[i].0.0 == k2;
            lemma_term_index(s, i);
            if i < p {
                lemma_term_index(t, i);
            } else {
                assert(t[i + 1] == s[i]);
                lemma_term_index(t, i + 1);
            }
        }
    }
    assert(term_map(t) =~= term_map(s).insert(k, c));
}

/// Replacing the coefficient of an existing term updates the map.
pub proof fn lemma_update_term<V>(s: Seq<(VarId, V)>, i: int, c: V)
    requires
        sorted_terms(s),
        0 <= i < s.len(),
    ensures
        sorted_terms(s.update(i, (s[i].0, c))),
        term_map(s.update(i, (s[i].0, c))) == term_map(s).insert(s[i].0.0, c),
{
    let k = s[i].0.0;
    let t = s.update(i, (s[i].0, c));
    assert(sorted_terms(t)) by {
        assert forall|a: int, b: int| 0 <= a < b < t.len() implies t[a].0.0 < t[b].0.0 by {
            assert(s[a].0.0 < s[b].0.0);
        }
    }
    assert forall|k2: usize| #[trigger] has_key(t, k2) <==> has_key(s, k2) by {
        if has_key(t, k2) {
            let j = choose|j: int| 0 <= j < t.len() && t[j].0.0 == k2;
            assert(s[j].0.0 == k2);
        }
        if has_key(s, k2) {
            let j = choose|j: int| 0 <= j < s.len() && s[j].0.0 == k2;
            assert(t[j].0.0 == k2);
        }
    }
    assert forall|k2: usize| #[trigger] term_map(t).contains_key(k2) implies term_map(t)[k2]
        == term_map(s).insert(k, c)[k2] by {
        let j = choose|j: int| 0 <= j < s.len() && s[j].0.0 == k2;
        lemma_term_index(s, j);
        lemma_term_index(t, j);
    }
    lemma_term_index(s, i);
    assert(term_map(t) =~= term_map(s).insert(k, c));
}

/// Removing the term at position `i` removes its variable from the map.
pub proof fn lemma_remove_term<V>(s: Seq<(VarId, V)>, i: int)
    requires
        sorted_terms(s),
        0 <= i < s.len(),
    ensures
        sorted_terms(s.remove(i)),
        term_map(s.remove(i)) == term_map(s).remove(s[i].0.0),
{
    let k = s[i].0.0;
    let t = s.remove(i);
    assert(sorted_terms(t)) by {
        assert forall|a: int, b: int| 0 <= a < b < t.len() implies t[a].0.0 < t[b].0.0 by {
            if b < i {
            } else if a < i {
                assert(t[b] == s[b + 1]);
            } else {
                assert(t[a] == s[a + 1]);
                assert(t[b] == s[b + 1]);
            }
        }
    }
    assert forall|k2: usize| #[trigger] has_key(t, k2) <==> (has_key(s, k2) && k2 != k) by {
        if has_key(t, k2) {
            let j = choose|j: int| 0 <= j < t.len() && t[j].0.0 == k2;
            if j < i {
                assert(s[j].0.0 == k2);
                assert(s[j].0.0 < s[i].0.0);
            } else {
                assert(s[j + 1].0.0 == k2);
                assert(s[i].0.0 < s[j + 1].0.0);
            }
        }
        if has_key(s, k2) && k2 != k {
            let j = choose|j: int| 0 <= j < s.len() && s[j].0.0 == k2;
            if j < i {
                assert(t[j].0.0 == k2);
            } else {
                assert(j != i);
                assert(t[j - 1].0.0 == k2);
            }
        }
    }
    assert forall|k2: usize| #[trigger] term_map(t).contains_key(k2) implies term_map(t)[k2]
        == term_map(s).remove(k)[k2] by {
        let j = choose|j: int| 0 <= j < s.len() && s[j].0.0 == k2;
        lemma_term_index(s, j);
        if j < i {
            lemma_term_index(t, j);
        } else {
            assert(j != i);
            assert(t[j - 1] == s[j]);
            lemma_term_index(t, j - 1);
        }
    }
    assert(term_map(t) =~= term_map(s).remove(k));
}

/// Appending a term above all others inserts it in the map.
pub proof fn lemma_push_term<V>(s: Seq<(VarId, V)>, k: usize, c: V)
    requires
        sorted_terms(s),
        forall|j: int| 0 <= j < s.len() ==> s[j].0.0 < k,
    ensures
        sorted_terms(s.push((VarId(k), c))),
        term_map(s.push((VarId(k), c))) == term_map(s).insert(k, c),
{
    lemma_insert_term(s, s.len() as int, k, c);
    assert(s.insert(s.len() as int, (VarId(k), c)) =~= s.push((VarId(k), c)));
}

/// The prefix of length `i + 1` adds the term at `i` to the prefix of length `i`.
pub proof fn lemma_take_term<V>(s: Seq<(VarId, V)>, i: int)
    requires
        sorted_terms(s),
        0 <= i < s.len(),
    ensures
        sorted_terms(s.take(i)),
        sorted_terms(s.take(i + 1)),
        !term_map(s.take(i)).contains_key(s[i].0.0),
        term_map(s.take(i + 1)) == term_map(s.take(i)).insert(s[i].0.0, s[i].1),
{
    let p = s.take(i);
    assert(sorted_terms(p));
    assert(s.take(i + 1) =~= p.push((VarId(s[i].0.0), s[i].1)));
    assert(forall|j: int| 0 <= j < p.len() ==> p[j].0.0 < s[i].0.0);
    lemma_push_term(p, s[i].0.0, s[i].1);
}

/// Rewriting every coefficient with `f`, keeping the variables, maps the values.
pub proof fn lemma_map_terms<V>(s: Seq<(VarId, V)>, t: Seq<(VarId, V)>, f: spec_fn(V) -> V)
    requires
        sorted_terms(s),
        s.len() == t.len(),
        forall|i: int| 0 <= i < s.len() ==> t[i] == (s[i].0, f(s[i].1)),
    ensures
        sorted_terms(t),
        term_map(t) == term_map(s).map_values(f),
{
    assert(sorted_terms(t)) by {
        assert forall|a: int, b: int| 0 <= a < b < t.len() implies t[a].0.0 < t[b].0.0 by {
            assert(s[a].0.0 < s[b].0.0);
        }
    }
    assert forall|k: usize| #[trigger] has_key(t, k) <==> has_key(s, k) by {
        if has_key(t, k) {
            let j = choose|j: int| 0 <= j < t.len() && t[j].0.0 == k;
            assert(s[j].0.0 == k);
        }
        if has_key(s, k) {
            let j = choose|j: int| 0 <= j < s.len() && s[j].0.0 == k;
            assert(t[j].0.0 == k);
        }
    }
    assert forall|k: usize| #[trigger] term_map(t).contains_key(k) implies term_map(t)[k]
        == term_map(s).map_values(f)[k] by {
        let j = choose|j: int| 0 <= j < s.len() && s[j].0.0 == k;
        lemma_term_index(s, j);
        lemma_term_index(t, j);
    }
    assert(term_map(t) =~= term_map(s).map_values(f));
}

/// A sorted sequence has as many terms as its map has variables.
pub proof fn lemma_terms_len<V>(s: Seq<(VarId, V)>)
    requires
        sorted_terms(s),
    ensures
        term_map(s).dom().finite(),
        term_map(s).len() == s.len(),
    decreases s.len(),
{
    if s.len() == 0 {
        lemma_empty_terms(s);
    } else {
        let n = s.len() - 1;
        lemma_take_term(s, n);
        assert(s.take(n + 1) =~= s);
        lemma_terms_len(s.take(n));
        assert(term_map(s).dom() =~= term_map(s.take(n)).dom().insert(s[n].0.0));
    }
}

/// A sorted sequence of terms is determined by its map.
pub proof fn lemma_terms_unique<V>(s: Seq<(VarId, V)>, t: Seq<(VarId, V)>)
    requires
        sorted_terms(s),
        sorted_terms(t),
        term_map(s) == term_map(t),
    ensures
        s == t,
    decreases s.len(),
{
    lemma_terms_len(s);
    lemma_terms_len(t);
    if s.len() > 0 {
        let n = s.len() - 1;
        let ks = s[n].0.0;
        let kt = t[n].0.0;
        lemma_term_index(s, n);
        lemma_term_index(t, n);
        let i = key_index(t, ks);
        let j = key_index(s, kt);
        assert(has_key(t, ks));
        assert(has_key(s, kt));
        if ks != kt {
            assert(t[i].0.0 == ks);
            assert(s[j].0.0 == kt);
            assert(i < n) by {
                if i == n {
                    assert(t[n].0.0 == ks);
                }
            }
            assert(j < n) by {
                if j == n {
                    assert(s[n].0.0 == kt);
                }
            }
            assert(ks < kt);
            assert(kt < ks);
        }
        assert(s[n].1 == t[n].1);
        lemma_take_term(s, n);
        lemma_take_term(t, n);
        assert(s.take(n + 1) =~= s);
        assert(t.take(n + 1) =~= t);
        assert(term_map(s.take(n)) =~= term_map(s).remove(ks));
        assert(term_map(t.take(n)) =~= term_map(t).remove(kt));
        lemma_terms_unique(s.take(n), t.take(n));
        assert(s =~= s.take(n).push(s[n]));
        assert(t =~= t.take(n).push(t[n]));
    } else {
        assert(s =~= t);
    }
}

/// The map of a prefix is part of the map of the whole.
pub proof fn lemma_take_submap<V>(s: Seq<(VarId, V)>, i: int)
    requires
        sorted_terms(s),
        0 <= i <= s.len(),
    ensures
        term_map(s.take(i)).submap_of(term_map(s)),
{
    let p = s.take(i);
    assert(sorted_terms(p));
    assert forall|k: usize| #[trigger] term_map(p).dom().contains(k) implies #[trigger] term_map(s).dom().contains(k)
        && term_map(p)[k] == term_map(s)[k] by {
        let j = choose|j: int| 0 <= j < p.len() && p[j].0.0 == k;
        lemma_term_index(p, j);
        assert(p[j] == s[j]);
        lemma_term_index(s, j);
    }
}

/// The empty prefix is the empty map.
pub proof fn lemma_empty_terms_take<V>(s: Seq<(VarId, V)>)
    ensures
        term_map(s.take(0)) == Map::<usize, V>::empty(),
{
    lemma_empty_terms(s.take(0));
}

/// The empty sequence is the empty map.
pub proof fn lemma_empty_terms<V>(s: Seq<(VarId, V)>)
    requires
        s.len() == 0,
    ensures
        term_map(s) == Map::<usize, V>::empty(),
{
    assert(term_map(s) =~= Map::<usize, V>::empty());
}

/// The position of the term on `k`, or where one would be inserted.
pub fn find_key<V>(s: &Vec<(VarId, V)>, k: usize) -> (r: Result<usize, usize>)
    requires
        sorted_terms(s@),
    ensures
        r matches Ok(i) ==> i < s.len() && s@[i as int].0.0 == k,
        r matches Err(p) ==> p <= s.len() && (forall|j: int| 0 <= j < p ==> s@[j].0.0 < k) && (
        forall|j: int| p <= j < s.len() ==> s@[j].0.0 > k),
        r is Ok <==> term_map(s@).contains_key(k),
        r matches Ok(i) ==> term_map(s@)[k] == s@[i as int].1,
{
    let mut i: usize = 0;
    while i < s.len() && s[i].0.0 < k
        invariant
            i <= s.len(),
            forall|j: int| 0 <= j < i ==> s@[j].0.0 < k,
        decreases s.len() - i,
    {
        i = i + 1;
    }
    if i < s.len() && s[i].0.0 == k {
        proof {
            lemma_term_index(s@, i as int);
        }
        Ok(i)
    } else {
        proof {
            assert forall|j: int| i <= j < s.len() implies s@[j].0.0 > k by {
                if j > i {
                    assert(s@[i as int].0.0 < s@[j].0.0);
                }
            }
            if has_key(s@, k) {
                let j = choose|j: int| 0 <= j < s@.len() && s@[j].0.0 == k;
                assert(false);
            }
        }
        Err(i)
    }
}

/// Sets the value of key `k`, keeping the terms sorted.
pub fn set_key<V>(s: &mut Vec<(VarId, V)>, k: usize, c: V)
    requires
        sorted_terms(old(s)@),
    ensures
        sorted_terms(final(s)@),
        term_map(final(s)@) == term_map(old(s)@).insert(k, c),
        forall|i: int| 0 <= i < final(s)@.len() ==> (final(s)@[i].1 == c || exists|j: int| 0 <= j < old(s)@.len() && old(s)@[j] == final(s)@[i]),
{
    match find_key(s, k) {
        Ok(i) => {
            proof {
                lemma_update_term(s@, i as int, c);
                assert(s@[i as int].0 == VarId(k));
            }
            s.set(i, (VarId(k), c));
            proof {
                assert forall|a: int| 0 <= a < s@.len() implies (s@[a].1 == c || exists|j: int| 0 <= j < old(s)@.len() && old(s)@[j] == s@[a]) by {
                    if a != i {
                        assert(old(s)@[a] == s@[a]);
                    }
                }
            }
        },
        Err(p) => {
            proof {
                lemma_insert_term(s@, p as int, k, c);
            }
            s.insert(p, (VarId(k), c));
            proof {
                assert forall|a: int| 0 <= a < s@.len() implies (s@[a].1 == c || exists|j: int| 0 <= j < old(s)@.len() && old(s)@[j] == s@[a]) by {
                    if a < p {
                        assert(old(s)@[a] == s@[a]);
                    } else if a > p {
                        assert(old(s)@[a - 1] == s@[a]);
                    }
                }
            }
        },
    }
}

} // verus!
