//! Association lists: sequences of key–value pairs in which no key occurs
//! twice, and the finite map each of them stands for.
//!
//! The stores of this crate keep their entries in vectors, in insertion
//! order. The functions here give such a vector its meaning as a `Map` and
//! say how pushing, updating and removing an entry changes that map.

use vstd::prelude::*;
use crate::text::{ascending, lemma_precedes_irreflexive, lemma_precedes_transitive, precedes};

verus! {

/// No key occurs at two positions.
pub open spec fn distinct_keys<K, V>(s: Seq<(K, V)>) -> bool {
    forall|i: int, j: int| 0 <= i < j < s.len() ==> s[i].0 != s[j].0
}

/// Some pair of `s` has the key `k`.
pub open spec fn has_key<K, V>(s: Seq<(K, V)>, k: K) -> bool {
    exists|i: int| 0 <= i < s.len() && #[trigger] s[i].0 == k
}

/// A position at which the key `k` stands, if there is one.
pub open spec fn position_of<K, V>(s: Seq<(K, V)>, k: K) -> int {
    choose|i: int| 0 <= i < s.len() && #[trigger] s[i].0 == k
}

/// The keys of `s`, in order.
pub open spec fn keys_of<K, V>(s: Seq<(K, V)>) -> Seq<K> {
    Seq::new(s.len(), |i: int| s[i].0)
}

/// The map that the pairs of `s` describe.
pub open spec fn to_map<K, V>(s: Seq<(K, V)>) -> Map<K, V> {
    Map::new(|k: K| has_key(s, k), |k: K| s[position_of(s, k)].1)
}

/// Each pair of a list with distinct keys is an entry of its map.
pub proof fn lemma_to_map_at<K, V>(s: Seq<(K, V)>, i: int)
    requires
        distinct_keys(s),
        0 <= i < s.len(),
    ensures
        has_key(s, s[i].0),
        position_of(s, s[i].0) == i,
        to_map(s).contains_key(s[i].0),
        to_map(s)[s[i].0] == s[i].1,
{
    let k = s[i].0;
    assert(s[i].0 == k);
    let p = position_of(s, k);
    assert(0 <= p < s.len() && s[p].0 == k);
    if p < i {
        assert(s[p].0 != s[i].0);
    } else if i < p {
        assert(s[i].0 != s[p].0);
    }
}

/// Pushing a pair with a fresh key inserts it into the map.
pub proof fn lemma_to_map_push<K, V>(s: Seq<(K, V)>, k: K, v: V)
    requires
        distinct_keys(s),
        !has_key(s, k),
    ensures
        distinct_keys(s.push((k, v))),
        to_map(s.push((k, v))) =~= to_map(s).insert(k, v),
{
    let t = s.push((k, v));
    assert forall|i: int, j: int| 0 <= i < j < t.len() implies t[i].0 != t[j].0 by {
        if j == s.len() {
            assert(s[i].0 == t[i].0);
        } else {
            assert(s[i].0 != s[j].0);
        }
    }
    assert forall|x: K| has_key(t, x) <==> (x == k || has_key(s, x)) by {
        if has_key(t, x) {
            let p = position_of(t, x);
            if p < s.len() {
                assert(s[p].0 == x);
            }
        }
        if x == k {
            assert(t[s.len() as int].0 == k);
        }
        if has_key(s, x) {
            let p = position_of(s, x);
            assert(t[p].0 == x);
        }
    }
    assert forall|x: K| has_key(t, x) implies #[trigger] to_map(t)[x] == to_map(s).insert(k, v)[x] by {
        if x == k {
            lemma_to_map_at(t, s.len() as int);
        } else {
            let p = position_of(s, x);
            assert(t[p] == s[p]);
            lemma_to_map_at(t, p);
            lemma_to_map_at(s, p);
        }
    }
}

/// Replacing the value at position `i` replaces the value of that key.
pub proof fn lemma_to_map_update<K, V>(s: Seq<(K, V)>, i: int, v: V)
    requires
        distinct_keys(s),
        0 <= i < s.len(),
    ensures
        distinct_keys(s.update(i, (s[i].0, v))),
        to_map(s.update(i, (s[i].0, v))) =~= to_map(s).insert(s[i].0, v),
{
    let k = s[i].0;
    let t = s.update(i, (k, v));
    assert forall|a: int, b: int| 0 <= a < b < t.len() implies t[a].0 != t[b].0 by {
        assert(t[a].0 == s[a].0 && t[b].0 == s[b].0);
    }
    assert forall|x: K| has_key(t, x) <==> has_key(s, x) by {
        if has_key(t, x) {
            let p = position_of(t, x);
            assert(s[p].0 == x);
        }
        if has_key(s, x) {
            let p = position_of(s, x);
            assert(t[p].0 == x);
        }
    }
    lemma_to_map_at(s, i);
    assert forall|x: K| has_key(t, x) implies #[trigger] to_map(t)[x] == to_map(s).insert(k, v)[x] by {
        let p = position_of(s, x);
        assert(t[p].0 == x);
        lemma_to_map_at(t, p);
        lemma_to_map_at(s, p);
    }
}

/// Removing the pair at position `i` removes its key from the map.
pub proof fn lemma_to_map_remove<K, V>(s: Seq<(K, V)>, i: int)
    requires
        distinct_keys(s),
        0 <= i < s.len(),
    ensures
        distinct_keys(s.remove(i)),
        to_map(s.remove(i)) =~= to_map(s).remove(s[i].0),
{
    let k = s[i].0;
    let t = s.remove(i);
    assert forall|a: int, b: int| 0 <= a < b < t.len() implies t[a].0 != t[b].0 by {
        let a2 = if a < i { a } else { a + 1 };
        let b2 = if b < i { b } else { b + 1 };
        assert(t[a] == s[a2] && t[b] == s[b2]);
        assert(s[a2].0 != s[b2].0);
    }
    assert forall|x: K| has_key(t, x) <==> (x != k && has_key(s, x)) by {
        if has_key(t, x) {
            let p = position_of(t, x);
            let p2 = if p < i { p } else { p + 1 };
            assert(t[p] == s[p2]);
            assert(s[p2].0 == x);
            if x == k {
                if p2 < i {
                    assert(s[p2].0 != s[i].0);
                } else {
                    assert(s[i].0 != s[p2].0);
                }
            }
        }
        if x != k && has_key(s, x) {
            let p = position_of(s, x);
            let q = if p < i { p } else { p - 1 };
            assert(t[q] == s[p]);
            assert(t[q].0 == x);
        }
    }
    assert forall|x: K| has_key(t, x) implies #[trigger] to_map(t)[x] == to_map(s).remove(k)[x] by {
        let p = position_of(s, x);
        let q = if p < i { p } else { p - 1 };
        assert(t[q] == s[p]);
        lemma_to_map_at(t, q);
        lemma_to_map_at(s, p);
    }
}

/// The map of a list has exactly the list's keys.
pub proof fn lemma_to_map_keys<K, V>(s: Seq<(K, V)>)
    ensures
        to_map(s).dom() =~= keys_of(s).to_set(),
        distinct_keys(s) <==> keys_of(s).no_duplicates(),
{
    let ks = keys_of(s);
    assert forall|k: K| has_key(s, k) <==> ks.contains(k) by {
        if has_key(s, k) {
            let p = position_of(s, k);
            assert(ks[p] == k);
        }
        if ks.contains(k) {
            let p = choose|p: int| 0 <= p < ks.len() && ks[p] == k;
            assert(s[p].0 == k);
        }
    }
    if distinct_keys(s) {
        assert forall|i: int, j: int| 0 <= i < ks.len() && 0 <= j < ks.len() && i != j implies ks[i] != ks[j] by {
            if i < j {
                assert(s[i].0 != s[j].0);
            } else {
                assert(s[j].0 != s[i].0);
            }
        }
    }
    if ks.no_duplicates() {
        assert forall|i: int, j: int| 0 <= i < j < s.len() implies s[i].0 != s[j].0 by {
            assert(ks[i] != ks[j]);
        }
    }
}

/// Inserting a pair with a fresh key at any position inserts it into the
/// map.
pub proof fn lemma_to_map_insert<K, V>(s: Seq<(K, V)>, i: int, k: K, v: V)
    requires
        distinct_keys(s),
        !has_key(s, k),
        0 <= i <= s.len(),
    ensures
        distinct_keys(s.insert(i, (k, v))),
        to_map(s.insert(i, (k, v))) =~= to_map(s).insert(k, v),
{
    let t = s.insert(i, (k, v));
    assert forall|a: int| 0 <= a < t.len() implies #[trigger] t[a] == (if a < i {
        s[a]
    } else if a == i {
        (k, v)
    } else {
        s[a - 1]
    }) by {}
    assert forall|a: int, b: int| 0 <= a < b < t.len() implies t[a].0 != t[b].0 by {
        if a == i {
            assert(s[b - 1].0 == t[b].0);
        } else if b == i {
            assert(s[if a < i { a } else { a - 1 }].0 == t[a].0);
        } else {
            let a0 = if a < i { a } else { a - 1 };
            let b0 = if b < i { b } else { b - 1 };
            assert(s[a0].0 != s[b0].0);
        }
    }
    assert forall|x: K| has_key(t, x) <==> (x == k || has_key(s, x)) by {
        if has_key(t, x) {
            let p = position_of(t, x);
            if p < i {
                assert(s[p].0 == x);
            } else if p > i {
                assert(s[p - 1].0 == x);
            }
        }
        if x == k {
            assert(t[i].0 == k);
        }
        if has_key(s, x) {
            let p = position_of(s, x);
            let q = if p < i { p } else { p + 1 };
            assert(t[q].0 == x);
        }
    }
    assert forall|x: K| has_key(t, x) implies #[trigger] to_map(t)[x] == to_map(s).insert(k, v)[x] by {
        if x == k {
            lemma_to_map_at(t, i);
        } else {
            let p = position_of(s, x);
            let q = if p < i { p } else { p + 1 };
            assert(t[q] == s[p]);
            lemma_to_map_at(t, q);
            lemma_to_map_at(s, p);
        }
    }
}

/// The map that a list of pairs builds when its pairs are inserted one
/// after another, a later pair replacing an earlier one of the same key.
pub open spec fn built_map<K, V>(s: Seq<(K, V)>) -> Map<K, V>
    decreases s.len(),
{
    if s.len() == 0 {
        Map::empty()
    } else {
        built_map(s.drop_last()).insert(s.last().0, s.last().1)
    }
}

/// Inserting the pairs of a list with distinct keys one after another
/// builds the map of the list.
pub proof fn lemma_built_map<K, V>(s: Seq<(K, V)>)
    requires
        distinct_keys(s),
    ensures
        built_map(s) =~= to_map(s),
    decreases s.len(),
{
    if s.len() == 0 {
        assert forall|k: K| !has_key(s, k) by {}
    } else {
        let init = s.drop_last();
        assert forall|i: int, j: int| 0 <= i < j < init.len() implies init[i].0 != init[j].0 by {
            assert(s[i].0 != s[j].0);
        }
        lemma_built_map(init);
        if has_key(init, s.last().0) {
            let p = position_of(init, s.last().0);
            assert(s[p].0 != s[s.len() - 1].0);
        }
        lemma_to_map_push(init, s.last().0, s.last().1);
        assert(init.push((s.last().0, s.last().1)) =~= s);
    }
}

/// Pairs whose keys stand in strictly rising order hold no key twice.
pub proof fn lemma_sorted_distinct<V>(s: Seq<(Seq<char>, V)>)
    requires
        ascending(keys_of(s)),
    ensures
        distinct_keys(s),
{
    assert forall|i: int, j: int| 0 <= i < j < s.len() implies s[i].0 != s[j].0 by {
        assert(precedes(keys_of(s)[i], keys_of(s)[j]));
        lemma_precedes_irreflexive(s[i].0);
    }
}

/// Each pair of a list with rising keys is an entry of its map.
pub proof fn lemma_sorted_at<V>(s: Seq<(Seq<char>, V)>, i: int)
    requires
        ascending(keys_of(s)),
        0 <= i < s.len(),
    ensures
        has_key(s, s[i].0),
        position_of(s, s[i].0) == i,
        to_map(s).contains_key(s[i].0),
        to_map(s)[s[i].0] == s[i].1,
{
    lemma_sorted_distinct(s);
    lemma_to_map_at(s, i);
}

/// Replacing the value at a position keeps the keys rising and replaces
/// the value of that key in the map.
pub proof fn lemma_sorted_update<V>(s: Seq<(Seq<char>, V)>, i: int, v: V)
    requires
        ascending(keys_of(s)),
        0 <= i < s.len(),
    ensures
        ascending(keys_of(s.update(i, (s[i].0, v)))),
        keys_of(s.update(i, (s[i].0, v))) =~= keys_of(s),
        to_map(s.update(i, (s[i].0, v))) =~= to_map(s).insert(s[i].0, v),
{
    lemma_sorted_distinct(s);
    lemma_to_map_update(s, i, v);
    assert(keys_of(s.update(i, (s[i].0, v))) =~= keys_of(s));
}

/// Removing a pair keeps the keys rising and removes its key from the map.
pub proof fn lemma_sorted_remove<V>(s: Seq<(Seq<char>, V)>, i: int)
    requires
        ascending(keys_of(s)),
        0 <= i < s.len(),
    ensures
        ascending(keys_of(s.remove(i))),
        keys_of(s.remove(i)) =~= keys_of(s).remove(i),
        to_map(s.remove(i)) =~= to_map(s).remove(s[i].0),
{
    lemma_sorted_distinct(s);
    lemma_to_map_remove(s, i);
    let t = keys_of(s.remove(i));
    assert(t =~= keys_of(s).remove(i));
    assert forall|a: int, b: int| 0 <= a < b < t.len() implies precedes(#[trigger] t[a], #[trigger] t[b]) by {
        let a2 = if a < i { a } else { a + 1 };
        let b2 = if b < i { b } else { b + 1 };
        assert(precedes(keys_of(s)[a2], keys_of(s)[b2]));
    }
}

/// Inserting a pair with a new key at its place keeps the keys rising and
/// inserts the pair into the map. The place is where every key before it
/// stands before the new key and the key at it does not.
pub proof fn lemma_sorted_insert<V>(s: Seq<(Seq<char>, V)>, i: int, k: Seq<char>, v: V)
    requires
        ascending(keys_of(s)),
        0 <= i <= s.len(),
        forall|a: int| 0 <= a < i ==> precedes(#[trigger] s[a].0, k),
        i < s.len() ==> precedes(k, s[i].0),
    ensures
        ascending(keys_of(s.insert(i, (k, v)))),
        keys_of(s.insert(i, (k, v))) =~= keys_of(s).insert(i, k),
        !has_key(s, k),
        to_map(s.insert(i, (k, v))) =~= to_map(s).insert(k, v),
{
    lemma_sorted_distinct(s);
    assert forall|a: int| i <= a < s.len() implies precedes(k, #[trigger] s[a].0) by {
        if a > i {
            assert(precedes(keys_of(s)[i], keys_of(s)[a]));
            lemma_precedes_transitive(k, s[i].0, s[a].0);
        }
    }
    if has_key(s, k) {
        let p = position_of(s, k);
        lemma_precedes_irreflexive(k);
    }
    lemma_to_map_insert(s, i, k, v);
    let t = keys_of(s.insert(i, (k, v)));
    assert(t =~= keys_of(s).insert(i, k));
    assert forall|a: int, b: int| 0 <= a < b < t.len() implies precedes(#[trigger] t[a], #[trigger] t[b]) by {
        let a2 = if a < i { a } else { a - 1 };
        let b2 = if b < i { b } else { b - 1 };
        if a == i {
            assert(t[b] == s[b2].0);
        } else if b == i {
            assert(t[a] == s[a2].0);
        } else {
            assert(precedes(keys_of(s)[a2], keys_of(s)[b2]));
        }
    }
}

} // verus!
