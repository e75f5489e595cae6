//! Checking what was typed against what was expected.
//!
//! Guessed translations may be entered in any order. Entries that equal an
//! expected translation are paired with it first; only then is each
//! remaining entry paired with a remaining expected translation and marked
//! wrong.

use vstd::prelude::*;
use crate::text::texts;

verus! {

/// How many entries of `used` are set.
pub open spec fn count_set(used: Seq<bool>) -> nat
    decreases used.len(),
{
    if used.len() == 0 {
        0
    } else {
        count_set(used.drop_last()) + if used.last() {
            1nat
        } else {
            0nat
        }
    }
}

/// A list in which fewer entries are set than it is long has an entry that
/// is not set.
proof fn lemma_some_unset(used: Seq<bool>)
    ensures
        count_set(used) <= used.len(),
        count_set(used) < used.len() ==> exists|j: int| 0 <= j < used.len() && !used[j],
    decreases used.len(),
{
    if used.len() > 0 {
        lemma_some_unset(used.drop_last());
        if count_set(used) < used.len() {
            if used.last() {
                let j = choose|j: int| 0 <= j < used.drop_last().len() && !used.drop_last()[j];
                assert(!used[j]);
            } else {
                assert(!used[used.len() - 1]);
            }
        }
    }
}

/// Setting an entry that was not set raises the count by one.
proof fn lemma_set_one(used: Seq<bool>, j: int)
    requires
        0 <= j < used.len(),
        !used[j],
    ensures
        count_set(used.update(j, true)) == count_set(used) + 1,
    decreases used.len(),
{
    let after = used.update(j, true);
    if j == used.len() - 1 {
        assert(after.drop_last() =~= used.drop_last());
    } else {
        lemma_set_one(used.drop_last(), j);
        assert(after.drop_last() =~= used.drop_last().update(j, true));
    }
}

/// `pairing` pairs each typed entry with an expected one of its own.
pub open spec fn is_pairing(pairing: Seq<usize>, typed: Seq<Seq<char>>, expected: Seq<Seq<char>>) -> bool {
    &&& pairing.len() == typed.len()
    &&& forall|i: int| 0 <= i < pairing.len() ==> (#[trigger] pairing[i]) < expected.len()
    &&& forall|i: int, j: int| 0 <= i < j < pairing.len() ==> pairing[i] != pairing[j]
}

/// The typed entry at `i` equals the expected one it is paired with.
pub open spec fn is_right(pairing: Seq<usize>, typed: Seq<Seq<char>>, expected: Seq<Seq<char>>, i: int) -> bool {
    typed[i] == expected[pairing[i] as int]
}

/// The expected entry at `j` is paired with a typed entry that equals it.
pub open spec fn taken_right(
    pairing: Seq<usize>,
    typed: Seq<Seq<char>>,
    expected: Seq<Seq<char>>,
    j: int,
) -> bool {
    exists|i: int| 0 <= i < pairing.len() && #[trigger] pairing[i] == j && is_right(pairing, typed, expected, i)
}

/// The pairing matches equal entries first: no entry that is marked wrong
/// equals an expected entry that is left to the wrong ones, an entry typed
/// twice is right at its earlier place before it is right at its later one,
/// and the wrong entries take what is left in the order of the expected
/// list.
pub open spec fn matches_first(pairing: Seq<usize>, typed: Seq<Seq<char>>, expected: Seq<Seq<char>>) -> bool {
    &&& forall|i: int, j: int|
        0 <= i < pairing.len() && 0 <= j < expected.len() && !(#[trigger] is_right(
            pairing,
            typed,
            expected,
            i,
        )) && !(#[trigger] taken_right(pairing, typed, expected, j)) ==> typed[i] != expected[j]
    &&& forall|i: int, k: int|
        0 <= i < k < pairing.len() && typed[i] == typed[k] && #[trigger] is_right(
            pairing,
            typed,
            expected,
            k,
        ) ==> #[trigger] is_right(pairing, typed, expected, i)
    &&& forall|i: int, k: int|
        0 <= i < k < pairing.len() && !is_right(pairing, typed, expected, i) && !is_right(
            pairing,
            typed,
            expected,
            k,
        ) ==> #[trigger] pairing[i] < #[trigger] pairing[k]
}

/// Pairs each guessed entry with an expected translation: entries that
/// equal an expected translation are paired with it first, each of the
/// others then takes the first expected translation that is left. The
/// result gives, for each entry of `typed`, the position in `expected` of
/// the translation it is paired with.
pub fn match_guesses(expected: &Vec<String>, typed: &Vec<String>) -> (pairing: Vec<usize>)
    requires
        typed@.len() <= expected@.len(),
    ensures
        is_pairing(pairing@, texts(typed@), texts(expected@)),
        matches_first(pairing@, texts(typed@), texts(expected@)),
{
    let n: usize = expected.len();
    let k: usize = typed.len();
    let ghost ex = texts(expected@);
    let ghost ty = texts(typed@);
    let mut used: Vec<bool> = Vec::new();
    let mut j: usize = 0;
    while j < n
        invariant
            j <= n,
            used@.len() == j,
            forall|q: int| 0 <= q < j ==> !used@[q],
            count_set(used@) == 0,
        decreases n - j,
    {
        let ghost before = used@;
        used.push(false);
        assert(used@.drop_last() =~= before);
        j += 1;
    }
    // First pass: an entry takes the first free expected translation that equals it.
    let mut pairing: Vec<usize> = Vec::new();
    let mut i: usize = 0;
    while i < k
        invariant
            n == expected@.len(),
            k == typed@.len(),
            k <= n,
            ex == texts(expected@),
            ty == texts(typed@),
            i <= k,
            used@.len() == n,
            pairing@.len() == i,
            forall|a: int| 0 <= a < i ==> (#[trigger] pairing@[a]) <= n,
            forall|a: int| 0 <= a < i && (#[trigger] pairing@[a]) < n ==> used@[pairing@[a] as int] && ty[a]
                == ex[pairing@[a] as int],
            forall|a: int, b: int|
                0 <= a < b < i && (#[trigger] pairing@[a]) < n ==> pairing@[a] != #[trigger] pairing@[b],
            forall|q: int|
                0 <= q < n && #[trigger] used@[q] ==> exists|a: int| 0 <= a < i && #[trigger] pairing@[a] == q,
            forall|a: int, q: int|
                0 <= a < i && pairing@[a] == n && 0 <= q < n && !(#[trigger] used@[q]) ==> #[trigger] ty[a]
                    != ex[q],
            forall|a: int, b: int|
                0 <= a < b < i && ty[a] == ty[b] && (#[trigger] pairing@[b]) < n ==> (#[trigger] pairing@[a]) < n,
            count_set(used@) + count_open(pairing@, n) == i,
        decreases k - i,
    {
        let ghost used_before = used@;
        let ghost pairing_before = pairing@;
        let mut found: usize = n;
        let mut q: usize = 0;
        while q < n && found == n
            invariant
                n == expected@.len(),
                i < typed@.len(),
                ex == texts(expected@),
                ty == texts(typed@),
                used@.len() == n,
                q <= n,
                found <= n,
                found < n ==> !used@[found as int] && ty[i as int] == ex[found as int],
                found == n ==> forall|p: int| 0 <= p < q && !(#[trigger] used@[p]) ==> ty[i as int] != ex[p],
            decreases n - q + (if found == n { 1int } else { 0int }),
        {
            if !used[q] && expected[q] == typed[i] {
                found = q;
            } else {
                q += 1;
            }
        }
        if found < n {
            used.set(found, true);
            proof {
                lemma_set_one(used_before, found as int);
            }
        }
        pairing.push(found);
        proof {
            assert(pairing@.drop_last() =~= pairing_before);
            assert forall|p: int| 0 <= p < n && #[trigger] used@[p] implies exists|a: int|
                0 <= a < i + 1 && #[trigger] pairing@[a] == p by {
                if p == found {
                    assert(pairing@[i as int] == p);
                } else {
                    assert(used_before[p]);
                    let a = choose|a: int| 0 <= a < i && #[trigger] pairing_before[a] == p;
                    assert(pairing@[a] == p);
                }
            }
            assert forall|a: int, b: int| 0 <= a < b < i + 1 && (#[trigger] pairing@[a]) < n implies pairing@[a]
                != #[trigger] pairing@[b] by {
                if b == i {
                    assert(pairing_before[a] == pairing@[a]);
                    assert(used_before[pairing@[a] as int]);
                } else {
                    assert(pairing_before[a] == pairing@[a] && pairing_before[b] == pairing@[b]);
                }
            }
            assert forall|a: int, p: int|
                0 <= a < i + 1 && pairing@[a] == n && 0 <= p < n && !(#[trigger] used@[p]) implies #[trigger] ty[a]
                != ex[p] by {
                if a < i {
                    assert(pairing_before[a] == n);
                    assert(!used_before[p]);
                }
            }
            assert forall|a: int, b: int|
                0 <= a < b < i + 1 && ty[a] == ty[b] && (#[trigger] pairing@[b]) < n implies (#[trigger] pairing@[a])
                < n by {
                if b == i {
                    assert(pairing_before[a] == pairing@[a]);
                    if pairing@[a] == n {
                        assert(!used_before[found as int]);
                        assert(ty[a] != ex[found as int]);
                    }
                } else {
                    assert(pairing_before[a] == pairing@[a] && pairing_before[b] == pairing@[b]);
                }
            }
            assert forall|a: int| 0 <= a < i + 1 && (#[trigger] pairing@[a]) < n implies used@[pairing@[a] as int]
                && ty[a] == ex[pairing@[a] as int] by {
                if a < i {
                    assert(pairing_before[a] == pairing@[a]);
                    assert(used_before[pairing@[a] as int]);
                }
            }
        }
        i += 1;
    }
    // Second pass: each entry without a partner takes the first expected translation that is left.
    let ghost first = pairing@;
    let ghost left = used@;
    let mut next: usize = 0;
    let mut i: usize = 0;
    while i < k
        invariant
            n == expected@.len(),
            k == typed@.len(),
            k <= n,
            ex == texts(expected@),
            ty == texts(typed@),
            i <= k,
            next <= n,
            used@.len() == n,
            left.len() == n,
            first.len() == k,
            pairing@.len() == k,
            forall|a: int| 0 <= a < k ==> (#[trigger] first[a]) <= n,
            forall|a: int| 0 <= a < k && (#[trigger] first[a]) < n ==> pairing@[a] == first[a] && left[first[a] as int]
                && ty[a] == ex[first[a] as int],
            forall|a: int| i <= a < k ==> (#[trigger] pairing@[a]) == first[a],
            forall|a: int| 0 <= a < i && first[a] == n ==> (#[trigger] pairing@[a]) < next && !left[pairing@[a] as int],
            forall|a: int, b: int|
                0 <= a < b < i && first[a] == n && first[b] == n ==> (#[trigger] pairing@[a]) < (
                #[trigger] pairing@[b]),
            forall|a: int, q: int|
                0 <= a < k && first[a] == n && 0 <= q < n && !(#[trigger] left[q]) ==> #[trigger] ty[a] != ex[q],
            forall|a: int, b: int|
                0 <= a < b < k && (#[trigger] first[a]) < n ==> first[a] != #[trigger] first[b],
            forall|a: int, b: int|
                0 <= a < b < k && ty[a] == ty[b] && (#[trigger] first[b]) < n ==> (#[trigger] first[a]) < n,
            forall|q: int| 0 <= q < n && #[trigger] left[q] ==> used@[q],
            forall|q: int| 0 <= q < next ==> #[trigger] used@[q],
            forall|q: int|
                next <= q < n && #[trigger] used@[q] ==> left[q],
            forall|q: int|
                0 <= q < n && #[trigger] left[q] ==> exists|a: int| 0 <= a < k && #[trigger] first[a] == q,
            count_set(used@) + count_open(pairing@, n) == k,
        decreases k - i,
    {
        if pairing[i] == n {
            proof {
                assert(first[i as int] == n);
                lemma_close_one(pairing@, i as int, 0, n);
                lemma_some_unset(used@);
            }
            while next < n && used[next]
                invariant
                    next <= n,
                    used@.len() == n,
                    forall|q: int| 0 <= q < next ==> #[trigger] used@[q],
                    exists|q: int| 0 <= q < n && !used@[q],
                decreases n - next,
            {
                next += 1;
            }
            proof {
                if next == n {
                    let q = choose|q: int| 0 <= q < n && !used@[q];
                    assert(used@[q]);
                }
            }
            let ghost used_before = used@;
            let ghost pairing_before = pairing@;
            used.set(next, true);
            pairing.set(i, next);
            proof {
                lemma_set_one(used_before, next as int);
                lemma_close_one(pairing_before, i as int, next, n);
                assert(!left[next as int]);
            }
            next += 1;
        }
        i += 1;
    }
    proof {
        let p = pairing@;
        assert forall|a: int| 0 <= a < p.len() implies (#[trigger] p[a]) < ex.len() by {
            if first[a] < n {
                assert(p[a] == first[a]);
            }
        }
        assert forall|a: int, b: int| 0 <= a < b < p.len() implies p[a] != p[b] by {
            if first[a] < n && first[b] < n {
                assert(first[a] != first[b]);
            } else if first[a] < n {
                assert(left[p[a] as int]);
                assert(!left[p[b] as int]);
            } else if first[b] < n {
                assert(left[p[b] as int]);
                assert(!left[p[a] as int]);
            }
        }
        assert forall|a: int| 0 <= a < k implies (is_right(p, ty, ex, a) <==> (#[trigger] first[a]) < n) by {
            if first[a] == n {
                assert(!left[p[a] as int]);
                assert(ty[a] != ex[p[a] as int]);
            }
        }
        assert forall|q: int| 0 <= q < n && left[q] implies #[trigger] taken_right(p, ty, ex, q) by {
            let a = choose|a: int| 0 <= a < k && #[trigger] first[a] == q;
            assert(first[a] < n);
            assert(p[a] == q && is_right(p, ty, ex, a));
        }
        assert forall|a: int, q: int|
            0 <= a < p.len() && 0 <= q < ex.len() && !(#[trigger] is_right(p, ty, ex, a)) && !(#[trigger] taken_right(
                p,
                ty,
                ex,
                q,
            )) implies ty[a] != ex[q] by {
            assert(first[a] == n);
            assert(!left[q]);
        }
        assert forall|a: int, b: int|
            0 <= a < b < p.len() && ty[a] == ty[b] && #[trigger] is_right(p, ty, ex, b) implies #[trigger] is_right(
            p,
            ty,
            ex,
            a,
        ) by {
            assert(first[b] < n);
            assert(first[a] < n);
        }
        assert forall|a: int, b: int|
            0 <= a < b < p.len() && !is_right(p, ty, ex, a) && !is_right(p, ty, ex, b) implies #[trigger] p[a]
            < #[trigger] p[b] by {
            assert(first[a] == n && first[b] == n);
        }
    }
    pairing
}

/// How many entries of a pairing are still open: they hold `n`, which is
/// no position of the expected list.
pub open spec fn count_open(pairing: Seq<usize>, n: usize) -> nat
    decreases pairing.len(),
{
    if pairing.len() == 0 {
        0
    } else {
        count_open(pairing.drop_last(), n) + if pairing.last() == n {
            1nat
        } else {
            0nat
        }
    }
}

/// Giving an open entry a position closes it: one entry fewer is open.
proof fn lemma_close_one(pairing: Seq<usize>, i: int, position: usize, n: usize)
    requires
        0 <= i < pairing.len(),
        pairing[i] == n,
        position < n,
    ensures
        count_open(pairing, n) >= 1,
        count_open(pairing.update(i, position), n) + 1 == count_open(pairing, n),
    decreases pairing.len(),
{
    let after = pairing.update(i, position);
    if i == pairing.len() - 1 {
        assert(after.drop_last() =~= pairing.drop_last());
    } else {
        lemma_close_one(pairing.drop_last(), i, position, n);
        assert(after.drop_last() =~= pairing.drop_last().update(i, position));
    }
}

} // verus!
