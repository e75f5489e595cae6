//! Finding the words of the store that are close to a search text.

use vstd::prelude::*;
use vstd::seq_lib::{to_multiset_build, to_multiset_insert};
use crate::seqs::lemma_take_push;
use crate::text::precedes;
use crate::words::Words;

verus! {

/// The least of three numbers.
pub open spec fn least(a: nat, b: nat, c: nat) -> nat {
    if a <= b && a <= c {
        a
    } else if b <= c {
        b
    } else {
        c
    }
}

/// The edit distance between two texts: the least number of insertions,
/// deletions and substitutions of single characters that turn one text into
/// the other. Texts that end alike are as far apart as what stands before
/// their ends; otherwise one step is spent on dropping the end of the one,
/// on dropping the end of the other, or on making the ends alike.
pub open spec fn levenshtein_distance(a: Seq<char>, b: Seq<char>) -> nat
    decreases a.len() + b.len(),
{
    if a.len() == 0 {
        b.len()
    } else if b.len() == 0 {
        a.len()
    } else if a.last() == b.last() {
        levenshtein_distance(a.drop_last(), b.drop_last())
    } else {
        1 + least(
            levenshtein_distance(a.drop_last(), b),
            levenshtein_distance(a, b.drop_last()),
            levenshtein_distance(a.drop_last(), b.drop_last()),
        )
    }
}

/// The edit distance between two texts.
///
/// Trusted: this calls `strsim::levenshtein`, which its documentation
/// gives as the least number of insertions, deletions and substitutions
/// that change one string into the other, counted over their characters;
/// the contract says the result is that distance.
#[verifier::external_body]
fn levenshtein(a: &str, b: &str) -> (distance: usize)
    ensures
        distance == levenshtein_distance(a@, b@),
{
    strsim::levenshtein(a, b)
}

/// The distance below which a word counts as close to the search text.
pub const ACCEPTED_LEVENSHTEIN: usize = 4;

/// A word at this distance counts as close.
pub open spec fn is_near(distance: nat) -> bool {
    distance < 4
}

/// Whether a word at this distance counts as close.
pub fn near(distance: usize) -> (close: bool)
    ensures
        close == is_near(distance as nat),
{
    distance < ACCEPTED_LEVENSHTEIN
}

/// Candidates as values: each distance with its word.
pub open spec fn candidate_views(list: Seq<(usize, String)>) -> Seq<(nat, Seq<char>)> {
    Seq::new(list.len(), |i: int| (list[i].0 as nat, list[i].1@))
}

/// Each word of `words`, with its distance to `search`, that is close.
pub open spec fn near_words(words: Seq<Seq<char>>, search: Seq<char>) -> Seq<(nat, Seq<char>)> {
    words.filter(|w: Seq<char>| is_near(levenshtein_distance(w, search))).map_values(
        |w: Seq<char>| (levenshtein_distance(w, search), w),
    )
}

/// Puts a candidate into a list ordered by rising distance, after the
/// candidates of the same distance.
pub fn insert_by_distance(list: &mut Vec<(usize, String)>, distance: usize, word: String)
    requires
        forall|i: int, j: int| 0 <= i < j < old(list)@.len() ==> old(list)@[i].0 <= old(list)@[j].0,
    ensures
        forall|i: int, j: int| 0 <= i < j < final(list)@.len() ==> final(list)@[i].0 <= final(list)@[j].0,
        exists|p: int|
            0 <= p <= old(list)@.len() && #[trigger] candidate_views(final(list)@) == candidate_views(
                old(list)@,
            ).insert(p, (distance as nat, word@)) && (forall|i: int|
                0 <= i < p ==> old(list)@[i].0 <= distance) && (forall|i: int|
                p <= i < old(list)@.len() ==> old(list)@[i].0 > distance),
{
    let mut p: usize = 0;
    while p < list.len() && list[p].0 <= distance
        invariant
            p <= list@.len(),
            forall|i: int| 0 <= i < p ==> list@[i].0 <= distance,
        decreases list@.len() - p,
    {
        p += 1;
    }
    list.insert(p, (distance, word));
    proof {
        assert(candidate_views(list@) =~= candidate_views(old(list)@).insert(p as int, (distance as nat, word@)));
        assert forall|i: int| p <= i < old(list)@.len() implies old(list)@[i].0 > distance by {
            if i > p {
                assert(old(list)@[p as int].0 <= old(list)@[i].0);
            }
        }
        assert forall|i: int, j: int| 0 <= i < j < list@.len() implies list@[i].0 <= list@[j].0 by {
            let i0 = if i < p { i } else { i - 1 };
            let j0 = if j < p { j } else { j - 1 };
            if i != p && j != p {
                assert(old(list)@[i0].0 <= old(list)@[j0].0);
            } else if i == p {
                assert(old(list)@[j0].0 > distance);
            }
        }
    }
}

impl Words {
    /// The words of the store that are close to `search`, each with its
    /// distance, the closest first; words that are equally close come in
    /// the order of strings.
    pub fn find_near(&self, search: &str) -> (found: Vec<(usize, String)>)
        requires
            self.wf(),
        ensures
            candidate_views(found@).to_multiset() == near_words(self.words(), search@).to_multiset(),
            forall|i: int, j: int| 0 <= i < j < found@.len() ==> found@[i].0 <= found@[j].0,
            forall|i: int, j: int|
                0 <= i < j < found@.len() && found@[i].0 == found@[j].0 ==> precedes(
                    (#[trigger] found@[i]).1@,
                    (#[trigger] found@[j]).1@,
                ),
    {
        let ghost close = |w: Seq<char>| is_near(levenshtein_distance(w, search@));
        let ghost entry = |w: Seq<char>| (levenshtein_distance(w, search@), w);
        let mut found: Vec<(usize, String)> = Vec::new();
        let n: usize = self.len();
        let mut i: usize = 0;
        proof {
            reveal(Seq::filter);
            assert(self.words().take(0).filter(close).map_values(entry) =~= candidate_views(found@));
        }
        while i < n
            invariant
                self.wf(),
                n == self.words().len(),
                i <= n,
                close == (|w: Seq<char>| is_near(levenshtein_distance(w, search@))),
                entry == (|w: Seq<char>| (levenshtein_distance(w, search@), w)),
                candidate_views(found@).to_multiset() == self.words().take(i as int).filter(close).map_values(
                    entry,
                ).to_multiset(),
                forall|a: int, b: int| 0 <= a < b < found@.len() ==> found@[a].0 <= found@[b].0,
                forall|a: int, b: int|
                    0 <= a < b < found@.len() && found@[a].0 == found@[b].0 ==> precedes(
                        (#[trigger] found@[a]).1@,
                        (#[trigger] found@[b]).1@,
                    ),
                forall|a: int|
                    0 <= a < found@.len() ==> exists|q: int|
                        0 <= q < i && self.words()[q] == (#[trigger] found@[a]).1@,
            decreases n - i,
        {
            let word = self.word_at(i);
            let distance = levenshtein(word, search);
            let ghost before = candidate_views(found@);
            let ghost held = found@;
            proof {
                self.lemma_words();
                let w = self.words()[i as int];
                let head = self.words().take(i as int);
                lemma_take_push(self.words(), i as int);
                head.lemma_filter_push(w, close);
                if close(w) {
                    assert(head.filter(close).push(w).map_values(entry) =~= head.filter(close).map_values(
                        entry,
                    ).push(entry(w)));
                    to_multiset_build(head.filter(close).map_values(entry), entry(w));
                }
            }
            if near(distance) {
                insert_by_distance(&mut found, distance, word.to_owned());
                proof {
                    let p = choose|p: int|
                        0 <= p <= held.len() && #[trigger] candidate_views(found@) == candidate_views(held).insert(
                            p,
                            (distance as nat, word@),
                        ) && (forall|k: int| 0 <= k < p ==> held[k].0 <= distance) && (forall|k: int|
                            p <= k < held.len() ==> held[k].0 > distance);
                    to_multiset_insert(before, p, (distance as nat, word@));
                    let now = candidate_views(found@);
                    assert(before == candidate_views(held));
                    assert(before.len() == held.len());
                    assert(now == before.insert(p, (distance as nat, word@)));
                    assert(now.len() == before.len() + 1);
                    assert(found@.len() == now.len());
                    assert forall|a: int| 0 <= a < found@.len() implies #[trigger] now[a] == (if a < p {
                        before[a]
                    } else if a == p {
                        (distance as nat, word@)
                    } else {
                        before[a - 1]
                    }) by {}
                    assert forall|a: int| 0 <= a < found@.len() implies exists|q: int|
                        0 <= q < i + 1 && self.words()[q] == (#[trigger] found@[a]).1@ by {
                        assert(now[a].1 == found@[a].1@);
                        if a == p {
                            assert(self.words()[i as int] == found@[a].1@);
                        } else {
                            let a0 = if a < p { a } else { a - 1 };
                            assert(before[a0].1 == held[a0].1@);
                            let q = choose|q: int| 0 <= q < i && self.words()[q] == (#[trigger] held[a0]).1@;
                            assert(self.words()[q] == found@[a].1@);
                        }
                    }
                    assert forall|a: int, b: int|
                        0 <= a < b < found@.len() && found@[a].0 == found@[b].0 implies precedes(
                        (#[trigger] found@[a]).1@,
                        (#[trigger] found@[b]).1@,
                    ) by {
                        let a0 = if a < p { a } else { a - 1 };
                        let b0 = if b < p { b } else { b - 1 };
                        assert(now[a].1 == found@[a].1@ && now[b].1 == found@[b].1@);
                        assert(now[a].0 == found@[a].0 && now[b].0 == found@[b].0);
                        if a != p && b != p {
                            assert(before[a0] == (held[a0].0 as nat, held[a0].1@));
                            assert(before[b0] == (held[b0].0 as nat, held[b0].1@));
                            assert(precedes(held[a0].1@, held[b0].1@));
                        } else if b == p {
                            assert(before[a0] == (held[a0].0 as nat, held[a0].1@));
                            let q = choose|q: int| 0 <= q < i && self.words()[q] == (#[trigger] held[a0]).1@;
                            assert(precedes(self.words()[q], self.words()[i as int]));
                        } else {
                            assert(before[b0] == (held[b0].0 as nat, held[b0].1@));
                            assert(held[b0].0 > distance);
                        }
                    }
                }
            }
            i += 1;
        }
        assert(self.words().take(n as int) =~= self.words());
        found
    }
}

} // verus!
