//! Kinds of records and how many of each a store holds.

use vstd::prelude::*;
use crate::assoc::{
    distinct_keys, has_key, lemma_to_map_at, lemma_to_map_insert, lemma_to_map_update,
    position_of, to_map,
};

verus! {

/// The kind of a record, as statistics count it.
#[derive(Clone, Copy, Debug, PartialEq, Eq, Structural, PartialOrd, Ord, Hash)]
pub enum WordType {
    /// Known before it was ever added.
    Known,
    /// A noise entry.
    Trash,
    /// Being learned, on the rung with this index.
    Level(u8),
    /// Learned.
    Learned,
}

impl WordType {
    /// The place of the kind in the order `Known`, `Trash`, `Level(0)`,
    /// `Level(1)`, …, `Learned`.
    pub open spec fn rank(self) -> int {
        match self {
            WordType::Known => 0,
            WordType::Trash => 1,
            WordType::Level(n) => 2 + n as int,
            WordType::Learned => 258,
        }
    }

    /// Computes [`WordType::rank`].
    pub fn rank_number(&self) -> (rank: u16)
        ensures
            rank == self.rank(),
    {
        match self {
            WordType::Known => 0,
            WordType::Trash => 1,
            WordType::Level(n) => 2 + *n as u16,
            WordType::Learned => 258,
        }
    }
}

/// Counts by kind. Only kinds that were counted at least once are present,
/// and they are kept in the order of their rank.
#[derive(Debug)]
pub struct WordCounts {
    entries: Vec<(WordType, u64)>,
}

impl View for WordCounts {
    type V = Map<WordType, nat>;

    /// The count of each kind that is present.
    closed spec fn view(&self) -> Map<WordType, nat> {
        to_map(self.pairs())
    }
}

impl WordCounts {
    /// The entries as pairs of a kind and its count, in the order of rank.
    pub closed spec fn pairs(&self) -> Seq<(WordType, nat)> {
        Seq::new(self.entries@.len(), |i: int| (self.entries@[i].0, self.entries@[i].1 as nat))
    }

    /// The kinds stand in strictly rising rank and no count is zero.
    pub open spec fn wf(&self) -> bool {
        &&& forall|i: int, j: int|
            0 <= i < j < self.pairs().len() ==> (#[trigger] self.pairs()[i]).0.rank() < (
            #[trigger] self.pairs()[j]).0.rank()
        &&& forall|i: int| 0 <= i < self.pairs().len() ==> (#[trigger] self.pairs()[i]).1 > 0
    }

    /// The count of `kind`, zero if it is absent.
    pub open spec fn count(&self, kind: WordType) -> nat {
        if self@.contains_key(kind) {
            self@[kind]
        } else {
            0
        }
    }

    /// Rising ranks make the kinds distinct.
    pub proof fn lemma_distinct(&self)
        requires
            self.wf(),
        ensures
            distinct_keys(self.pairs()),
    {
        assert forall|i: int, j: int| 0 <= i < j < self.pairs().len() implies self.pairs()[i].0
            != self.pairs()[j].0 by {
            assert(self.pairs()[i].0.rank() < self.pairs()[j].0.rank());
        }
    }

    /// The entries are the view: each kind that is listed is a key of the
    /// view with the count that stands beside it, the view has no other
    /// key, and a kind is listed exactly if its count is above zero.
    pub proof fn lemma_counts(&self)
        requires
            self.wf(),
        ensures
            forall|i: int|
                0 <= i < self.pairs().len() ==> self@.contains_key((#[trigger] self.pairs()[i]).0)
                    && self@[self.pairs()[i].0] == self.pairs()[i].1 && self.count(self.pairs()[i].0)
                    == self.pairs()[i].1,
            forall|kind: WordType| #[trigger]
                self@.contains_key(kind) <==> exists|i: int|
                    0 <= i < self.pairs().len() && (#[trigger] self.pairs()[i]).0 == kind,
            forall|kind: WordType| #[trigger] self@.contains_key(kind) <==> self.count(kind) > 0,
            self@.dom().finite(),
    {
        self.lemma_distinct();
        let pairs = self.pairs();
        assert forall|i: int| 0 <= i < pairs.len() implies self@.contains_key((#[trigger] pairs[i]).0)
            && self@[pairs[i].0] == pairs[i].1 && self.count(pairs[i].0) == pairs[i].1 by {
            lemma_to_map_at(pairs, i);
        }
        assert forall|kind: WordType| #[trigger]
            self@.contains_key(kind) <==> exists|i: int| 0 <= i < pairs.len() && (#[trigger] pairs[i]).0 == kind by {
            if self@.contains_key(kind) {
                let i = position_of(pairs, kind);
                assert(pairs[i].0 == kind);
            }
            if exists|i: int| 0 <= i < pairs.len() && (#[trigger] pairs[i]).0 == kind {
                let i = choose|i: int| 0 <= i < pairs.len() && (#[trigger] pairs[i]).0 == kind;
                lemma_to_map_at(pairs, i);
            }
        }
        assert forall|kind: WordType| #[trigger] self@.contains_key(kind) <==> self.count(kind) > 0 by {
            if self@.contains_key(kind) {
                let i = position_of(pairs, kind);
                assert(pairs[i].0 == kind);
                lemma_to_map_at(pairs, i);
                assert(pairs[i].1 > 0);
            }
        }
        crate::assoc::lemma_to_map_keys(pairs);
        vstd::seq_lib::seq_to_set_is_finite(crate::assoc::keys_of(pairs));
    }

    /// No counts at all.
    pub fn new() -> (counts: WordCounts)
        ensures
            counts.wf(),
            counts@ =~= Map::<WordType, nat>::empty(),
    {
        let counts = WordCounts { entries: Vec::new() };
        assert(counts.pairs() =~= Seq::<(WordType, nat)>::empty());
        counts
    }
    /// The number of kinds that are present.
    pub fn len(&self) -> (n: usize)
        ensures
            n == self.pairs().len(),
    {
        self.entries.len()
    }

    /// The kind and its count at a position of the order by rank.
    pub fn entry_at(&self, pos: usize) -> (entry: (WordType, u64))
        requires
            pos < self.pairs().len(),
        ensures
            (entry.0, entry.1 as nat) == self.pairs()[pos as int],
    {
        self.entries[pos]
    }

    /// The position of the first kind whose rank is not below that of
    /// `kind`.
    fn slot(&self, kind: WordType) -> (p: usize)
        requires
            self.wf(),
        ensures
            p <= self.pairs().len(),
            p <= self.entries@.len(),
            forall|i: int| 0 <= i < p ==> (#[trigger] self.pairs()[i]).0.rank() < kind.rank(),
            forall|i: int| p <= i < self.pairs().len() ==> (#[trigger] self.pairs()[i]).0.rank() >= kind.rank(),
            p < self.pairs().len() && self.pairs()[p as int].0 == kind ==> self@.contains_key(kind)
                && self@[kind] == self.pairs()[p as int].1,
            !(p < self.pairs().len() && self.pairs()[p as int].0 == kind) ==> !has_key(self.pairs(), kind)
                && !self@.contains_key(kind),
    {
        let rank: u16 = kind.rank_number();
        let mut p: usize = 0;
        while p < self.entries.len() && self.entries[p].0.rank_number() < rank
            invariant
                self.wf(),
                p <= self.entries@.len(),
                self.entries@.len() == self.pairs().len(),
                rank == kind.rank(),
                forall|i: int| 0 <= i < p ==> (#[trigger] self.pairs()[i]).0.rank() < kind.rank(),
            decreases self.entries@.len() - p,
        {
            assert(self.pairs()[p as int].0 == self.entries@[p as int].0);
            p += 1;
        }
        proof {
            self.lemma_distinct();
            if p < self.pairs().len() {
                assert(self.pairs()[p as int].0 == self.entries@[p as int].0);
                assert forall|i: int| p <= i < self.pairs().len() implies (#[trigger] self.pairs()[i]).0.rank()
                    >= kind.rank() by {
                    if i > p {
                        assert(self.pairs()[p as int].0.rank() < self.pairs()[i].0.rank());
                    }
                }
                if self.pairs()[p as int].0 == kind {
                    lemma_to_map_at(self.pairs(), p as int);
                }
            }
            if has_key(self.pairs(), kind) {
                let q = position_of(self.pairs(), kind);
                assert(self.pairs()[q].0 == kind);
                if q < p {
                    assert(self.pairs()[q].0.rank() < kind.rank());
                } else if q > p {
                    assert(self.pairs()[p as int].0.rank() < self.pairs()[q].0.rank());
                    assert(self.pairs()[p as int].0.rank() >= kind.rank());
                }
            }
        }
        p
    }

    /// The count of `kind`, zero if it is absent.
    pub fn get(&self, kind: WordType) -> (n: u64)
        requires
            self.wf(),
        ensures
            n == self.count(kind),
    {
        let p = self.slot(kind);
        if p < self.entries.len() && self.entries[p].0 == kind {
            assert(self.pairs()[p as int].0 == self.entries@[p as int].0);
            self.entries[p].1
        } else {
            proof {
                if p < self.pairs().len() {
                    assert(self.pairs()[p as int].0 == self.entries@[p as int].0);
                }
            }
            0
        }
    }

    /// Counts one more record of `kind`.
    pub fn increment(&mut self, kind: WordType)
        requires
            old(self).wf(),
            old(self).count(kind) < u64::MAX,
        ensures
            final(self).wf(),
            final(self)@ == old(self)@.insert(kind, old(self).count(kind) + 1),
            final(self).count(kind) == old(self).count(kind) + 1,
            forall|other: WordType| other != kind ==> final(self).count(other) == old(self).count(other),
    {
        let p = self.slot(kind);
        proof {
            self.lemma_distinct();
            if p < self.pairs().len() {
                assert(self.pairs()[p as int].0 == self.entries@[p as int].0);
            }
        }
        if p < self.entries.len() && self.entries[p].0 == kind {
            let n: u64 = self.entries[p].1;
            self.entries[p].1 = n + 1;
            proof {
                let now = (n + 1) as nat;
                assert(self.pairs() =~= old(self).pairs().update(p as int, (kind, now)));
                lemma_to_map_update(old(self).pairs(), p as int, now);
                assert forall|i: int, j: int| 0 <= i < j < self.pairs().len() implies (#[trigger] self.pairs()[i]).0.rank()
                    < (#[trigger] self.pairs()[j]).0.rank() by {
                    assert(self.pairs()[i].0 == old(self).pairs()[i].0);
                    assert(self.pairs()[j].0 == old(self).pairs()[j].0);
                }
                assert forall|i: int| 0 <= i < self.pairs().len() implies (#[trigger] self.pairs()[i]).1 > 0 by {
                    if i != p {
                        assert(self.pairs()[i] == old(self).pairs()[i]);
                    }
                }
            }
        } else {
            self.entries.insert(p, (kind, 1));
            proof {
                let before = old(self).pairs();
                assert(self.pairs() =~= before.insert(p as int, (kind, 1nat)));
                lemma_to_map_insert(before, p as int, kind, 1nat);
                assert forall|i: int| 0 <= i < self.pairs().len() implies #[trigger] self.pairs()[i] == (if i < p {
                    before[i]
                } else if i == p {
                    (kind, 1nat)
                } else {
                    before[i - 1]
                }) by {}
                assert forall|i: int, j: int| 0 <= i < j < self.pairs().len() implies (#[trigger] self.pairs()[i]).0.rank()
                    < (#[trigger] self.pairs()[j]).0.rank() by {
                    let i0 = if i < p { i } else { i - 1 };
                    let j0 = if j < p { j } else { j - 1 };
                    if i == p {
                        assert(before[j0].0.rank() >= kind.rank());
                        assert(before[j0].0 != kind) by {
                            if j0 == p {
                            } else {
                                assert(before[p as int].0.rank() < before[j0].0.rank());
                            }
                        }
                        lemma_rank_injective(before[j0].0, kind);
                    } else if j == p {
                        assert(before[i0].0.rank() < kind.rank());
                    } else {
                        assert(before[i0].0.rank() < before[j0].0.rank());
                    }
                }
                assert forall|i: int| 0 <= i < self.pairs().len() implies (#[trigger] self.pairs()[i]).1 > 0 by {
                    if i < p {
                        assert(before[i].1 > 0);
                    } else if i > p {
                        assert(before[i - 1].1 > 0);
                    }
                }
            }
        }
    }
    /// Sets the count of `kind`.
    pub fn put_count(&mut self, kind: WordType, count: u64)
        requires
            old(self).wf(),
            count > 0,
        ensures
            final(self).wf(),
            final(self)@ == old(self)@.insert(kind, count as nat),
    {
        let p = self.slot(kind);
        proof {
            self.lemma_distinct();
            if p < self.pairs().len() {
                assert(self.pairs()[p as int].0 == self.entries@[p as int].0);
            }
        }
        if p < self.entries.len() && self.entries[p].0 == kind {
            self.entries[p].1 = count;
            proof {
                let now = count as nat;
                assert(self.pairs() =~= old(self).pairs().update(p as int, (kind, now)));
                lemma_to_map_update(old(self).pairs(), p as int, now);
                assert forall|i: int, j: int| 0 <= i < j < self.pairs().len() implies (#[trigger] self.pairs()[i]).0.rank()
                    < (#[trigger] self.pairs()[j]).0.rank() by {
                    assert(self.pairs()[i].0 == old(self).pairs()[i].0);
                    assert(self.pairs()[j].0 == old(self).pairs()[j].0);
                }
                assert forall|i: int| 0 <= i < self.pairs().len() implies (#[trigger] self.pairs()[i]).1 > 0 by {
                    if i != p {
                        assert(self.pairs()[i] == old(self).pairs()[i]);
                    }
                }
            }
        } else {
            self.entries.insert(p, (kind, count));
            proof {
                let before = old(self).pairs();
                let now = count as nat;
                assert(self.pairs() =~= before.insert(p as int, (kind, now)));
                lemma_to_map_insert(before, p as int, kind, now);
                assert forall|i: int| 0 <= i < self.pairs().len() implies #[trigger] self.pairs()[i] == (if i < p {
                    before[i]
                } else if i == p {
                    (kind, now)
                } else {
                    before[i - 1]
                }) by {}
                assert forall|i: int, j: int| 0 <= i < j < self.pairs().len() implies (#[trigger] self.pairs()[i]).0.rank()
                    < (#[trigger] self.pairs()[j]).0.rank() by {
                    let i0 = if i < p { i } else { i - 1 };
                    let j0 = if j < p { j } else { j - 1 };
                    if i == p {
                        assert(before[j0].0.rank() >= kind.rank());
                        assert(before[j0].0 != kind) by {
                            if j0 == p {
                            } else {
                                assert(before[p as int].0.rank() < before[j0].0.rank());
                            }
                        }
                        lemma_rank_injective(before[j0].0, kind);
                    } else if j == p {
                        assert(before[i0].0.rank() < kind.rank());
                    } else {
                        assert(before[i0].0.rank() < before[j0].0.rank());
                    }
                }
                assert forall|i: int| 0 <= i < self.pairs().len() implies (#[trigger] self.pairs()[i]).1 > 0 by {
                    if i < p {
                        assert(before[i].1 > 0);
                    } else if i > p {
                        assert(before[i - 1].1 > 0);
                    }
                }
            }
        }
    }
}

/// Kinds of equal rank are equal.
pub proof fn lemma_rank_injective(a: WordType, b: WordType)
    ensures
        a.rank() == b.rank() ==> a == b,
{
}

impl Clone for WordCounts {
    fn clone(&self) -> (copy: WordCounts)
        ensures
            copy.pairs() == self.pairs(),
            copy@ == self@,
            copy.wf() == self.wf(),
    {
        let mut entries: Vec<(WordType, u64)> = Vec::new();
        let mut i: usize = 0;
        while i < self.entries.len()
            invariant
                i <= self.entries@.len(),
                entries@ == self.entries@.take(i as int),
            decreases self.entries@.len() - i,
        {
            entries.push(self.entries[i]);
            assert(entries@ =~= self.entries@.take(i + 1));
            i += 1;
        }
        assert(entries@ =~= self.entries@);
        let copy = WordCounts { entries };
        assert(copy.pairs() =~= self.pairs());
        copy
    }
}

} // verus!
