//! Totals over the whole store: how many records of each kind there are,
//! and how many attempts the active records have taken.

use vstd::prelude::*;
use crate::counts::{WordCounts, WordType};
use crate::seqs::lemma_take_push;
use crate::stats::TypingStats;
use crate::status::{WordStatus, WordStatusView};
use crate::words::{views, Words};

verus! {

/// The kind that statistics file a record under.
pub open spec fn kind_of(r: WordStatusView) -> WordType {
    match r {
        WordStatusView::KnowPreviously => WordType::Known,
        WordStatusView::TrashWord => WordType::Trash,
        WordStatusView::ToLearn { current_level, .. } => WordType::Level(current_level),
        WordStatusView::Learned { .. } => WordType::Learned,
    }
}

/// The sum of a measure over a list of records.
pub open spec fn total(records: Seq<WordStatusView>, measure: spec_fn(WordStatusView) -> nat) -> nat
    decreases records.len(),
{
    if records.len() == 0 {
        0
    } else {
        total(records.drop_last(), measure) + measure(records.last())
    }
}

/// The sum of a measure over the records of several lists.
pub open spec fn total_all(lists: Seq<Seq<WordStatusView>>, measure: spec_fn(WordStatusView) -> nat) -> nat
    decreases lists.len(),
{
    if lists.len() == 0 {
        0
    } else {
        total_all(lists.drop_last(), measure) + total(lists.last(), measure)
    }
}

/// One for a record of `kind`, zero for any other.
pub open spec fn is_kind(kind: WordType) -> spec_fn(WordStatusView) -> nat {
    |r: WordStatusView|
        if kind_of(r) == kind {
            1nat
        } else {
            0nat
        }
}

/// One for every record.
pub open spec fn one() -> spec_fn(WordStatusView) -> nat {
    |r: WordStatusView| 1nat
}

/// The correct attempts of an active record; zero for any other.
pub open spec fn live_right() -> spec_fn(WordStatusView) -> nat {
    |r: WordStatusView|
        match r {
            WordStatusView::ToLearn { stats, .. } => stats.right as nat,
            _ => 0nat,
        }
}

/// The incorrect attempts of an active record; zero for any other.
pub open spec fn live_wrong() -> spec_fn(WordStatusView) -> nat {
    |r: WordStatusView|
        match r {
            WordStatusView::ToLearn { stats, .. } => stats.wrong as nat,
            _ => 0nat,
        }
}

/// The number of records of `kind` in the lists.
pub open spec fn tally_all(lists: Seq<Seq<WordStatusView>>, kind: WordType) -> nat {
    total_all(lists, is_kind(kind))
}

/// The number of records in the lists.
pub open spec fn length_all(lists: Seq<Seq<WordStatusView>>) -> nat {
    total_all(lists, one())
}

/// The records of the first `i` lists and the first `j` records of the
/// next one sum to no more than all records do.
pub proof fn lemma_partial_total(
    lists: Seq<Seq<WordStatusView>>,
    i: int,
    j: int,
    measure: spec_fn(WordStatusView) -> nat,
)
    requires
        0 <= i < lists.len(),
        0 <= j <= lists[i].len(),
    ensures
        total_all(lists.take(i), measure) + total(lists[i].take(j), measure) <= total_all(lists, measure),
        j == lists[i].len() ==> total_all(lists.take(i), measure) + total(lists[i].take(j), measure)
            == total_all(lists.take(i + 1), measure),
    decreases lists.len() - i, lists[i].len() - j,
{
    if j < lists[i].len() {
        lemma_partial_total(lists, i, j + 1, measure);
        lemma_take_push(lists[i], j);
    } else {
        assert(lists[i].take(j) =~= lists[i]);
        lemma_take_push(lists, i);
        if i + 1 < lists.len() {
            lemma_partial_total(lists, i + 1, 0, measure);
            assert(lists[i + 1].take(0) =~= Seq::<WordStatusView>::empty());
        } else {
            assert(lists.take(i + 1) =~= lists);
        }
    }
}

/// A measure that is nowhere greater sums to no more.
pub proof fn lemma_total_monotone(
    lists: Seq<Seq<WordStatusView>>,
    small: spec_fn(WordStatusView) -> nat,
    large: spec_fn(WordStatusView) -> nat,
)
    requires
        forall|r: WordStatusView| #[trigger] small(r) <= large(r),
    ensures
        total_all(lists, small) <= total_all(lists, large),
    decreases lists.len(),
{
    if lists.len() > 0 {
        lemma_total_monotone(lists.drop_last(), small, large);
        lemma_total_list_monotone(lists.last(), small, large);
    }
}

/// A measure that is nowhere greater sums to no more over one list.
pub proof fn lemma_total_list_monotone(
    records: Seq<WordStatusView>,
    small: spec_fn(WordStatusView) -> nat,
    large: spec_fn(WordStatusView) -> nat,
)
    requires
        forall|r: WordStatusView| #[trigger] small(r) <= large(r),
    ensures
        total(records, small) <= total(records, large),
    decreases records.len(),
{
    if records.len() > 0 {
        lemma_total_list_monotone(records.drop_last(), small, large);
    }
}

/// The kind of a record.
pub fn word_type(record: &WordStatus) -> (kind: WordType)
    ensures
        kind == kind_of(record@),
{
    match record {
        WordStatus::KnowPreviously => WordType::Known,
        WordStatus::TrashWord => WordType::Trash,
        WordStatus::ToLearn { current_level, .. } => WordType::Level(*current_level),
        WordStatus::Learned { .. } => WordType::Learned,
    }
}

impl Words {
    /// The record lists of all words, in the order of the words.
    pub open spec fn record_lists(&self) -> Seq<Seq<WordStatusView>> {
        Seq::new(self.words().len(), |i: int| self@[self.words()[i]])
    }

    /// Whether the totals of the store fit their counters: the number of
    /// records, and the correct and the incorrect attempts of the active
    /// records.
    pub fn statistics_fit(&self) -> (fit: bool)
        requires
            self.wf(),
        ensures
            fit == (length_all(self.record_lists()) <= u64::MAX && total_all(
                self.record_lists(),
                live_right(),
            ) <= u64::MAX && total_all(self.record_lists(), live_wrong()) <= u64::MAX),
    {
        let ghost lists = self.record_lists();
        let mut count: u64 = 0;
        let mut right: u64 = 0;
        let mut wrong: u64 = 0;
        let n: usize = self.len();
        let mut i: usize = 0;
        assert(lists.take(0) =~= Seq::<Seq<WordStatusView>>::empty());
        while i < n
            invariant
                self.wf(),
                n == self.words().len(),
                lists == self.record_lists(),
                i <= n,
                count == total_all(lists.take(i as int), one()),
                right == total_all(lists.take(i as int), live_right()),
                wrong == total_all(lists.take(i as int), live_wrong()),
            decreases n - i,
        {
            let records = self.statuses_at(i);
            assert(views(records@) == lists[i as int]);
            let mut j: usize = 0;
            assert(lists[i as int].take(0) =~= Seq::<WordStatusView>::empty());
            while j < records.len()
                invariant
                    0 <= i < lists.len(),
                    j <= records@.len(),
                    lists == self.record_lists(),
                    views(records@) == lists[i as int],
                    count == total_all(lists.take(i as int), one()) + total(lists[i as int].take(j as int), one()),
                    right == total_all(lists.take(i as int), live_right()) + total(
                        lists[i as int].take(j as int),
                        live_right(),
                    ),
                    wrong == total_all(lists.take(i as int), live_wrong()) + total(
                        lists[i as int].take(j as int),
                        live_wrong(),
                    ),
                decreases records@.len() - j,
            {
                proof {
                    lemma_take_push(lists[i as int], j as int);
                    lemma_partial_total(lists, i as int, j + 1, one());
                    lemma_partial_total(lists, i as int, j + 1, live_right());
                    lemma_partial_total(lists, i as int, j + 1, live_wrong());
                    assert(lists[i as int][j as int] == records@[j as int]@);
                }
                if count == u64::MAX {
                    return false;
                }
                count += 1;
                if let WordStatus::ToLearn { stats, .. } = &records[j] {
                    if stats.right > u64::MAX - right {
                        return false;
                    }
                    right += stats.right;
                    if stats.wrong > u64::MAX - wrong {
                        return false;
                    }
                    wrong += stats.wrong;
                }
                j += 1;
            }
            proof {
                lemma_partial_total(lists, i as int, j as int, one());
                lemma_partial_total(lists, i as int, j as int, live_right());
                lemma_partial_total(lists, i as int, j as int, live_wrong());
            }
            i += 1;
        }
        assert(lists.take(n as int) =~= lists);
        true
    }

    /// Counts the records of the store by kind.
    pub fn calculate_word_statistics(&self) -> (counts: WordCounts)
        requires
            self.wf(),
            length_all(self.record_lists()) <= u64::MAX,
        ensures
            counts.wf(),
            forall|kind: WordType| #[trigger] counts.count(kind) == tally_all(self.record_lists(), kind),
            forall|kind: WordType| #[trigger]
                counts@.contains_key(kind) <==> tally_all(self.record_lists(), kind) > 0,
    {
        let ghost lists = self.record_lists();
        let mut counts = WordCounts::new();
        let n: usize = self.len();
        let mut i: usize = 0;
        assert(lists.take(0) =~= Seq::<Seq<WordStatusView>>::empty());
        while i < n
            invariant
                self.wf(),
                n == self.words().len(),
                lists == self.record_lists(),
                length_all(lists) <= u64::MAX,
                i <= n,
                counts.wf(),
                forall|kind: WordType| #[trigger] counts.count(kind) == tally_all(lists.take(i as int), kind),
            decreases n - i,
        {
            let records = self.statuses_at(i);
            assert(views(records@) == lists[i as int]);
            let mut j: usize = 0;
            assert(lists[i as int].take(0) =~= Seq::<WordStatusView>::empty());
            while j < records.len()
                invariant
                    0 <= i < lists.len(),
                    j <= records@.len(),
                    views(records@) == lists[i as int],
                    length_all(lists) <= u64::MAX,
                    counts.wf(),
                    forall|kind: WordType| #[trigger]
                        counts.count(kind) == total_all(lists.take(i as int), is_kind(kind)) + total(
                            lists[i as int].take(j as int),
                            is_kind(kind),
                        ),
                decreases records@.len() - j,
            {
                let kind = word_type(&records[j]);
                proof {
                    lemma_take_push(lists[i as int], j as int);
                    assert(lists[i as int][j as int] == records@[j as int]@);
                    lemma_partial_total(lists, i as int, j + 1, is_kind(kind));
                    lemma_total_monotone(lists, is_kind(kind), one());
                    assert(counts.count(kind) == total_all(lists.take(i as int), is_kind(kind)) + total(
                        lists[i as int].take(j as int),
                        is_kind(kind),
                    ));
                }
                let ghost before = counts;
                counts.increment(kind);
                proof {
                    assert forall|k: WordType| #[trigger]
                        counts.count(k) == total_all(lists.take(i as int), is_kind(k)) + total(
                            lists[i as int].take(j + 1),
                            is_kind(k),
                        ) by {
                        assert(before.count(k) == total_all(lists.take(i as int), is_kind(k)) + total(
                            lists[i as int].take(j as int),
                            is_kind(k),
                        ));
                    }
                }
                j += 1;
            }
            proof {
                assert forall|kind: WordType| #[trigger]
                    counts.count(kind) == tally_all(lists.take(i + 1), kind) by {
                    lemma_partial_total(lists, i as int, j as int, is_kind(kind));
                }
            }
            i += 1;
        }
        proof {
            assert(lists.take(n as int) =~= lists);
            counts.lemma_counts();
            assert forall|kind: WordType| #[trigger]
                counts@.contains_key(kind) <==> tally_all(lists, kind) > 0 by {
                assert(counts.count(kind) == tally_all(lists, kind));
            }
        }
        counts
    }

    /// Sums the attempts of the records that are being learned.
    pub fn calculate_attempts_statistics(&self) -> (sum: TypingStats)
        requires
            self.wf(),
            total_all(self.record_lists(), live_right()) <= u64::MAX,
            total_all(self.record_lists(), live_wrong()) <= u64::MAX,
        ensures
            sum.right == total_all(self.record_lists(), live_right()),
            sum.wrong == total_all(self.record_lists(), live_wrong()),
    {
        let ghost lists = self.record_lists();
        let mut right: u64 = 0;
        let mut wrong: u64 = 0;
        let n: usize = self.len();
        let mut i: usize = 0;
        assert(lists.take(0) =~= Seq::<Seq<WordStatusView>>::empty());
        while i < n
            invariant
                self.wf(),
                n == self.words().len(),
                lists == self.record_lists(),
                total_all(lists, live_right()) <= u64::MAX,
                total_all(lists, live_wrong()) <= u64::MAX,
                i <= n,
                right == total_all(lists.take(i as int), live_right()),
                wrong == total_all(lists.take(i as int), live_wrong()),
            decreases n - i,
        {
            let records = self.statuses_at(i);
            assert(views(records@) == lists[i as int]);
            let mut j: usize = 0;
            assert(lists[i as int].take(0) =~= Seq::<WordStatusView>::empty());
            while j < records.len()
                invariant
                    0 <= i < lists.len(),
                    j <= records@.len(),
                    views(records@) == lists[i as int],
                    total_all(lists, live_right()) <= u64::MAX,
                    total_all(lists, live_wrong()) <= u64::MAX,
                    right == total_all(lists.take(i as int), live_right()) + total(
                        lists[i as int].take(j as int),
                        live_right(),
                    ),
                    wrong == total_all(lists.take(i as int), live_wrong()) + total(
                        lists[i as int].take(j as int),
                        live_wrong(),
                    ),
                decreases records@.len() - j,
            {
                proof {
                    lemma_take_push(lists[i as int], j as int);
                    lemma_partial_total(lists, i as int, j + 1, live_right());
                    lemma_partial_total(lists, i as int, j + 1, live_wrong());
                    assert(lists[i as int][j as int] == records@[j as int]@);
                }
                if let WordStatus::ToLearn { stats, .. } = &records[j] {
                    right += stats.right;
                    wrong += stats.wrong;
                }
                j += 1;
            }
            proof {
                lemma_partial_total(lists, i as int, j as int, live_right());
                lemma_partial_total(lists, i as int, j as int, live_wrong());
            }
            i += 1;
        }
        assert(lists.take(n as int) =~= lists);
        TypingStats { right, wrong }
    }
}

} // verus!
