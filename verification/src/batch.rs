//! Choosing the words of one session: ranking the due words by urgency and
//! pulling a batch off the ranked queues.

use vstd::prelude::*;
use vstd::seq_lib::{to_multiset_build, to_multiset_insert};
use crate::day::Day;
use crate::ladder::LearnType;
use crate::model::{points_at, records_of, WordsView};
use crate::schedule::{is_greatest, overdue_of};
use crate::seqs::lemma_take_push;
use crate::status::{WordStatus, WordStatusView};
use crate::text::texts;
use crate::words::{views, Words};

verus! {

/// How urgent `word` is on `today`: the greatest number of days by which
/// one of its due records is overdue; zero if none is due or the word is
/// unknown.
pub open spec fn urgency(m: WordsView, word: Seq<char>, today: Day, ladder: Seq<LearnType>) -> int {
    choose|d: int| #[trigger] is_urgency(d, m, word, today, ladder)
}

/// `d` is the greatest overdue among the records of `word`.
pub open spec fn is_urgency(d: int, m: WordsView, word: Seq<char>, today: Day, ladder: Seq<LearnType>) -> bool {
    is_greatest(d, records_of(m, word), |r: WordStatusView| overdue_of(r, today, ladder))
}

/// The greatest overdue of a list of records is determined by the list.
pub proof fn lemma_urgency(m: WordsView, word: Seq<char>, today: Day, ladder: Seq<LearnType>, d: int)
    requires
        is_greatest(d, records_of(m, word), |r: WordStatusView| overdue_of(r, today, ladder)),
    ensures
        urgency(m, word, today, ladder) == d,
{
    let measure = |r: WordStatusView| overdue_of(r, today, ladder);
    let records = records_of(m, word);
    let u = urgency(m, word, today, ladder);
    assert(is_urgency(d, m, word, today, ladder));
    assert(is_greatest(u, records, measure));
    if u != d {
        if u != 0 {
            let i = choose|i: int| 0 <= i < records.len() && measure(#[trigger] records[i]) == u;
            assert(measure(records[i]) <= d);
            assert(measure(records[i]) >= 0);
        }
        if d != 0 {
            let j = choose|j: int| 0 <= j < records.len() && measure(#[trigger] records[j]) == d;
            assert(measure(records[j]) <= u);
            assert(measure(records[j]) >= 0);
        }
    }
}

/// The words of `queue` are ordered by falling urgency.
pub open spec fn ranked(m: WordsView, queue: Seq<Seq<char>>, today: Day, ladder: Seq<LearnType>) -> bool {
    forall|i: int, j: int|
        0 <= i < j < queue.len() ==> urgency(m, #[trigger] queue[i], today, ladder) >= urgency(
            m,
            #[trigger] queue[j],
            today,
            ladder,
        )
}

/// Words of equal urgency stand in `ordered` as they stood in `queue`: of
/// two such words the earlier one was an earlier entry of the queue.
pub open spec fn ties_keep_order(
    m: WordsView,
    ordered: Seq<Seq<char>>,
    queue: Seq<Seq<char>>,
    today: Day,
    ladder: Seq<LearnType>,
) -> bool {
    forall|a: int, b: int|
        0 <= a < b < ordered.len() && urgency(m, #[trigger] ordered[a], today, ladder) == urgency(
            m,
            #[trigger] ordered[b],
            today,
            ladder,
        ) ==> exists|i: int, j: int| 0 <= i < j < queue.len() && #[trigger] queue[i] == ordered[a] && #[trigger] queue[j] == ordered[b]
}

/// The words that `word` is directly linked to: those its records point at.
pub open spec fn linked_to(m: WordsView, word: Seq<char>) -> spec_fn(Seq<char>) -> bool {
    |t: Seq<char>| points_at(records_of(m, word), t)
}

/// The words that `word` is not linked to.
pub open spec fn not_linked_to(m: WordsView, word: Seq<char>) -> spec_fn(Seq<char>) -> bool {
    |t: Seq<char>| !points_at(records_of(m, word), t)
}

/// One pull: the first word of `primary` goes to the batch, and with it,
/// first from the rest of `primary` and then from `other`, every word that
/// it is linked to. The result is the batch and what is left of the two
/// queues.
pub open spec fn pull_one(
    m: WordsView,
    batch: Seq<Seq<char>>,
    primary: Seq<Seq<char>>,
    other: Seq<Seq<char>>,
) -> (Seq<Seq<char>>, Seq<Seq<char>>, Seq<Seq<char>>) {
    let word = primary[0];
    let rest = primary.drop_first();
    (
        batch.push(word) + rest.filter(linked_to(m, word)) + other.filter(linked_to(m, word)),
        rest.filter(not_linked_to(m, word)),
        other.filter(not_linked_to(m, word)),
    )
}

/// Up to `n` pulls off the front of `primary`, ended early when `primary`
/// runs out.
pub open spec fn pull(
    m: WordsView,
    batch: Seq<Seq<char>>,
    primary: Seq<Seq<char>>,
    other: Seq<Seq<char>>,
    n: nat,
) -> (Seq<Seq<char>>, Seq<Seq<char>>, Seq<Seq<char>>)
    decreases n,
{
    if n == 0 || primary.len() == 0 {
        (batch, primary, other)
    } else {
        let one = pull_one(m, batch, primary, other);
        pull(m, one.0, one.1, one.2, (n - 1) as nat)
    }
}

/// The batch of a session: `repeat_count` pulls off the queue of words to
/// repeat, then `new_count` pulls off the queue of new words. The result is
/// the batch, what is left of the words to repeat, and what is left of the
/// new words.
pub open spec fn batch_of(
    m: WordsView,
    repeat: Seq<Seq<char>>,
    new: Seq<Seq<char>>,
    repeat_count: nat,
    new_count: nat,
) -> (Seq<Seq<char>>, Seq<Seq<char>>, Seq<Seq<char>>) {
    let first = pull(m, Seq::empty(), repeat, new, repeat_count);
    let second = pull(m, first.0, first.2, first.1, new_count);
    (second.0, second.2, second.1)
}

/// A list parts into the words that pass a filter and those that do not:
/// together they are the words of the list, each as often as it stood there.
pub proof fn lemma_filter_parts(list: Seq<Seq<char>>, yes: spec_fn(Seq<char>) -> bool, no: spec_fn(Seq<char>) -> bool)
    requires
        forall|w: Seq<char>| #[trigger] no(w) == !yes(w),
    ensures
        list.filter(yes).to_multiset().add(list.filter(no).to_multiset()) =~= list.to_multiset(),
    decreases list.len(),
{
    broadcast use vstd::multiset::group_multiset_axioms;

    reveal(Seq::filter);
    if list.len() == 0 {
        assert(list.to_multiset() =~= vstd::multiset::Multiset::<Seq<char>>::empty()) by {
            list.to_multiset_ensures();
        }
        assert(list.filter(yes) =~= list);
        assert(list.filter(no) =~= list);
    } else {
        let init = list.drop_last();
        let w = list.last();
        lemma_filter_parts(init, yes, no);
        assert(init.push(w) =~= list);
        init.lemma_filter_push(w, yes);
        init.lemma_filter_push(w, no);
        to_multiset_build(init, w);
        to_multiset_build(init.filter(yes), w);
        to_multiset_build(init.filter(no), w);
        assert(no(w) == !yes(w));
    }
}

/// Pulling loses no word and invents none: the batch and what is left of
/// the two queues hold together what the batch and the queues held before.
pub proof fn lemma_pull_keeps_words(
    m: WordsView,
    batch: Seq<Seq<char>>,
    primary: Seq<Seq<char>>,
    other: Seq<Seq<char>>,
    n: nat,
)
    ensures
        ({
            let after = pull(m, batch, primary, other, n);
            after.0.to_multiset().add(after.1.to_multiset()).add(after.2.to_multiset())
                =~= batch.to_multiset().add(primary.to_multiset()).add(other.to_multiset())
        }),
    decreases n,
{
    broadcast use vstd::multiset::group_multiset_axioms;

    if n == 0 || primary.len() == 0 {
    } else {
        let word = primary[0];
        let rest = primary.drop_first();
        let yes = linked_to(m, word);
        let no = not_linked_to(m, word);
        let one = pull_one(m, batch, primary, other);
        lemma_pull_keeps_words(m, one.0, one.1, one.2, (n - 1) as nat);
        assert forall|w: Seq<char>| #[trigger] no(w) == !yes(w) by {}
        lemma_filter_parts(rest, yes, no);
        lemma_filter_parts(other, yes, no);
        to_multiset_build(batch, word);
        vstd::seq_lib::lemma_multiset_commutative(batch.push(word), rest.filter(yes));
        vstd::seq_lib::lemma_multiset_commutative(batch.push(word) + rest.filter(yes), other.filter(yes));
        assert(primary =~= seq![word] + rest);
        vstd::seq_lib::lemma_multiset_commutative(seq![word], rest);
        to_multiset_build(Seq::<Seq<char>>::empty(), word);
        assert(Seq::<Seq<char>>::empty().push(word) =~= seq![word]);
        assert(Seq::<Seq<char>>::empty().to_multiset() =~= vstd::multiset::Multiset::<Seq<char>>::empty()) by {
            Seq::<Seq<char>>::empty().to_multiset_ensures();
        }
        assert(one.0.to_multiset().add(one.1.to_multiset()).add(one.2.to_multiset()) =~= batch.to_multiset().add(
            primary.to_multiset(),
        ).add(other.to_multiset()));
    }
}

/// The batch of a session and what is left of the queues hold together
/// exactly the words that the queues held.
pub proof fn lemma_batch_keeps_words(
    m: WordsView,
    repeat: Seq<Seq<char>>,
    new: Seq<Seq<char>>,
    repeat_count: nat,
    new_count: nat,
)
    ensures
        ({
            let after = batch_of(m, repeat, new, repeat_count, new_count);
            after.0.to_multiset().add(after.1.to_multiset()).add(after.2.to_multiset())
                =~= repeat.to_multiset().add(new.to_multiset())
        }),
{
    broadcast use vstd::multiset::group_multiset_axioms;

    let none = Seq::<Seq<char>>::empty();
    let first = pull(m, none, repeat, new, repeat_count);
    lemma_pull_keeps_words(m, none, repeat, new, repeat_count);
    lemma_pull_keeps_words(m, first.0, first.2, first.1, new_count);
    assert(none.to_multiset() =~= vstd::multiset::Multiset::<Seq<char>>::empty()) by {
        none.to_multiset_ensures();
    }
    let second = pull(m, first.0, first.2, first.1, new_count);
    let a = second.0.to_multiset();
    let b = second.1.to_multiset();
    let c = second.2.to_multiset();
    let x = first.0.to_multiset();
    let y = first.1.to_multiset();
    let z = first.2.to_multiset();
    assert(a.add(b).add(c) =~= x.add(z).add(y));
    assert(x.add(z).add(y) =~= x.add(y).add(z));
    assert(a.add(c).add(b) =~= a.add(b).add(c));
    assert(x.add(y).add(z) =~= repeat.to_multiset().add(new.to_multiset()));
}

/// Whether one of the records points at `target`.
pub fn points(records: &Vec<WordStatus>, target: &str) -> (found: bool)
    ensures
        found == points_at(views(records@), target@),
{
    let mut i: usize = 0;
    while i < records.len()
        invariant
            i <= records@.len(),
            forall|k: int| 0 <= k < i ==> !(#[trigger] views(records@)[k]).has_translation(target@),
        decreases records@.len() - i,
    {
        if records[i].has_translation(target) {
            assert(views(records@)[i as int].has_translation(target@));
            return true;
        }
        i += 1;
    }
    false
}

/// Moves the words of `queue` that `records` point at to the end of
/// `batch`, in their order, and leaves the others in `queue`, in theirs.
fn split_linked(records: &Vec<WordStatus>, queue: &mut Vec<String>, batch: &mut Vec<String>)
    ensures
        texts(final(batch)@) == texts(old(batch)@) + texts(old(queue)@).filter(
            |t: Seq<char>| points_at(views(records@), t),
        ),
        texts(final(queue)@) == texts(old(queue)@).filter(|t: Seq<char>| !points_at(views(records@), t)),
{
    let ghost yes = |t: Seq<char>| points_at(views(records@), t);
    let ghost no = |t: Seq<char>| !points_at(views(records@), t);
    let ghost all = texts(queue@);
    let ghost start = texts(batch@);
    let mut kept: Vec<String> = Vec::new();
    let mut i: usize = 0;
    proof {
        reveal(Seq::filter);
        assert(all.take(0).filter(yes) =~= Seq::<Seq<char>>::empty());
        assert(all.take(0).filter(no) =~= Seq::<Seq<char>>::empty());
        assert(texts(batch@) =~= start + all.take(0).filter(yes));
    }
    while i < queue.len()
        invariant
            i <= queue@.len(),
            all == texts(queue@),
            yes == (|t: Seq<char>| points_at(views(records@), t)),
            no == (|t: Seq<char>| !points_at(views(records@), t)),
            texts(batch@) == start + all.take(i as int).filter(yes),
            texts(kept@) == all.take(i as int).filter(no),
        decreases queue@.len() - i,
    {
        let ghost batch_before = texts(batch@);
        let ghost kept_before = texts(kept@);
        let is_linked: bool = points(records, queue[i].as_str());
        if is_linked {
            batch.push(queue[i].clone());
        } else {
            kept.push(queue[i].clone());
        }
        proof {
            let t = all[i as int];
            lemma_take_push(all, i as int);
            all.take(i as int).lemma_filter_push(t, yes);
            all.take(i as int).lemma_filter_push(t, no);
            if is_linked {
                assert(texts(batch@) =~= batch_before.push(t));
                assert(texts(kept@) =~= kept_before);
                assert(texts(batch@) =~= start + all.take(i + 1).filter(yes));
            } else {
                assert(texts(batch@) =~= batch_before);
                assert(texts(kept@) =~= kept_before.push(t));
            }
        }
        i += 1;
    }
    proof {
        assert(all.take(queue@.len() as int) =~= all);
    }
    *queue = kept;
}

impl Words {
    /// Orders `queue` by falling urgency; words of equal urgency keep their
    /// order.
    pub fn rank_by_overdue(&self, queue: Vec<String>, today: Day, type_count: &[LearnType]) -> (ordered: Vec<
        String,
    >)
        requires
            self.wf(),
        ensures
            texts(ordered@).to_multiset() == texts(queue@).to_multiset(),
            ranked(self@, texts(ordered@), today, type_count@),
            ties_keep_order(self@, texts(ordered@), texts(queue@), today, type_count@),
    {
        let mut keys: Vec<u64> = Vec::new();
        let mut ordered: Vec<String> = Vec::new();
        let mut i: usize = 0;
        assert(texts(queue@).take(0) =~= texts(ordered@));
        while i < queue.len()
            invariant
                self.wf(),
                i <= queue@.len(),
                keys@.len() == ordered@.len(),
                forall|k: int|
                    0 <= k < keys@.len() ==> (#[trigger] keys@[k]) as int == urgency(
                        self@,
                        texts(ordered@)[k],
                        today,
                        type_count@,
                    ),
                forall|a: int, b: int| 0 <= a < b < keys@.len() ==> keys@[a] >= keys@[b],
                texts(ordered@).to_multiset() == texts(queue@).take(i as int).to_multiset(),
                forall|a: int|
                    0 <= a < ordered@.len() ==> exists|j: int| 0 <= j < i && texts(queue@)[j] == #[trigger] texts(
                        ordered@,
                    )[a],
                ties_keep_order(self@, texts(ordered@), texts(queue@).take(i as int), today, type_count@),
            decreases queue@.len() - i,
        {
            let word = queue[i].clone();
            let key: u64 = match self.overdue_days(word.as_str(), today, type_count) {
                Ok(days) => days,
                Err(_) => 0,
            };
            proof {
                lemma_urgency(self@, word@, today, type_count@, key as int);
            }
            let mut p: usize = 0;
            while p < keys.len() && keys[p] >= key
                invariant
                    p <= keys@.len(),
                    forall|k: int| 0 <= k < p ==> keys@[k] >= key,
                decreases keys@.len() - p,
            {
                p += 1;
            }
            assert forall|k: int| p <= k < keys@.len() implies keys@[k] < key by {
                if k > p {
                    assert(keys@[p as int] >= keys@[k]);
                }
            }
            let ghost keys_before = keys@;
            let ghost ordered_before = texts(ordered@);
            keys.insert(p, key);
            ordered.insert(p, word);
            proof {
                assert(texts(ordered@) =~= ordered_before.insert(p as int, word@));
                to_multiset_insert(ordered_before, p as int, word@);
                lemma_take_push(texts(queue@), i as int);
                to_multiset_build(texts(queue@).take(i as int), word@);
                assert forall|k: int| 0 <= k < keys@.len() implies (#[trigger] keys@[k]) as int == urgency(
                    self@,
                    texts(ordered@)[k],
                    today,
                    type_count@,
                ) by {
                    if k < p {
                        assert(keys@[k] == keys_before[k]);
                        assert(texts(ordered@)[k] == ordered_before[k]);
                    } else if k > p {
                        assert(keys@[k] == keys_before[k - 1]);
                        assert(texts(ordered@)[k] == ordered_before[k - 1]);
                    }
                }
                assert forall|a: int, b: int| 0 <= a < b < keys@.len() implies keys@[a] >= keys@[b] by {
                    let a0 = if a < p { a } else { a - 1 };
                    let b0 = if b < p { b } else { b - 1 };
                    if a != p {
                        assert(keys@[a] == keys_before[a0]);
                    }
                    if b != p {
                        assert(keys@[b] == keys_before[b0]);
                    }
                }
                let now = texts(ordered@);
                let all = texts(queue@);
                let head = all.take(i as int);
                let more = all.take(i + 1);
                assert forall|a: int| 0 <= a < now.len() implies exists|j: int|
                    0 <= j < i + 1 && all[j] == #[trigger] now[a] by {
                    if a == p {
                        assert(all[i as int] == now[a]);
                    } else {
                        let a0 = if a < p { a } else { a - 1 };
                        let j = choose|j: int| 0 <= j < i && all[j] == ordered_before[a0];
                        assert(all[j] == now[a]);
                    }
                }
                assert forall|a: int, b: int|
                    0 <= a < b < now.len() && urgency(self@, #[trigger] now[a], today, type_count@) == urgency(
                        self@,
                        #[trigger] now[b],
                        today,
                        type_count@,
                    ) implies exists|x: int, y: int|
                    0 <= x < y < more.len() && #[trigger] more[x] == now[a] && #[trigger] more[y] == now[b] by {
                    let a0 = if a < p { a } else { a - 1 };
                    let b0 = if b < p { b } else { b - 1 };
                    if a != p && b != p {
                        assert(now[a] == ordered_before[a0] && now[b] == ordered_before[b0]);
                        let (x, y) = choose|x: int, y: int|
                            0 <= x < y < head.len() && #[trigger] head[x] == ordered_before[a0] && #[trigger] head[y]
                                == ordered_before[b0];
                        assert(more[x] == now[a] && more[y] == now[b]);
                    } else if b == p {
                        assert(now[a] == ordered_before[a0]);
                        let x = choose|x: int| 0 <= x < i && all[x] == ordered_before[a0];
                        assert(more[x] == now[a] && more[i as int] == now[b]);
                    } else {
                        assert(keys@[b] == keys_before[b0]);
                        assert(keys_before[b0] < key);
                        assert(keys@[a] as int == urgency(self@, now[a], today, type_count@));
                        assert(keys@[b] as int == urgency(self@, now[b], today, type_count@));
                    }
                }
            }
            i += 1;
        }
        proof {
            assert(texts(queue@).take(queue@.len() as int) =~= texts(queue@));
            assert forall|a: int, b: int| 0 <= a < b < texts(ordered@).len() implies urgency(
                self@,
                #[trigger] texts(ordered@)[a],
                today,
                type_count@,
            ) >= urgency(self@, #[trigger] texts(ordered@)[b], today, type_count@) by {
                assert(keys@[a] >= keys@[b]);
            }
        }
        ordered
    }

    /// Pulls up to `n` words off the front of `primary` into `batch`, each
    /// with the words of both queues that it is linked to.
    fn pull_words(&self, batch: &mut Vec<String>, primary: &mut Vec<String>, other: &mut Vec<String>, n: usize)
        requires
            self.wf(),
        ensures
            (texts(final(batch)@), texts(final(primary)@), texts(final(other)@)) == pull(
                self@,
                texts(old(batch)@),
                texts(old(primary)@),
                texts(old(other)@),
                n as nat,
            ),
    {
        let mut pulled: usize = 0;
        while pulled < n && primary.len() > 0
            invariant
                self.wf(),
                pulled <= n,
                pull(self@, texts(batch@), texts(primary@), texts(other@), (n - pulled) as nat) == pull(
                    self@,
                    texts(old(batch)@),
                    texts(old(primary)@),
                    texts(old(other)@),
                    n as nat,
                ),
            decreases n - pulled,
        {
            let ghost b0 = texts(batch@);
            let ghost p0 = texts(primary@);
            let ghost o0 = texts(other@);
            let word = primary.remove(0);
            let none: Vec<WordStatus> = Vec::new();
            let records: &Vec<WordStatus> = match self.position(word.as_str()) {
                Some(pos) => self.statuses_at(pos),
                None => &none,
            };
            proof {
                assert(views(none@) =~= Seq::<WordStatusView>::empty());
                assert(views(records@) == records_of(self@, word@));
                assert(texts(primary@) =~= p0.drop_first());
                assert(linked_to(self@, word@) == (|t: Seq<char>| points_at(views(records@), t)));
                assert(not_linked_to(self@, word@) == (|t: Seq<char>| !points_at(views(records@), t)));
            }
            batch.push(word);
            assert(texts(batch@) =~= b0.push(p0[0]));
            split_linked(records, primary, batch);
            split_linked(records, other, batch);
            proof {
                let one = pull_one(self@, b0, p0, o0);
                assert(texts(batch@) =~= one.0);
                assert(texts(primary@) =~= one.1);
                assert(texts(other@) =~= one.2);
            }
            pulled += 1;
        }
    }

    /// Takes the batch of a session off the two ranked queues: up to
    /// `repeat_count` words off the front of `repeat`, then up to
    /// `new_count` words off the front of `new`, and with each of them the
    /// words of both queues that it is directly linked to. The queues keep
    /// what was not taken.
    pub fn build_batch(
        &self,
        repeat: &mut Vec<String>,
        new: &mut Vec<String>,
        repeat_count: usize,
        new_count: usize,
    ) -> (batch: Vec<String>)
        requires
            self.wf(),
        ensures
            (texts(batch@), texts(final(repeat)@), texts(final(new)@)) == batch_of(
                self@,
                texts(old(repeat)@),
                texts(old(new)@),
                repeat_count as nat,
                new_count as nat,
            ),
    {
        let mut batch: Vec<String> = Vec::new();
        assert(texts(batch@) =~= Seq::<Seq<char>>::empty());
        self.pull_words(&mut batch, repeat, new, repeat_count);
        self.pull_words(&mut batch, new, repeat, new_count);
        batch
    }
}

} // verus!
