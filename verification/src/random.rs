//! Shuffling a list of words by numbers drawn at random.

use vstd::prelude::*;
use vstd::seq_lib::{to_multiset_insert, to_multiset_remove};
use crate::text::texts;

verus! {

/// Draws the next pseudo-random number.
///
/// Trusted: this calls `quad_rand::rand`, which steps the generator shared
/// by the whole process and returns a number in the range of `u32`. The
/// number depends on every draw made before, so nothing is claimed of it.
#[verifier::external_body]
pub(crate) fn random_number() -> u32 {
    quad_rand::rand()
}

/// The list in the order in which `draws` pick its words: each draw, taken
/// modulo the number of words still left, picks the next word among them.
/// When the draws run out, the words still left follow in their order.
pub open spec fn shuffled(list: Seq<Seq<char>>, draws: Seq<u32>) -> Seq<Seq<char>>
    decreases list.len(),
{
    if list.len() == 0 || draws.len() == 0 {
        list
    } else {
        let pick = (draws[0] as int) % (list.len() as int);
        seq![list[pick]] + shuffled(list.remove(pick), draws.drop_first())
    }
}

/// Shuffling keeps every word, as often as it occurred.
pub proof fn lemma_shuffled_permutes(list: Seq<Seq<char>>, draws: Seq<u32>)
    ensures
        shuffled(list, draws).to_multiset() == list.to_multiset(),
        shuffled(list, draws).len() == list.len(),
    decreases list.len(),
{
    if list.len() == 0 || draws.len() == 0 {
    } else {
        let pick = (draws[0] as int) % (list.len() as int);
        let rest = shuffled(list.remove(pick), draws.drop_first());
        lemma_shuffled_permutes(list.remove(pick), draws.drop_first());
        broadcast use vstd::multiset::group_multiset_axioms;

        to_multiset_remove(list, pick);
        to_multiset_insert(rest, 0, list[pick]);
        vstd::seq_lib::to_multiset_contains(list, list[pick]);
        assert(list.contains(list[pick]));
        assert(seq![list[pick]] + rest =~= rest.insert(0, list[pick]));
        assert(list.to_multiset().remove(list[pick]).insert(list[pick]) =~= list.to_multiset());
    }
}

/// Puts `list` in the order that `draws` pick.
pub fn shuffle_with(list: &mut Vec<String>, draws: &[u32])
    ensures
        texts(final(list)@) == shuffled(texts(old(list)@), draws@),
        texts(final(list)@).to_multiset() == texts(old(list)@).to_multiset(),
        final(list)@.len() == old(list)@.len(),
{
    let mut picked: Vec<String> = Vec::new();
    let mut d: usize = 0;
    assert(draws@.skip(0) =~= draws@);
    assert(texts(picked@) + shuffled(texts(list@), draws@.skip(0)) =~= shuffled(texts(old(list)@), draws@));
    while list.len() > 0 && d < draws.len()
        invariant
            d <= draws@.len(),
            texts(picked@) + shuffled(texts(list@), draws@.skip(d as int)) == shuffled(
                texts(old(list)@),
                draws@,
            ),
        decreases list@.len(),
    {
        let ghost before = texts(list@);
        let ghost head = texts(picked@);
        let pick: usize = draws[d] as usize % list.len();
        let word = list.remove(pick);
        picked.push(word);
        proof {
            let left = draws@.skip(d as int);
            assert(left[0] == draws@[d as int]);
            assert(left.drop_first() =~= draws@.skip(d + 1));
            assert(texts(list@) =~= before.remove(pick as int));
            assert(texts(picked@) =~= head.push(before[pick as int]));
            assert(head.push(before[pick as int]) + shuffled(before.remove(pick as int), left.drop_first())
                =~= head + (seq![before[pick as int]] + shuffled(
                before.remove(pick as int),
                left.drop_first(),
            )));
        }
        d += 1;
    }
    let ghost rest = texts(list@);
    let ghost head = texts(picked@);
    picked.append(list);
    proof {
        assert(shuffled(rest, draws@.skip(d as int)) == rest);
        assert(texts(picked@) =~= head + rest);
        lemma_shuffled_permutes(texts(old(list)@), draws@);
    }
    *list = picked;
}

/// Draws `n` numbers at random.
pub fn draw_numbers(n: usize) -> (draws: Vec<u32>)
    ensures
        draws@.len() == n,
{
    let mut draws: Vec<u32> = Vec::new();
    let mut i: usize = 0;
    while i < n
        invariant
            i <= n,
            draws@.len() == i,
        decreases n - i,
    {
        draws.push(random_number());
        i += 1;
    }
    draws
}

/// Puts `list` in a random order. Whatever is drawn, the list keeps every
/// word as often as it held it.
pub fn shuffle(list: &mut Vec<String>)
    ensures
        texts(final(list)@).to_multiset() == texts(old(list)@).to_multiset(),
        texts(final(list)@).len() == texts(old(list)@).len(),
{
    let draws = draw_numbers(list.len());
    shuffle_with(list, draws.as_slice());
    proof {
        lemma_shuffled_permutes(texts(old(list)@), draws@);
    }
}

} // verus!
