//! Facts about sequences that several modules use.

use vstd::prelude::*;

verus! {

/// A prefix one longer is the prefix with one element pushed.
pub proof fn lemma_take_push<A>(s: Seq<A>, i: int)
    requires
        0 <= i < s.len(),
    ensures
        s.take(i + 1) =~= s.take(i).push(s[i]),
        s.take(i + 1).drop_last() =~= s.take(i),
        s.take(i + 1).last() == s[i],
{
}

/// A filtered sequence holds exactly the elements that pass the filter, and
/// no element twice if the sequence held none twice.
pub proof fn lemma_filter_members<A>(s: Seq<A>, pred: spec_fn(A) -> bool)
    ensures
        forall|x: A| #[trigger] s.filter(pred).contains(x) <==> s.contains(x) && pred(x),
        s.no_duplicates() ==> s.filter(pred).no_duplicates(),
    decreases s.len(),
{
    reveal(Seq::filter);
    if s.len() > 0 {
        let init = s.drop_last();
        let f = s.filter(pred);
        let g = init.filter(pred);
        lemma_filter_members(init, pred);
        assert forall|x: A| #[trigger] f.contains(x) <==> s.contains(x) && pred(x) by {
            if f.contains(x) {
                let p = choose|p: int| 0 <= p < f.len() && f[p] == x;
                if p < g.len() {
                    assert(g[p] == x);
                    assert(g.contains(x));
                    let q = choose|q: int| 0 <= q < init.len() && init[q] == x;
                    assert(s[q] == x);
                } else {
                    assert(s[s.len() - 1] == x);
                }
            }
            if s.contains(x) && pred(x) {
                let q = choose|q: int| 0 <= q < s.len() && s[q] == x;
                if q < init.len() {
                    assert(init[q] == x);
                    assert(g.contains(x));
                    let p = choose|p: int| 0 <= p < g.len() && g[p] == x;
                    assert(f[p] == x);
                } else {
                    assert(f[f.len() - 1] == x);
                }
            }
        }
        if s.no_duplicates() {
            assert(init.no_duplicates()) by {
                assert forall|i: int, j: int| 0 <= i < init.len() && 0 <= j < init.len() && i != j implies init[i]
                    != init[j] by {
                    assert(s[i] != s[j]);
                }
            }
            assert forall|i: int, j: int| 0 <= i < f.len() && 0 <= j < f.len() && i != j implies f[i] != f[j] by {
                if i < g.len() && j < g.len() {
                    assert(g[i] != g[j]);
                } else {
                    let a = if i < j { i } else { j };
                    assert(g[a] == f[a]);
                    assert(g.contains(f[a]));
                    assert(init.contains(f[a]));
                    let q = choose|q: int| 0 <= q < init.len() && init[q] == f[a];
                    assert(s[q] != s[s.len() - 1]);
                }
            }
        }
    }
}

} // verus!
