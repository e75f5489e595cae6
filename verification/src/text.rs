//! Small helpers on strings that the rest of the crate shares.

use vstd::prelude::*;

verus! {

/// The texts of a list of strings, each as a sequence of characters.
pub open spec fn texts(list: Seq<String>) -> Seq<Seq<char>> {
    Seq::new(list.len(), |i: int| list[i]@)
}

/// Whether two string slices hold the same text.
pub fn same_text(a: &str, b: &str) -> (same: bool)
    ensures
        same == (a@ == b@),
{
    let first = a.to_owned();
    let second = b.to_owned();
    first == second
}

/// Builds a string from its characters.
///
/// Trusted: this collects the characters with `String`'s `FromIterator`
/// impl of std, which std documents as the string made of the items in
/// order; the contract says the result holds exactly these characters.
#[verifier::external_body]
pub(crate) fn string_of(chars: &Vec<char>) -> (text: String)
    ensures
        text@ == chars@,
{
    chars.iter().collect()
}

/// The characters of a text, in order.
pub fn chars_of(text: &str) -> (chars: Vec<char>)
    ensures
        chars@ == text@,
{
    let mut chars: Vec<char> = Vec::new();
    for c in it: text.chars()
        invariant
            it.seq() == text@,
            chars@ == it.seq().take(it.index()),
    {
        chars.push(c);
        assert(it.seq().take(it.index() + 1) =~= it.seq().take(it.index()).push(c));
    }
    assert(text@.take(text@.len() as int) =~= text@);
    chars
}

/// The first text stands before the second in the order of strings:
/// at the first place where they differ the first text has the character
/// with the smaller code, or it ends there and the second does not.
pub open spec fn precedes(a: Seq<char>, b: Seq<char>) -> bool
    decreases a.len(),
{
    if b.len() == 0 {
        false
    } else if a.len() == 0 {
        true
    } else if a[0] != b[0] {
        (a[0] as u32) < (b[0] as u32)
    } else {
        precedes(a.drop_first(), b.drop_first())
    }
}

/// Of two different texts one stands before the other.
pub proof fn lemma_precedes_total(a: Seq<char>, b: Seq<char>)
    ensures
        a != b ==> precedes(a, b) || precedes(b, a),
        !(precedes(a, b) && precedes(b, a)),
    decreases a.len(),
{
    if a.len() == 0 || b.len() == 0 {
        if a.len() == 0 && b.len() == 0 {
            assert(a =~= b);
        }
    } else if a[0] == b[0] {
        lemma_precedes_total(a.drop_first(), b.drop_first());
        if a.drop_first() == b.drop_first() {
            assert(a =~= seq![a[0]] + a.drop_first());
            assert(b =~= seq![b[0]] + b.drop_first());
        }
    } else {
        let x = a[0] as u32;
        let y = b[0] as u32;
        vstd::utf8::char_u32_cast(a[0], x);
        vstd::utf8::char_u32_cast(b[0], y);
    }
}

/// No text stands before itself.
pub proof fn lemma_precedes_irreflexive(a: Seq<char>)
    ensures
        !precedes(a, a),
    decreases a.len(),
{
    if a.len() > 0 {
        lemma_precedes_irreflexive(a.drop_first());
    }
}

/// What stands before a text stands before all that the text stands
/// before.
pub proof fn lemma_precedes_transitive(a: Seq<char>, b: Seq<char>, c: Seq<char>)
    requires
        precedes(a, b),
        precedes(b, c),
    ensures
        precedes(a, c),
    decreases a.len(),
{
    if a.len() > 0 {
        if a[0] == b[0] && b[0] == c[0] {
            lemma_precedes_transitive(a.drop_first(), b.drop_first(), c.drop_first());
        }
    }
}

/// Whether one text stands before another in the order of strings.
///
/// Trusted: this calls `<` of `str`, which std documents as the
/// lexicographic order of the bytes, the same as the order of the code
/// points from the first to the last; the contract says the result is that
/// order on the characters.
#[verifier::external_body]
pub(crate) fn text_before(a: &str, b: &str) -> (before: bool)
    ensures
        before == precedes(a@, b@),
{
    a < b
}

/// The lines of a text read so far: the lines that a line break has ended,
/// without the empty ones, and the line that is still open.
pub open spec fn lines_read(text: Seq<char>) -> (Seq<Seq<char>>, Seq<char>)
    decreases text.len(),
{
    if text.len() == 0 {
        (Seq::empty(), Seq::empty())
    } else {
        let before = lines_read(text.drop_last());
        if text.last() != '\n' {
            (before.0, before.1.push(text.last()))
        } else if before.1.len() > 0 {
            (before.0.push(before.1), Seq::empty())
        } else {
            (before.0, Seq::empty())
        }
    }
}

/// The lines of a text that are not empty, in order.
pub open spec fn non_empty_lines(text: Seq<char>) -> Seq<Seq<char>> {
    let read = lines_read(text);
    if read.1.len() > 0 {
        read.0.push(read.1)
    } else {
        read.0
    }
}

/// The lines of a text that are not empty, in order.
pub fn lines_of(text: &str) -> (lines: Vec<String>)
    ensures
        texts(lines@) == non_empty_lines(text@),
{
    let chars = chars_of(text);
    let mut lines: Vec<String> = Vec::new();
    let mut line: Vec<char> = Vec::new();
    let mut i: usize = 0;
    assert(chars@.take(0) =~= Seq::<char>::empty());
    while i < chars.len()
        invariant
            i <= chars@.len(),
            (texts(lines@), line@) == lines_read(chars@.take(i as int)),
        decreases chars@.len() - i,
    {
        let ghost before = texts(lines@);
        let ghost open = line@;
        proof {
            assert(chars@.take(i + 1).drop_last() =~= chars@.take(i as int));
            assert(chars@.take(i + 1).last() == chars@[i as int]);
        }
        if chars[i] != '\n' {
            line.push(chars[i]);
        } else {
            if line.len() > 0 {
                lines.push(string_of(&line));
                assert(texts(lines@) =~= before.push(open));
            }
            line = Vec::new();
        }
        i += 1;
    }
    assert(chars@.take(chars@.len() as int) =~= chars@);
    if line.len() > 0 {
        let ghost before = texts(lines@);
        lines.push(string_of(&line));
        assert(texts(lines@) =~= before.push(line@));
    }
    lines
}

/// The texts stand in strictly rising order.
pub open spec fn ascending(list: Seq<Seq<char>>) -> bool {
    forall|i: int, j: int| 0 <= i < j < list.len() ==> precedes(#[trigger] list[i], #[trigger] list[j])
}

/// A list in strictly rising order is determined by the texts it holds:
/// two such lists that hold the same texts are the same list.
pub proof fn lemma_ascending_unique(a: Seq<Seq<char>>, b: Seq<Seq<char>>)
    requires
        ascending(a),
        ascending(b),
        a.to_set() =~= b.to_set(),
    ensures
        a == b,
    decreases a.len(),
{
    if a.len() == 0 {
        if b.len() > 0 {
            assert(b.to_set().contains(b[0]));
            assert(a.contains(b[0]));
        }
        assert(a =~= b);
    } else if b.len() == 0 {
        assert(a.to_set().contains(a[0]));
        assert(b.contains(a[0]));
    } else {
        let x = a.last();
        let y = b.last();
        assert(a.to_set().contains(x));
        assert(b.contains(x));
        let j = choose|j: int| 0 <= j < b.len() && b[j] == x;
        assert(b.to_set().contains(y));
        assert(a.contains(y));
        let i = choose|i: int| 0 <= i < a.len() && a[i] == y;
        lemma_precedes_total(x, y);
        if x != y {
            if i < a.len() - 1 {
                assert(precedes(a[i], a[a.len() - 1]));
            }
            if j < b.len() - 1 {
                assert(precedes(b[j], b[b.len() - 1]));
            }
        }
        assert(x == y);
        let a0 = a.drop_last();
        let b0 = b.drop_last();
        assert forall|t: Seq<char>| a0.to_set().contains(t) <==> b0.to_set().contains(t) by {
            if a0.contains(t) {
                let p = choose|p: int| 0 <= p < a0.len() && a0[p] == t;
                assert(precedes(a[p], a[a.len() - 1]));
                lemma_precedes_irreflexive(x);
                assert(a.to_set().contains(a[p]));
                assert(b.contains(t));
                let q = choose|q: int| 0 <= q < b.len() && b[q] == t;
                assert(q < b.len() - 1);
                assert(b0[q] == t);
            }
            if b0.contains(t) {
                let p = choose|p: int| 0 <= p < b0.len() && b0[p] == t;
                assert(precedes(b[p], b[b.len() - 1]));
                lemma_precedes_irreflexive(y);
                assert(b.to_set().contains(b[p]));
                assert(a.contains(t));
                let q = choose|q: int| 0 <= q < a.len() && a[q] == t;
                assert(q < a.len() - 1);
                assert(a0[q] == t);
            }
        }
        assert(ascending(a0)) by {
            assert forall|p: int, q: int| 0 <= p < q < a0.len() implies precedes(#[trigger] a0[p], #[trigger] a0[q]) by {
                assert(precedes(a[p], a[q]));
            }
        }
        assert(ascending(b0)) by {
            assert forall|p: int, q: int| 0 <= p < q < b0.len() implies precedes(#[trigger] b0[p], #[trigger] b0[q]) by {
                assert(precedes(b[p], b[q]));
            }
        }
        lemma_ascending_unique(a0, b0);
        assert(a =~= a0.push(x));
        assert(b =~= b0.push(y));
    }
}

} // verus!
