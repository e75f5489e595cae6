//! Reading the words out of a text: every run of letters, apostrophes and
//! hyphens that something follows is a word, taken in lower case, and is
//! listed with the places where it stands.

use vstd::prelude::*;
use vstd::utf8::{encode_scalar, encode_utf8};
use crate::seqs::lemma_take_push;
use crate::text::{
    chars_of, lemma_precedes_total, lemma_precedes_transitive, precedes, text_before,
};
use crate::words::Words;

verus! {

/// Whether a character is alphabetic, as std's `char::is_alphabetic` says.
pub uninterp spec fn is_alphabetic(c: char) -> bool;

/// The lower case of a character, as std's `char::to_lowercase` gives it:
/// one character or several.
pub uninterp spec fn lowercase_of(c: char) -> Seq<char>;

/// Whether a character is alphabetic.
///
/// Trusted: this calls `char::is_alphabetic` of std, which decides by the
/// Unicode property `Alphabetic` of the character alone; the contract only
/// gives its result a name.
#[verifier::external_body]
fn alphabetic(c: char) -> (yes: bool)
    ensures
        yes == is_alphabetic(c),
{
    c.is_alphabetic()
}

/// The lower case of a character.
///
/// Trusted: this calls `char::to_lowercase` of std and collects what it
/// yields, which depends on the character alone; the contract only gives
/// its result a name.
#[verifier::external_body]
fn lowercase(c: char) -> (lower: Vec<char>)
    ensures
        lower@ == lowercase_of(c),
{
    c.to_lowercase().collect()
}

/// A character that can stand in a word: a letter, an apostrophe or a
/// hyphen.
pub open spec fn is_word_symbol(c: char) -> bool {
    is_alphabetic(c) || c == '\'' || c == '-'
}

/// Whether a character can stand in a word.
pub fn word_symbol(c: char) -> (yes: bool)
    ensures
        yes == is_word_symbol(c),
{
    alphabetic(c) || c == '\'' || c == '-'
}

/// The number of bytes that a character takes in UTF-8.
pub fn utf8_width(c: char) -> (width: usize)
    ensures
        width == encode_scalar(c as u32).len(),
        1 <= width <= 4,
{
    let code: u32 = c as u32;
    if code < 0x80 {
        1
    } else if code < 0x800 {
        2
    } else if code < 0x10000 {
        3
    } else {
        4
    }
}

/// What the search for words needs to know of one character of a text.
#[derive(Debug)]
pub struct Letter {
    /// Whether the character can stand in a word.
    pub in_word: bool,
    /// The character in lower case: one character or several.
    pub lower: Vec<char>,
    /// The number of bytes that the character takes in the text.
    pub width: usize,
}

/// A letter as a value.
pub struct LetterView {
    pub in_word: bool,
    pub lower: Seq<char>,
    pub width: nat,
}

impl View for Letter {
    type V = LetterView;

    open spec fn view(&self) -> LetterView {
        LetterView { in_word: self.in_word, lower: self.lower@, width: self.width as nat }
    }
}

/// The letters of a list as values.
pub open spec fn letter_views(letters: Seq<Letter>) -> Seq<LetterView> {
    Seq::new(letters.len(), |i: int| letters[i]@)
}

/// The letters of a text: for each character, whether it can stand in a
/// word, its lower case, and the bytes it takes in UTF-8.
pub open spec fn letters_of(text: Seq<char>) -> Seq<LetterView> {
    Seq::new(
        text.len(),
        |i: int|
            LetterView {
                in_word: is_word_symbol(text[i]),
                lower: lowercase_of(text[i]),
                width: encode_scalar(text[i] as u32).len(),
            },
    )
}

/// The lower case of a run of letters.
pub open spec fn lowered(letters: Seq<LetterView>) -> Seq<char>
    decreases letters.len(),
{
    if letters.len() == 0 {
        Seq::empty()
    } else {
        lowered(letters.drop_last()) + letters.last().lower
    }
}

/// The number of bytes that a run of letters takes.
pub open spec fn width_of(letters: Seq<LetterView>) -> nat
    decreases letters.len(),
{
    if letters.len() == 0 {
        0
    } else {
        width_of(letters.drop_last()) + letters.last().width
    }
}

/// The number of bytes that the first `k` letters take: the offset of the
/// letter at `k`.
pub open spec fn offset(letters: Seq<LetterView>, k: int) -> nat {
    width_of(letters.take(k))
}

/// The bytes of a text with one more character are the bytes of the text
/// and then those of the character.
pub proof fn lemma_encode_push(text: Seq<char>, c: char)
    ensures
        encode_utf8(text.push(c)) =~= encode_utf8(text) + encode_scalar(c as u32),
    decreases text.len(),
{
    if text.len() == 0 {
        assert(text.push(c).drop_first() =~= Seq::<char>::empty());
        assert(encode_utf8(Seq::<char>::empty()) =~= Seq::<u8>::empty());
    } else {
        lemma_encode_push(text.drop_first(), c);
        assert(text.push(c).drop_first() =~= text.drop_first().push(c));
    }
}

/// The offsets of the letters of a text are the offsets of its characters
/// in UTF-8.
pub proof fn lemma_offsets_are_utf8(text: Seq<char>, k: int)
    requires
        0 <= k <= text.len(),
    ensures
        offset(letters_of(text), k) == encode_utf8(text.take(k)).len(),
    decreases k,
{
    let letters = letters_of(text);
    if k == 0 {
        assert(letters.take(0) =~= Seq::<LetterView>::empty());
        assert(text.take(0) =~= Seq::<char>::empty());
    } else {
        lemma_offsets_are_utf8(text, k - 1);
        assert(letters.take(k).drop_last() =~= letters.take(k - 1));
        assert(text.take(k) =~= text.take(k - 1).push(text[k - 1]));
        lemma_encode_push(text.take(k - 1), text[k - 1]);
    }
}

/// Offsets rise with the position, each by the width of a letter, and end
/// at the width of all letters.
pub proof fn lemma_offsets(letters: Seq<LetterView>, a: int, b: int)
    requires
        0 <= a <= b <= letters.len(),
    ensures
        offset(letters, a) <= offset(letters, b),
        offset(letters, b) <= width_of(letters),
        offset(letters, 0) == 0,
        b < letters.len() ==> offset(letters, b + 1) == offset(letters, b) + letters[b].width,
    decreases letters.len() - a, letters.len() - b,
{
    assert(letters.take(0) =~= Seq::<LetterView>::empty());
    if b < letters.len() {
        lemma_offsets(letters, b, b + 1);
        assert(letters.take(b + 1).drop_last() =~= letters.take(b));
    } else {
        assert(letters.take(b) =~= letters);
    }
    if a < b {
        lemma_offsets(letters, a + 1, b);
        assert(letters.take(a + 1).drop_last() =~= letters.take(a));
    }
}

/// The letters from `s` up to `e` are a word: each can stand in a word,
/// the letter before them cannot, and one that cannot follows them.
pub open spec fn is_span(letters: Seq<LetterView>, s: int, e: int) -> bool {
    &&& 0 <= s < e < letters.len()
    &&& forall|i: int| s <= i < e ==> (#[trigger] letters[i]).in_word
    &&& !letters[e].in_word
    &&& s == 0 || !letters[s - 1].in_word
}

/// One place where a word stands: the word, and the bytes from `start` up
/// to `end` that it takes in the text.
#[derive(Debug)]
pub struct Hit {
    /// The word, in lower case.
    pub word: String,
    /// The offset of its first byte.
    pub start: usize,
    /// The offset of the byte after its last.
    pub end: usize,
}

/// The hit is the word that stands from `s` up to `e`.
pub open spec fn is_hit(hit: Hit, letters: Seq<LetterView>, s: int, e: int) -> bool {
    &&& is_span(letters, s, e)
    &&& hit.word@ == lowered(letters.subrange(s, e))
    &&& hit.start == offset(letters, s)
    &&& hit.end == offset(letters, e)
}

/// The hits are the words that end before position `k`, each once, in the
/// order in which they stand.
pub open spec fn hits_up_to(hits: Seq<Hit>, letters: Seq<LetterView>, k: int) -> bool {
    &&& forall|h: int| 0 <= h < hits.len() ==> ends_before(#[trigger] hits[h], letters, k)
    &&& forall|a: int, b: int| 0 <= a < b < hits.len() ==> (#[trigger] hits[a]).start < (#[trigger] hits[b]).start
    &&& forall|s: int, e: int| e < k && #[trigger] is_span(letters, s, e) ==> is_listed(hits, letters, s, e)
}

/// The hit is a word that ends before position `k`.
pub open spec fn ends_before(hit: Hit, letters: Seq<LetterView>, k: int) -> bool {
    exists|s: int, e: int| e < k && #[trigger] is_hit(hit, letters, s, e)
}

/// The word that stands from `s` up to `e` is one of the hits.
pub open spec fn is_listed(hits: Seq<Hit>, letters: Seq<LetterView>, s: int, e: int) -> bool {
    exists|h: int| 0 <= h < hits.len() && is_hit(#[trigger] hits[h], letters, s, e)
}

/// No word ends at `k` if the letter there can stand in a word, or if the
/// letter before it cannot: the words that end before `k` are then also
/// those that end before `k + 1`.
proof fn lemma_scan_keep(hits: Seq<Hit>, letters: Seq<LetterView>, k: int)
    requires
        0 <= k < letters.len(),
        hits_up_to(hits, letters, k),
        letters[k].in_word || k == 0 || !letters[k - 1].in_word,
    ensures
        hits_up_to(hits, letters, k + 1),
{
    assert forall|s: int, e: int| e < k + 1 && #[trigger] is_span(letters, s, e) implies is_listed(
        hits,
        letters,
        s,
        e,
    ) by {
        if e == k {
            assert(letters[e - 1].in_word);
        } else {
            assert(is_listed(hits, letters, s, e));
        }
    }
    assert forall|h: int| 0 <= h < hits.len() implies ends_before(#[trigger] hits[h], letters, k + 1) by {
        assert(ends_before(hits[h], letters, k));
        let (s, e) = choose|s: int, e: int| e < k && #[trigger] is_hit(hits[h], letters, s, e);
        assert(is_hit(hits[h], letters, s, e));
    }
}

/// The word that ends at `k` joins the words that end before it.
proof fn lemma_scan_push(hits: Seq<Hit>, hit: Hit, letters: Seq<LetterView>, begin: int, k: int)
    requires
        0 <= k < letters.len(),
        hits_up_to(hits, letters, k),
        is_hit(hit, letters, begin, k),
        forall|h: int| 0 <= h < hits.len() ==> (#[trigger] hits[h]).start < hit.start,
    ensures
        hits_up_to(hits.push(hit), letters, k + 1),
{
    let more = hits.push(hit);
    let last = hits.len() as int;
    assert forall|h: int| 0 <= h < more.len() implies ends_before(#[trigger] more[h], letters, k + 1) by {
        if h < last {
            assert(ends_before(hits[h], letters, k));
            let (s, e) = choose|s: int, e: int| e < k && #[trigger] is_hit(hits[h], letters, s, e);
            assert(is_hit(more[h], letters, s, e));
        } else {
            assert(is_hit(more[h], letters, begin, k));
        }
    }
    assert forall|a: int, b: int| 0 <= a < b < more.len() implies (#[trigger] more[a]).start < (
    #[trigger] more[b]).start by {
        if b == last {
            assert(hits[a].start < hit.start);
        } else {
            assert(hits[a].start < hits[b].start);
        }
    }
    assert forall|s: int, e: int| e < k + 1 && #[trigger] is_span(letters, s, e) implies is_listed(
        more,
        letters,
        s,
        e,
    ) by {
        if e == k {
            if s < begin {
                assert(letters[begin - 1].in_word);
            } else if s > begin {
                assert(letters[s - 1].in_word);
            }
            assert(is_hit(more[last], letters, s, e));
        } else {
            assert(is_listed(hits, letters, s, e));
            let h = choose|h: int| 0 <= h < hits.len() && is_hit(#[trigger] hits[h], letters, s, e);
            assert(is_hit(more[h], letters, s, e));
        }
    }
}

/// The letters of a text.
pub fn read_letters(text: &str) -> (letters: Vec<Letter>)
    ensures
        letter_views(letters@) == letters_of(text@),
        width_of(letters_of(text@)) <= usize::MAX,
        forall|i: int| 0 <= i < letters@.len() ==> (#[trigger] letters@[i]).width >= 1,
{
    let chars = chars_of(text);
    let total: usize = text.as_bytes().len();
    assert(total == encode_utf8(text@).len());
    let mut letters: Vec<Letter> = Vec::new();
    let mut i: usize = 0;
    while i < chars.len()
        invariant
            chars@ == text@,
            i <= chars@.len(),
            letters@.len() == i,
            forall|k: int| 0 <= k < i ==> (#[trigger] letters@[k])@ == letters_of(text@)[k] && letters@[k].width >= 1,
        decreases chars@.len() - i,
    {
        let c: char = chars[i];
        letters.push(Letter { in_word: word_symbol(c), lower: lowercase(c), width: utf8_width(c) });
        i += 1;
    }
    proof {
        assert(letter_views(letters@) =~= letters_of(text@));
        lemma_offsets_are_utf8(text@, text@.len() as int);
        assert(text@.take(text@.len() as int) =~= text@);
        assert(letters_of(text@).take(text@.len() as int) =~= letters_of(text@));
    }
    letters
}

/// The words of a run of letters, in the order in which they stand.
///
/// A word that runs to the very end, with nothing after it, is not listed.
pub fn scan_letters(letters: &Vec<Letter>) -> (hits: Vec<Hit>)
    requires
        width_of(letter_views(letters@)) <= usize::MAX,
        forall|i: int| 0 <= i < letters@.len() ==> (#[trigger] letters@[i]).width >= 1,
    ensures
        hits_up_to(hits@, letter_views(letters@), letters@.len() as int),
{
    let ghost all = letter_views(letters@);
    let mut hits: Vec<Hit> = Vec::new();
    let mut word: Vec<char> = Vec::new();
    let mut inside: bool = false;
    let mut start: usize = 0;
    let ghost mut begin: int = 0;
    let mut at: usize = 0;
    let mut k: usize = 0;
    proof {
        lemma_offsets(all, 0, 0);
    }
    while k < letters.len()
        invariant
            all == letter_views(letters@),
            width_of(all) <= usize::MAX,
            forall|i: int| 0 <= i < letters@.len() ==> (#[trigger] letters@[i]).width >= 1,
            k <= letters@.len(),
            at == offset(all, k as int),
            hits_up_to(hits@, all, k as int),
            forall|h: int| 0 <= h < hits@.len() ==> (#[trigger] hits@[h]).start < hits@[h].end,
            forall|h: int| 0 <= h < hits@.len() ==> (#[trigger] hits@[h]).end <= (if inside {
                start
            } else {
                at
            }),
            inside ==> 0 <= begin < k && start == offset(all, begin) && word@ == lowered(
                all.subrange(begin, k as int),
            ) && (forall|i: int| begin <= i < k ==> (#[trigger] all[i]).in_word) && (begin == 0 || !all[begin
                - 1].in_word),
            !inside ==> k == 0 || !all[k - 1].in_word,
        decreases letters@.len() - k,
    {
        let letter = &letters[k];
        proof {
            lemma_offsets(all, k as int, k as int);
            lemma_offsets(all, k as int, k + 1);
            assert(all[k as int] == letter@);
        }
        if letter.in_word {
            if !inside {
                inside = true;
                start = at;
                word = Vec::new();
                proof {
                    begin = k as int;
                    assert(all.subrange(k as int, k as int) =~= Seq::<LetterView>::empty());
                }
            }
            let ghost before = word@;
            assert(before == lowered(all.subrange(begin, k as int)));
            let mut i: usize = 0;
            while i < letter.lower.len()
                invariant
                    i <= letter.lower@.len(),
                    word@ == before + letter.lower@.take(i as int),
                decreases letter.lower@.len() - i,
            {
                word.push(letter.lower[i]);
                assert(letter.lower@.take(i + 1) =~= letter.lower@.take(i as int).push(letter.lower@[i as int]));
                i += 1;
            }
            proof {
                let run = all.subrange(begin, k + 1);
                assert(run.drop_last() =~= all.subrange(begin, k as int));
                assert(run.last() == letter@);
                assert(letter.lower@.take(letter.lower@.len() as int) =~= letter.lower@);
                lemma_scan_keep(hits@, all, k as int);
            }
        } else if inside {
            let ghost old_hits = hits@;
            let mut taken: Vec<char> = Vec::new();
            core::mem::swap(&mut word, &mut taken);
            let text_of_word = crate::text::string_of(&taken);
            hits.push(Hit { word: text_of_word, start, end: at });
            inside = false;
            proof {
                lemma_offsets(all, begin, k as int);
                lemma_offsets(all, begin, begin);
                assert(is_span(all, begin, k as int));
                assert(start < at) by {
                    lemma_offsets(all, begin + 1, k as int);
                    assert(all[begin] == letters@[begin]@);
                }
                assert forall|h: int| 0 <= h < old_hits.len() implies (#[trigger] old_hits[h]).start < start by {
                    assert(old_hits[h].start < old_hits[h].end);
                }
                lemma_scan_push(old_hits, hits@[hits@.len() - 1], all, begin, k as int);
            }
        } else {
            proof {
                lemma_scan_keep(hits@, all, k as int);
            }
        }
        at = at + letter.width;
        k += 1;
    }
    hits
}

/// A word with the places where it stands: the bytes from the first
/// number up to the second, for each place.
pub type Context = (String, Vec<(usize, usize)>);

/// The entry is the word `word` and lists the place `range`.
pub open spec fn has_range(entry: Context, word: Seq<char>, range: (usize, usize)) -> bool {
    entry.0@ == word && exists|r: int| 0 <= r < entry.1@.len() && #[trigger] entry.1@[r] == range
}

/// The hit is filed: an entry of its word lists its place.
pub open spec fn filed(entries: Seq<Context>, hit: Hit) -> bool {
    exists|i: int| 0 <= i < entries.len() && has_range(#[trigger] entries[i], hit.word@, (hit.start, hit.end))
}

/// The place is that of a hit of the word.
pub open spec fn from_hit(hits: Seq<Hit>, word: Seq<char>, range: (usize, usize)) -> bool {
    exists|h: int| 0 <= h < hits.len() && (#[trigger] hits[h]).word@ == word && (hits[h].start, hits[h].end) == range
}

/// No word has two entries.
pub open spec fn distinct_words(entries: Seq<Context>) -> bool {
    forall|i: int, j: int| 0 <= i < j < entries.len() ==> (#[trigger] entries[i]).0@ != (#[trigger] entries[j]).0@
}

/// The places of every entry stand in rising order, and no entry is
/// without a place.
pub open spec fn places_rise(entries: Seq<Context>) -> bool {
    &&& forall|i: int, a: int, b: int|
        0 <= i < entries.len() && 0 <= a < b < entries[i].1@.len() ==> (#[trigger] entries[i].1@[a]).0 < (
        #[trigger] entries[i].1@[b]).0
    &&& forall|i: int| 0 <= i < entries.len() ==> (#[trigger] entries[i]).1@.len() > 0
}

/// The entries hold the hits by word: every hit is filed, and every place
/// of an entry is that of a hit of its word.
pub open spec fn grouped(entries: Seq<Context>, hits: Seq<Hit>) -> bool {
    &&& distinct_words(entries)
    &&& places_rise(entries)
    &&& forall|i: int, r: int|
        0 <= i < entries.len() && 0 <= r < entries[i].1@.len() ==> from_hit(
            hits,
            entries[i].0@,
            #[trigger] entries[i].1@[r],
        )
    &&& forall|h: int| 0 <= h < hits.len() ==> filed(entries, #[trigger] hits[h])
}

/// Files hits by word: each word once, in the order in which the words
/// first occur, each with its places in the order of the hits.
pub fn group(hits: &Vec<Hit>) -> (entries: Vec<Context>)
    requires
        forall|a: int, b: int| 0 <= a < b < hits@.len() ==> (#[trigger] hits@[a]).start < (#[trigger] hits@[b]).start,
    ensures
        grouped(entries@, hits@),
{
    let mut entries: Vec<Context> = Vec::new();
    let mut n: usize = 0;
    while n < hits.len()
        invariant
            n <= hits@.len(),
            forall|a: int, b: int|
                0 <= a < b < hits@.len() ==> (#[trigger] hits@[a]).start < (#[trigger] hits@[b]).start,
            grouped(entries@, hits@.take(n as int)),
        decreases hits@.len() - n,
    {
        let ghost before = entries@;
        let ghost seen = hits@.take(n as int);
        let ghost more = hits@.take(n + 1);
        let hit = &hits[n];
        let mut i: usize = 0;
        let mut found: bool = false;
        while i < entries.len() && !found
            invariant
                i <= entries@.len(),
                entries@ == before,
                found ==> i < entries@.len() && entries@[i as int].0@ == hit.word@,
                forall|j: int| 0 <= j < i && !(found && j == i) ==> (#[trigger] entries@[j]).0@ != hit.word@,
            decreases entries@.len() - i + (if found { 0int } else { 1int }),
        {
            if entries[i].0 == hit.word {
                found = true;
            } else {
                i += 1;
            }
        }
        if found {
            entries[i].1.push((hit.start, hit.end));
        } else {
            let mut places: Vec<(usize, usize)> = Vec::new();
            places.push((hit.start, hit.end));
            entries.push((hit.word.clone(), places));
        }
        proof {
            let at = i as int;
            lemma_group_step(before, entries@, hits@, n as int, at, found);
        }
        n += 1;
    }
    assert(hits@.take(hits@.len() as int) =~= hits@);
    entries
}

/// Filing one more hit keeps the entries grouped.
proof fn lemma_group_step(before: Seq<Context>, after: Seq<Context>, hits: Seq<Hit>, n: int, at: int, found: bool)
    requires
        0 <= n < hits.len(),
        forall|a: int, b: int| 0 <= a < b < hits.len() ==> (#[trigger] hits[a]).start < (#[trigger] hits[b]).start,
        grouped(before, hits.take(n)),
        found ==> 0 <= at < before.len() && before[at].0@ == hits[n].word@ && after.len() == before.len()
            && after[at].0 == before[at].0 && after[at].1@ == before[at].1@.push((hits[n].start, hits[n].end))
            && forall|j: int| 0 <= j < before.len() && j != at ==> after[j] == before[j],
        !found ==> (forall|j: int| 0 <= j < before.len() ==> (#[trigger] before[j]).0@ != hits[n].word@)
            && after.len() == before.len() + 1 && (forall|j: int| 0 <= j < before.len() ==> after[j] == before[j])
            && after[before.len() as int].0@ == hits[n].word@ && after[before.len() as int].1@ == seq![
            (hits[n].start, hits[n].end),
        ],
    ensures
        grouped(after, hits.take(n + 1)),
{
    let seen = hits.take(n);
    let more = hits.take(n + 1);
    let hit = hits[n];
    let range = (hit.start, hit.end);
    let slot = if found { at } else { before.len() as int };
    assert(more[n] == hit);
    assert forall|i: int, j: int| 0 <= i < j < after.len() implies (#[trigger] after[i]).0@ != (
    #[trigger] after[j]).0@ by {
        if j < before.len() {
            assert(before[i].0@ != before[j].0@);
        } else {
            assert(before[i].0@ != hit.word@);
        }
    }
    assert forall|i: int, r: int| 0 <= i < after.len() && 0 <= r < after[i].1@.len() implies from_hit(
        more,
        after[i].0@,
        #[trigger] after[i].1@[r],
    ) by {
        if i == slot && r == after[i].1@.len() - 1 {
            assert(more[n].word@ == after[i].0@);
        } else {
            assert(from_hit(seen, before[i].0@, before[i].1@[r]));
            let h = choose|h: int|
                0 <= h < seen.len() && (#[trigger] seen[h]).word@ == before[i].0@ && (seen[h].start, seen[h].end)
                    == before[i].1@[r];
            assert(more[h] == seen[h]);
        }
    }
    assert forall|h: int| 0 <= h < more.len() implies filed(after, #[trigger] more[h]) by {
        if h < n {
            assert(filed(before, seen[h]));
            let i = choose|i: int|
                0 <= i < before.len() && has_range(#[trigger] before[i], seen[h].word@, (seen[h].start, seen[h].end));
            let r = choose|r: int| 0 <= r < before[i].1@.len() && #[trigger] before[i].1@[r] == (
                seen[h].start,
                seen[h].end,
            );
            assert(after[i].1@[r] == (seen[h].start, seen[h].end));
            assert(has_range(after[i], more[h].word@, (more[h].start, more[h].end)));
        } else {
            assert(after[slot].1@[after[slot].1@.len() - 1] == range);
            assert(has_range(after[slot], hit.word@, range));
        }
    }
    assert forall|i: int, a: int, b: int| 0 <= i < after.len() && 0 <= a < b < after[i].1@.len() implies (
    #[trigger] after[i].1@[a]).0 < (#[trigger] after[i].1@[b]).0 by {
        if i == slot && b == after[i].1@.len() - 1 {
            assert(from_hit(seen, before[i].0@, before[i].1@[a]));
            let h = choose|h: int|
                0 <= h < seen.len() && (#[trigger] seen[h]).word@ == before[i].0@ && (seen[h].start, seen[h].end)
                    == before[i].1@[a];
            assert(hits[h].start < hits[n].start);
        } else {
            assert(before[i].1@[a].0 < before[i].1@[b].0);
        }
    }
    assert forall|i: int| 0 <= i < after.len() implies (#[trigger] after[i]).1@.len() > 0 by {
        if i < before.len() {
            assert(before[i].1@.len() > 0);
        }
    }
}

/// The first entry goes before the second in the list of words: it has
/// more places, or as many and its word stands before the other in the
/// order of strings.
pub open spec fn goes_first(a: Context, b: Context) -> bool {
    a.1@.len() > b.1@.len() || (a.1@.len() == b.1@.len() && precedes(a.0@, b.0@))
}

/// Each entry goes before all that follow it.
pub open spec fn ordered(entries: Seq<Context>) -> bool {
    forall|i: int, j: int| 0 <= i < j < entries.len() ==> goes_first(#[trigger] entries[i], #[trigger] entries[j])
}

/// The two lists hold the same entries.
pub open spec fn same_entries(a: Seq<Context>, b: Seq<Context>) -> bool {
    &&& a.len() == b.len()
    &&& forall|i: int| 0 <= i < a.len() ==> b.contains(#[trigger] a[i])
    &&& forall|j: int| 0 <= j < b.len() ==> a.contains(#[trigger] b[j])
}

/// Whether the first entry goes before the second.
fn is_first(a: &Context, b: &Context) -> (first: bool)
    ensures
        first == goes_first(*a, *b),
{
    a.1.len() > b.1.len() || (a.1.len() == b.1.len() && text_before(a.0.as_str(), b.0.as_str()))
}

/// Orders the entries: the words with the most places first, words with
/// equally many places in the order of strings.
pub fn rank_words(entries: Vec<Context>) -> (sorted: Vec<Context>)
    requires
        distinct_words(entries@),
    ensures
        same_entries(sorted@, entries@),
        distinct_words(sorted@),
        ordered(sorted@),
{
    let mut rest = entries;
    let mut sorted: Vec<Context> = Vec::new();
    let ghost all = rest@;
    let ghost n = all.len();
    while rest.len() > 0
        invariant
            rest@.len() <= n,
            n == all.len(),
            all == entries@,
            distinct_words(all),
            rest@ == all.skip(n - rest@.len()),
            sorted@.len() == n - rest@.len(),
            forall|i: int| 0 <= i < sorted@.len() ==> all.take(n - rest@.len()).contains(#[trigger] sorted@[i]),
            forall|j: int| 0 <= j < n - rest@.len() ==> sorted@.contains(#[trigger] all[j]),
            distinct_words(sorted@),
            ordered(sorted@),
        decreases rest@.len(),
    {
        let ghost done = n - rest@.len();
        let ghost before = sorted@;
        let entry = rest.remove(0);
        assert(entry == all[done]);
        assert(rest@ =~= all.skip(done + 1));
        let mut p: usize = 0;
        while p < sorted.len() && !is_first(&entry, &sorted[p])
            invariant
                p <= sorted@.len(),
                forall|q: int| 0 <= q < p ==> !goes_first(entry, #[trigger] sorted@[q]),
            decreases sorted@.len() - p,
        {
            p += 1;
        }
        sorted.insert(p, entry);
        proof {
            lemma_rank_step(all, before, sorted@, done, p as int);
        }
    }
    proof {
        assert(all.take(n as int) =~= all);
        assert forall|j: int| 0 <= j < all.len() implies sorted@.contains(#[trigger] all[j]) by {}
    }
    sorted
}

/// Putting one more entry into its place keeps the list ordered.
proof fn lemma_rank_step(all: Seq<Context>, before: Seq<Context>, after: Seq<Context>, done: int, p: int)
    requires
        0 <= done < all.len(),
        distinct_words(all),
        before.len() == done,
        forall|i: int| 0 <= i < before.len() ==> all.take(done).contains(#[trigger] before[i]),
        forall|j: int| 0 <= j < done ==> before.contains(#[trigger] all[j]),
        distinct_words(before),
        ordered(before),
        0 <= p <= before.len(),
        after == before.insert(p, all[done]),
        forall|q: int| 0 <= q < p ==> !goes_first(all[done], #[trigger] before[q]),
        p < before.len() ==> goes_first(all[done], before[p]),
    ensures
        forall|i: int| 0 <= i < after.len() ==> all.take(done + 1).contains(#[trigger] after[i]),
        forall|j: int| 0 <= j < done + 1 ==> after.contains(#[trigger] all[j]),
        distinct_words(after),
        ordered(after),
{
    let entry = all[done];
    let back = |i: int| if i < p { i } else { i - 1 };
    assert forall|i: int| 0 <= i < after.len() implies #[trigger] after[i] == (if i == p {
        entry
    } else {
        before[back(i)]
    }) by {}
    assert forall|q: int| 0 <= q < before.len() implies (#[trigger] before[q]).0@ != entry.0@ by {
        assert(all.take(done).contains(before[q]));
        let j = choose|j: int| 0 <= j < all.take(done).len() && all.take(done)[j] == before[q];
        assert(all[j].0@ != all[done].0@);
    }
    assert forall|i: int| 0 <= i < after.len() implies all.take(done + 1).contains(#[trigger] after[i]) by {
        if i == p {
            assert(all.take(done + 1)[done] == entry);
        } else {
            assert(all.take(done).contains(before[back(i)]));
            let j = choose|j: int| 0 <= j < all.take(done).len() && all.take(done)[j] == before[back(i)];
            assert(all.take(done + 1)[j] == after[i]);
        }
    }
    assert forall|j: int| 0 <= j < done + 1 implies after.contains(#[trigger] all[j]) by {
        if j == done {
            assert(after[p] == all[j]);
        } else {
            assert(before.contains(all[j]));
            let q = choose|q: int| 0 <= q < before.len() && before[q] == all[j];
            let i = if q < p { q } else { q + 1 };
            assert(after[i] == all[j]);
        }
    }
    assert forall|i: int, j: int| 0 <= i < j < after.len() implies (#[trigger] after[i]).0@ != (
    #[trigger] after[j]).0@ by {
        if i != p && j != p {
            assert(before[back(i)].0@ != before[back(j)].0@);
        } else if i == p {
            assert(before[back(j)].0@ != entry.0@);
        } else {
            assert(before[back(i)].0@ != entry.0@);
        }
    }
    assert forall|i: int, j: int| 0 <= i < j < after.len() implies goes_first(
        #[trigger] after[i],
        #[trigger] after[j],
    ) by {
        if i != p && j != p {
            assert(goes_first(before[back(i)], before[back(j)]));
        } else if j == p {
            let x = before[back(i)];
            assert(!goes_first(entry, x));
            assert(x.0@ != entry.0@);
            lemma_precedes_total(x.0@, entry.0@);
        } else {
            let y = before[back(j)];
            assert(goes_first(entry, before[p]));
            if back(j) > p {
                assert(goes_first(before[p], y));
                if entry.1@.len() == before[p].1@.len() && before[p].1@.len() == y.1@.len() {
                    lemma_precedes_transitive(entry.0@, before[p].0@, y.0@);
                }
            }
        }
    }
}

/// The entry lists, as one of its places, the bytes of the word that
/// stands from `s` up to `e`.
pub open spec fn lists_span(entries: Seq<Context>, letters: Seq<LetterView>, s: int, e: int) -> bool {
    exists|i: int|
        0 <= i < entries.len() && has_range(
            #[trigger] entries[i],
            lowered(letters.subrange(s, e)),
            (offset(letters, s) as usize, offset(letters, e) as usize),
        )
}

/// The place is where the word stands among the letters.
pub open spec fn from_span(letters: Seq<LetterView>, word: Seq<char>, range: (usize, usize)) -> bool {
    exists|s: int, e: int|
        #[trigger] is_span(letters, s, e) && word == lowered(letters.subrange(s, e)) && range.0 == offset(
            letters,
            s,
        ) && range.1 == offset(letters, e)
}

/// The entries are the words of the letters: each word once, with every
/// place where it stands and no other, the places in rising order; the
/// words with the most places come first, words with equally many places
/// in the order of strings.
pub open spec fn is_word_list(entries: Seq<Context>, letters: Seq<LetterView>) -> bool {
    &&& distinct_words(entries)
    &&& places_rise(entries)
    &&& ordered(entries)
    &&& forall|s: int, e: int| #[trigger] is_span(letters, s, e) ==> lists_span(entries, letters, s, e)
    &&& forall|i: int, r: int|
        0 <= i < entries.len() && 0 <= r < entries[i].1@.len() ==> from_span(
            letters,
            entries[i].0@,
            #[trigger] entries[i].1@[r],
        )
}

/// Grouping the hits of a run of letters and ordering the entries gives the
/// list of its words.
proof fn lemma_word_list(hits: Seq<Hit>, filed_list: Seq<Context>, sorted: Seq<Context>, letters: Seq<LetterView>)
    requires
        hits_up_to(hits, letters, letters.len() as int),
        grouped(filed_list, hits),
        same_entries(sorted, filed_list),
        distinct_words(sorted),
        ordered(sorted),
    ensures
        is_word_list(sorted, letters),
{
    assert forall|i: int| 0 <= i < sorted.len() implies (#[trigger] sorted[i]).1@.len() > 0 && (forall|a: int, b: int|
        0 <= a < b < sorted[i].1@.len() ==> (#[trigger] sorted[i].1@[a]).0 < (#[trigger] sorted[i].1@[b]).0) && (
    forall|r: int| 0 <= r < sorted[i].1@.len() ==> from_span(letters, sorted[i].0@, #[trigger] sorted[i].1@[r])) by {
        assert(filed_list.contains(sorted[i]));
        let j = choose|j: int| 0 <= j < filed_list.len() && filed_list[j] == sorted[i];
        assert(filed_list[j].1@.len() > 0);
        assert forall|a: int, b: int| 0 <= a < b < sorted[i].1@.len() implies (#[trigger] sorted[i].1@[a]).0 < (
        #[trigger] sorted[i].1@[b]).0 by {
            assert(filed_list[j].1@[a].0 < filed_list[j].1@[b].0);
        }
        assert forall|r: int| 0 <= r < sorted[i].1@.len() implies from_span(
            letters,
            sorted[i].0@,
            #[trigger] sorted[i].1@[r],
        ) by {
            assert(from_hit(hits, filed_list[j].0@, filed_list[j].1@[r]));
            let h = choose|h: int|
                0 <= h < hits.len() && (#[trigger] hits[h]).word@ == filed_list[j].0@ && (hits[h].start, hits[h].end)
                    == filed_list[j].1@[r];
            assert(ends_before(hits[h], letters, letters.len() as int));
            let (s, e) = choose|s: int, e: int| e < letters.len() && #[trigger] is_hit(hits[h], letters, s, e);
            assert(is_span(letters, s, e));
        }
    }
    assert forall|s: int, e: int| #[trigger] is_span(letters, s, e) implies lists_span(sorted, letters, s, e) by {
        assert(is_listed(hits, letters, s, e));
        let h = choose|h: int| 0 <= h < hits.len() && is_hit(#[trigger] hits[h], letters, s, e);
        assert(filed(filed_list, hits[h]));
        let j = choose|j: int|
            0 <= j < filed_list.len() && has_range(#[trigger] filed_list[j], hits[h].word@, (hits[h].start, hits[h].end));
        assert(sorted.contains(filed_list[j]));
        let i = choose|i: int| 0 <= i < sorted.len() && sorted[i] == filed_list[j];
        assert(has_range(
            sorted[i],
            lowered(letters.subrange(s, e)),
            (offset(letters, s) as usize, offset(letters, e) as usize),
        ));
    }
}

/// The words of a text, with the places where they stand.
#[derive(Debug)]
pub struct WordsWithContext(pub Vec<(String, Vec<(usize, usize)>)>);

/// A text and its words.
#[derive(Debug)]
pub struct GetWordsResult {
    /// The text.
    pub text: String,
    /// Its words.
    pub words_with_context: WordsWithContext,
}

/// The words of a run of letters, each in lower case, once, with the bytes
/// of each place where it stands. The words that stand at the most places
/// come first.
pub fn words_of_letters(letters: &Vec<Letter>) -> (entries: Vec<Context>)
    requires
        width_of(letter_views(letters@)) <= usize::MAX,
        forall|i: int| 0 <= i < letters@.len() ==> (#[trigger] letters@[i]).width >= 1,
    ensures
        is_word_list(entries@, letter_views(letters@)),
{
    let hits = scan_letters(letters);
    let filed_list = group(&hits);
    let ghost unsorted = filed_list@;
    let sorted = rank_words(filed_list);
    proof {
        lemma_word_list(hits@, unsorted, sorted@, letter_views(letters@));
    }
    sorted
}

/// Reads the words out of a text.
///
/// A word is a run of letters, apostrophes and hyphens that some other
/// character follows; it is listed in lower case, once, with the bytes of
/// each place where it stands. The words that stand at the most places
/// come first.
pub fn get_words(text: &str) -> (result: GetWordsResult)
    ensures
        result.text@ == text@,
        is_word_list(result.words_with_context.0@, letters_of(text@)),
{
    let letters = read_letters(text);
    let sorted = words_of_letters(&letters);
    GetWordsResult { text: text.to_owned(), words_with_context: WordsWithContext(sorted) }
}

impl WordsWithContext {
    /// Drops the words that the store holds already; the others keep
    /// their order.
    pub fn drop_known(&mut self, words: &Words)
        requires
            words.wf(),
        ensures
            final(self).0@ == old(self).0@.filter(|entry: Context| !words@.contains_key(entry.0@)),
    {
        let ghost unknown = |entry: Context| !words@.contains_key(entry.0@);
        let ghost all = self.0@;
        let mut kept: Vec<Context> = Vec::new();
        proof {
            reveal(Seq::filter);
            assert(all.skip(0) =~= all);
            assert(kept@ =~= all.take(0).filter(unknown));
        }
        while self.0.len() > 0
            invariant
                words.wf(),
                unknown == (|entry: Context| !words@.contains_key(entry.0@)),
                self.0@.len() <= all.len(),
                self.0@ == all.skip(all.len() - self.0@.len()),
                kept@ == all.take(all.len() - self.0@.len()).filter(unknown),
            decreases self.0@.len(),
        {
            let ghost done = all.len() - self.0@.len();
            let entry = self.0.remove(0);
            proof {
                assert(entry == all[done]);
                assert(self.0@ =~= all.skip(done + 1));
                lemma_take_push(all, done);
                all.take(done).lemma_filter_push(entry, unknown);
            }
            if !words.contains_word(entry.0.as_str()) {
                kept.push(entry);
            }
        }
        assert(all.take(all.len() as int) =~= all);
        self.0 = kept;
    }
}

} // verus!
