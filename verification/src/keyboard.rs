//! A keyboard layout: which symbol of one language sits on the key of
//! which symbol of the other, and how text typed in the wrong language is
//! put right.

use vstd::prelude::*;
use crate::assoc::{
    built_map, distinct_keys, has_key, lemma_to_map_at, lemma_to_map_insert, lemma_to_map_update,
    to_map,
};
use crate::seqs::lemma_take_push;
use crate::text::{chars_of, string_of};

verus! {

/// Why two lists of symbols make no layout.
#[derive(Clone, Copy, Debug, PartialEq, Eq, Structural)]
pub enum LayoutError {
    /// The lists hold different numbers of symbols.
    LengthsDiffer {
        /// The number of symbols of the first language.
        first: usize,
        /// The number of symbols of the second language.
        second: usize,
    },
    /// A symbol of the first language is a symbol of the second too.
    SharedSymbol {
        /// The first such symbol of the first language.
        symbol: char,
    },
}

/// The symbols of a text: its characters but for the line breaks.
pub open spec fn symbols(text: Seq<char>) -> Seq<char> {
    text.filter(|c: char| c != '\n')
}

/// The symbol at `i` of `first` is no space and occurs in `second`.
pub open spec fn is_shared(first: Seq<char>, second: Seq<char>, i: int) -> bool {
    0 <= i < first.len() && first[i] != ' ' && second.contains(first[i])
}

/// The map that sends each key to the value at its place, the last place
/// of a key counting.
pub open spec fn paired(keys: Seq<char>, values: Seq<char>) -> Map<char, char>
    decreases keys.len(),
{
    if keys.len() == 0 || values.len() == 0 {
        Map::empty()
    } else {
        paired(keys.drop_last(), values.drop_last()).insert(keys.last(), values.last())
    }
}

/// The text with each character that `lang` maps replaced by what it maps
/// to; a space always stays.
pub open spec fn remapped(text: Seq<char>, lang: Map<char, char>) -> Seq<char> {
    Seq::new(
        text.len(),
        |i: int|
            if text[i] != ' ' && lang.contains_key(text[i]) {
                lang[text[i]]
            } else {
                text[i]
            },
    )
}

/// Two languages on one keyboard.
#[derive(Debug)]
pub struct KeyboardLayout {
    lang1: Vec<(char, char)>,
    lang2: Vec<(char, char)>,
}

/// The value of `key` in a list of pairs.
fn lookup(list: &Vec<(char, char)>, key: char) -> (value: Option<char>)
    requires
        distinct_keys(list@),
    ensures
        match value {
            Some(v) => to_map(list@).contains_key(key) && to_map(list@)[key] == v,
            None => !to_map(list@).contains_key(key),
        },
{
    let mut i: usize = 0;
    while i < list.len()
        invariant
            distinct_keys(list@),
            i <= list@.len(),
            forall|j: int| 0 <= j < i ==> list@[j].0 != key,
        decreases list@.len() - i,
    {
        if list[i].0 == key {
            proof {
                lemma_to_map_at(list@, i as int);
            }
            return Some(list[i].1);
        }
        i += 1;
    }
    None
}

/// The code of a symbol, by which the pairs are ordered.
pub open spec fn code(c: char) -> u32 {
    c as u32
}

/// The pairs stand in the rising order of their keys.
pub open spec fn rising(list: Seq<(char, char)>) -> bool {
    forall|i: int, j: int| 0 <= i < j < list.len() ==> code((#[trigger] list[i]).0) < code((#[trigger] list[j]).0)
}

/// Sets the value of `key` in a list of pairs that is kept in the rising
/// order of its keys.
fn put(list: &mut Vec<(char, char)>, key: char, value: char)
    requires
        rising(old(list)@),
        distinct_keys(old(list)@),
    ensures
        rising(final(list)@),
        distinct_keys(final(list)@),
        to_map(final(list)@) == to_map(old(list)@).insert(key, value),
{
    let mut i: usize = 0;
    while i < list.len() && (list[i].0 as u32) < (key as u32)
        invariant
            *list == *old(list),
            i <= list@.len(),
            forall|j: int| 0 <= j < i ==> code((#[trigger] list@[j]).0) < code(key),
        decreases list@.len() - i,
    {
        i += 1;
    }
    if i < list.len() && list[i].0 == key {
        list.set(i, (key, value));
        proof {
            lemma_to_map_update(old(list)@, i as int, value);
            assert(list@ =~= old(list)@.update(i as int, (key, value)));
            assert forall|a: int, b: int| 0 <= a < b < list@.len() implies code((#[trigger] list@[a]).0) < (
            #[trigger] list@[b]).0 as u32 by {
                assert(list@[a].0 == old(list)@[a].0 && list@[b].0 == old(list)@[b].0);
            }
        }
    } else {
        list.insert(i, (key, value));
        proof {
            let before = old(list)@;
            assert forall|j: int| i <= j < before.len() implies code((#[trigger] before[j]).0) > code(key) by {
                if j > i {
                    assert(code(before[i as int].0) < code(before[j].0));
                }
                vstd::utf8::char_u32_cast(before[i as int].0, before[i as int].0 as u32);
                vstd::utf8::char_u32_cast(key, key as u32);
            }
            assert(!has_key(before, key)) by {
                if has_key(before, key) {
                    let q = choose|q: int| 0 <= q < before.len() && #[trigger] before[q].0 == key;
                }
            }
            lemma_to_map_insert(before, i as int, key, value);
            assert forall|a: int| 0 <= a < list@.len() implies #[trigger] list@[a] == (if a < i {
                before[a]
            } else if a == i {
                (key, value)
            } else {
                before[a - 1]
            }) by {}
            assert forall|a: int, b: int| 0 <= a < b < list@.len() implies code((#[trigger] list@[a]).0) < (
            #[trigger] list@[b]).0 as u32 by {
                let a0 = if a < i { a } else { a - 1 };
                let b0 = if b < i { b } else { b - 1 };
                if a == i {
                    assert(code(before[b0].0) > code(key));
                } else if b == i {
                    assert(code(before[a0].0) < code(key));
                } else {
                    assert(code(before[a0].0) < code(before[b0].0));
                }
            }
        }
    }
}

/// The symbols of a text.
fn symbols_of(text: &str) -> (list: Vec<char>)
    ensures
        list@ == symbols(text@),
{
    let all = chars_of(text);
    let ghost keep = |c: char| c != '\n';
    let mut list: Vec<char> = Vec::new();
    let mut i: usize = 0;
    proof {
        reveal(Seq::filter);
        assert(all@.take(0).filter(keep) =~= Seq::<char>::empty());
    }
    while i < all.len()
        invariant
            i <= all@.len(),
            keep == (|c: char| c != '\n'),
            list@ == all@.take(i as int).filter(keep),
        decreases all@.len() - i,
    {
        proof {
            lemma_take_push(all@, i as int);
            all@.take(i as int).lemma_filter_push(all@[i as int], keep);
        }
        if all[i] != '\n' {
            list.push(all[i]);
        }
        i += 1;
    }
    assert(all@.take(all@.len() as int) =~= all@);
    list
}

/// Whether `symbol` occurs in `list`.
fn occurs(list: &Vec<char>, symbol: char) -> (found: bool)
    ensures
        found == list@.contains(symbol),
{
    let mut i: usize = 0;
    while i < list.len()
        invariant
            i <= list@.len(),
            forall|j: int| 0 <= j < i ==> list@[j] != symbol,
        decreases list@.len() - i,
    {
        if list[i] == symbol {
            return true;
        }
        i += 1;
    }
    false
}

impl KeyboardLayout {
    /// What the keys of the first language give in the second.
    pub closed spec fn first(&self) -> Map<char, char> {
        to_map(self.lang1@)
    }

    /// What the keys of the second language give in the first.
    pub closed spec fn second(&self) -> Map<char, char> {
        to_map(self.lang2@)
    }

    /// Each side is kept in the rising order of its symbols, so no symbol
    /// is held twice.
    pub closed spec fn wf(&self) -> bool {
        rising(self.lang1@) && rising(self.lang2@) && distinct_keys(self.lang1@) && distinct_keys(self.lang2@)
    }

    /// The layout of no keyboard.
    pub fn empty() -> (layout: KeyboardLayout)
        ensures
            layout.wf(),
            layout.first() =~= Map::<char, char>::empty(),
            layout.second() =~= Map::<char, char>::empty(),
    {
        KeyboardLayout { lang1: Vec::new(), lang2: Vec::new() }
    }

    /// The layout in which the symbols of `lang1` and of `lang2` share
    /// keys place by place. Line breaks do not count. The lists must hold
    /// equally many symbols, and no symbol of `lang1` but the space may
    /// occur in `lang2`.
    pub fn new(lang1: &str, lang2: &str) -> (made: Result<KeyboardLayout, LayoutError>)
        ensures
            match made {
                Ok(layout) => {
                    &&& layout.wf()
                    &&& symbols(lang1@).len() == symbols(lang2@).len()
                    &&& forall|i: int| !is_shared(symbols(lang1@), symbols(lang2@), i)
                    &&& layout.first() == paired(symbols(lang1@), symbols(lang2@))
                    &&& layout.second() == paired(symbols(lang2@), symbols(lang1@))
                },
                Err(LayoutError::LengthsDiffer { first, second }) => first == symbols(lang1@).len() && second
                    == symbols(lang2@).len() && first != second,
                Err(LayoutError::SharedSymbol { symbol }) => symbols(lang1@).len() == symbols(lang2@).len()
                    && exists|i: int|
                    #[trigger] is_shared(symbols(lang1@), symbols(lang2@), i) && symbols(lang1@)[i] == symbol
                        && forall|j: int| 0 <= j < i ==> !is_shared(symbols(lang1@), symbols(lang2@), j),
            },
    {
        let a = symbols_of(lang1);
        let b = symbols_of(lang2);
        if a.len() != b.len() {
            return Err(LayoutError::LengthsDiffer { first: a.len(), second: b.len() });
        }
        let mut i: usize = 0;
        while i < a.len()
            invariant
                i <= a@.len(),
                a@ == symbols(lang1@),
                b@ == symbols(lang2@),
                a@.len() == b@.len(),
                forall|j: int| 0 <= j < i ==> !is_shared(a@, b@, j),
            decreases a@.len() - i,
        {
            if a[i] != ' ' && occurs(&b, a[i]) {
                assert(is_shared(a@, b@, i as int));
                return Err(LayoutError::SharedSymbol { symbol: a[i] });
            }
            i += 1;
        }
        let mut result = KeyboardLayout { lang1: Vec::new(), lang2: Vec::new() };
        let mut k: usize = 0;
        assert(a@.take(0) =~= Seq::<char>::empty());
        assert(result.first() =~= paired(a@.take(0), b@.take(0)));
        assert(result.second() =~= paired(b@.take(0), a@.take(0)));
        while k < a.len()
            invariant
                k <= a@.len(),
                a@.len() == b@.len(),
                result.wf(),
                result.first() == paired(a@.take(k as int), b@.take(k as int)),
                result.second() == paired(b@.take(k as int), a@.take(k as int)),
            decreases a@.len() - k,
        {
            put(&mut result.lang1, a[k], b[k]);
            put(&mut result.lang2, b[k], a[k]);
            proof {
                lemma_take_push(a@, k as int);
                lemma_take_push(b@, k as int);
            }
            k += 1;
        }
        proof {
            assert(a@.take(a@.len() as int) =~= a@);
            assert(b@.take(b@.len() as int) =~= b@);
        }
        Ok(result)
    }

    /// Puts right what was typed in the wrong language: if `should_be`
    /// starts with a symbol of the second language, each symbol of the
    /// first language in `to_change` becomes the symbol that shares its
    /// key; otherwise each symbol of the second language does. Spaces stay.
    pub fn change(&self, should_be: &str, to_change: &mut String)
        requires
            self.wf(),
            should_be@.len() > 0,
        ensures
            final(to_change)@ == remapped(
                old(to_change)@,
                if self.second().contains_key(should_be@[0]) {
                    self.first()
                } else {
                    self.second()
                },
            ),
    {
        let target = chars_of(should_be);
        let is_first_lang: bool = lookup(&self.lang2, target[0]).is_some();
        let lang = if is_first_lang {
            &self.lang1
        } else {
            &self.lang2
        };
        let typed = chars_of(to_change.as_str());
        let mut changed: Vec<char> = Vec::new();
        let mut i: usize = 0;
        while i < typed.len()
            invariant
                i <= typed@.len(),
                distinct_keys(lang@),
                changed@.len() == i,
                forall|j: int| 0 <= j < i ==> #[trigger] changed@[j] == remapped(typed@, to_map(lang@))[j],
            decreases typed@.len() - i,
        {
            let x: char = typed[i];
            let c: char = match lookup(lang, x) {
                Some(c) => if x != ' ' {
                    c
                } else {
                    x
                },
                None => x,
            };
            changed.push(c);
            i += 1;
        }
        assert(changed@ =~= remapped(typed@, to_map(lang@)));
        *to_change = string_of(&changed);
    }

    /// The symbol that shares the key of `symbol`, seen from the first
    /// language.
    pub fn in_second(&self, symbol: char) -> (other: Option<char>)
        requires
            self.wf(),
        ensures
            match other {
                Some(c) => self.first().contains_key(symbol) && self.first()[symbol] == c,
                None => !self.first().contains_key(symbol),
            },
    {
        lookup(&self.lang1, symbol)
    }

    /// The symbol that shares the key of `symbol`, seen from the second
    /// language.
    pub fn in_first(&self, symbol: char) -> (other: Option<char>)
        requires
            self.wf(),
        ensures
            match other {
                Some(c) => self.second().contains_key(symbol) && self.second()[symbol] == c,
                None => !self.second().contains_key(symbol),
            },
    {
        lookup(&self.lang2, symbol)
    }

    /// The pairs of the first language, in the rising order of its
    /// symbols.
    pub fn pairs(&self) -> (pairs: Vec<(char, char)>)
        requires
            self.wf(),
        ensures
            rising(pairs@),
            distinct_keys(pairs@),
            to_map(pairs@) == self.first(),
    {
        let mut pairs: Vec<(char, char)> = Vec::new();
        let mut i: usize = 0;
        while i < self.lang1.len()
            invariant
                i <= self.lang1@.len(),
                pairs@ == self.lang1@.take(i as int),
            decreases self.lang1@.len() - i,
        {
            pairs.push(self.lang1[i]);
            assert(pairs@ =~= self.lang1@.take(i + 1));
            i += 1;
        }
        assert(pairs@ =~= self.lang1@);
        pairs
    }
    /// The pairs of the second language, in the rising order of its
    /// symbols.
    pub fn second_pairs(&self) -> (pairs: Vec<(char, char)>)
        requires
            self.wf(),
        ensures
            rising(pairs@),
            distinct_keys(pairs@),
            to_map(pairs@) == self.second(),
    {
        let mut pairs: Vec<(char, char)> = Vec::new();
        let mut i: usize = 0;
        while i < self.lang2.len()
            invariant
                i <= self.lang2@.len(),
                pairs@ == self.lang2@.take(i as int),
            decreases self.lang2@.len() - i,
        {
            pairs.push(self.lang2[i]);
            assert(pairs@ =~= self.lang2@.take(i + 1));
            i += 1;
        }
        assert(pairs@ =~= self.lang2@);
        pairs
    }

    /// The layout with the given pairs on each side, a later pair
    /// replacing an earlier one of the same symbol.
    pub fn from_pairs(first: &Vec<(char, char)>, second: &Vec<(char, char)>) -> (layout: KeyboardLayout)
        ensures
            layout.wf(),
            layout.first() == built_map(first@),
            layout.second() == built_map(second@),
    {
        let mut layout = KeyboardLayout { lang1: Vec::new(), lang2: Vec::new() };
        let mut i: usize = 0;
        assert(first@.take(0) =~= Seq::<(char, char)>::empty());
        assert(layout.first() =~= built_map(first@.take(0)));
        assert(layout.second() =~= Map::<char, char>::empty());
        while i < first.len()
            invariant
                i <= first@.len(),
                layout.wf(),
                layout.first() == built_map(first@.take(i as int)),
                layout.second() =~= Map::<char, char>::empty(),
            decreases first@.len() - i,
        {
            put(&mut layout.lang1, first[i].0, first[i].1);
            proof {
                lemma_take_push(first@, i as int);
            }
            i += 1;
        }
        let mut j: usize = 0;
        assert(second@.take(0) =~= Seq::<(char, char)>::empty());
        assert(layout.second() =~= built_map(second@.take(0)));
        assert(first@.take(first@.len() as int) =~= first@);
        while j < second.len()
            invariant
                j <= second@.len(),
                layout.wf(),
                layout.first() == built_map(first@),
                layout.second() == built_map(second@.take(j as int)),
            decreases second@.len() - j,
        {
            put(&mut layout.lang2, second[j].0, second[j].1);
            proof {
                lemma_take_push(second@, j as int);
            }
            j += 1;
        }
        assert(second@.take(second@.len() as int) =~= second@);
        layout
    }
}

} // verus!
