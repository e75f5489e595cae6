//! Reading the words out of subtitles: the texts of the items of a subtitle
//! file, line after line, are read as one text.

use vstd::prelude::*;
use vstd::string::StringExecFns;
use crate::ingest::{get_words, is_word_list, letters_of, GetWordsResult};
use crate::text::texts;

verus! {

/// Why `srtparse` could not read its input.
#[verifier::external_type_specification]
#[verifier::external_body]
pub struct ExReaderError(srtparse::ReaderError);

/// The texts of the items that `srtparse` reads out of an input, in order;
/// none if it cannot read the input.
pub uninterp spec fn subtitle_texts(input: Seq<char>) -> Option<Seq<Seq<char>>>;

/// Reads subtitles and hands out the text of each item.
///
/// Trusted: this calls `srtparse::from_str`, which parses its input line
/// by line and reads nothing else, and moves the field `text` out of each
/// item it returns; the contract only gives that result a name.
#[verifier::external_body]
fn read_subtitles(input: &str) -> (read: Result<Vec<String>, srtparse::ReaderError>)
    ensures
        match read {
            Ok(list) => subtitle_texts(input@) == Some(texts(list@)),
            Err(_) => subtitle_texts(input@) is None,
        },
{
    let items = srtparse::from_str(input)?;
    Ok(items.into_iter().map(|item| item.text).collect())
}

/// What `srtparse` has to say about an error.
///
/// Trusted: this formats the error with its `Debug` impl; nothing is
/// claimed of the text.
#[verifier::external_body]
fn describe(error: &srtparse::ReaderError) -> String {
    format!("{:#?}", error)
}

/// The subtitles could not be read.
#[derive(Debug)]
pub struct SubtitlesError {
    /// What the reader reported.
    pub message: String,
}

/// The texts with a line break between each two.
pub open spec fn joined(list: Seq<Seq<char>>) -> Seq<char>
    decreases list.len(),
{
    if list.len() == 0 {
        Seq::empty()
    } else if list.len() == 1 {
        list[0]
    } else {
        joined(list.drop_last()) + seq!['\n'] + list.last()
    }
}

/// The words of the texts of subtitle items, read as one text with a line
/// break between each two items.
pub fn words_of_items(items: &Vec<String>) -> (result: GetWordsResult)
    ensures
        result.text@ == joined(texts(items@)),
        is_word_list(result.words_with_context.0@, letters_of(result.text@)),
{
    let mut text = String::new();
    let mut i: usize = 0;
    assert(texts(items@).take(0) =~= Seq::<Seq<char>>::empty());
    while i < items.len()
        invariant
            i <= items@.len(),
            text@ == joined(texts(items@).take(i as int)),
        decreases items@.len() - i,
    {
        let ghost before = text@;
        if i > 0 {
            text.append("\n");
            proof {
                reveal_strlit("\n");
                assert("\n"@ =~= seq!['\n']);
            }
        }
        text.append(items[i].as_str());
        proof {
            let more = texts(items@).take(i + 1);
            assert(more.drop_last() =~= texts(items@).take(i as int));
            assert(more.last() == items@[i as int]@);
            if i == 0 {
                assert(text@ =~= more[0]);
            }
        }
        i += 1;
    }
    assert(texts(items@).take(items@.len() as int) =~= texts(items@));
    get_words(text.as_str())
}

/// The words of subtitles: the subtitles are read, and the texts of their
/// items are searched for words. Subtitles that cannot be read give the
/// reader's report.
pub fn get_words_subtitles(subtitles: &str) -> (result: Result<GetWordsResult, SubtitlesError>)
    ensures
        match result {
            Ok(found) => subtitle_texts(subtitles@) is Some && found.text@ == joined(
                subtitle_texts(subtitles@)->0,
            ) && is_word_list(found.words_with_context.0@, letters_of(found.text@)),
            Err(_) => subtitle_texts(subtitles@) is None,
        },
{
    match read_subtitles(subtitles) {
        Ok(items) => Ok(words_of_items(&items)),
        Err(error) => Err(SubtitlesError { message: describe(&error) }),
    }
}

} // verus!
