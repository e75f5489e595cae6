//! A vocabulary trainer's scheduling core.
//!
//! The crate keeps a two-way relation between words and their translations,
//! decides which pairs are due for practice on a given day according to a
//! ladder of repetition rungs, and records the outcome of every attempt.
//! Every executable function carries a contract that Verus proves; the few
//! calls into other crates and into unspecified parts of std stand behind
//! wrappers whose contracts are trusted and say so.
//!
//! - [`day`], [`ladder`], [`stats`], [`status`]: the day counter, the rungs,
//!   the attempt counters and the state machine of one pair.
//! - [`model`], [`words`], [`symmetry`]: the word store as a map, the store
//!   itself, and the laws that its operations keep.
//! - [`schedule`], [`batch`]: what is due, how urgent it is, and which words
//!   a session takes.
//! - [`checking`], [`random`], [`session`]: checking answers, shuffling, and
//!   the walk through the words of a day.
//! - [`counts`], [`aggregate`], [`journal`]: counts by kind, totals over the
//!   store, and the statistics of each day.
//! - [`ingest`], [`subtitles`], [`search`], [`keyboard`], [`settings`],
//!   [`choice`], [`calendar`], [`storage`]: what surrounds the core: reading
//!   words out of texts, finding words, the keyboard layout, the settings,
//!   choosing a state by number, calendar dates and the key–value storage.

pub mod aggregate;
pub mod assoc;
pub mod batch;
pub mod calendar;
pub mod checking;
pub mod choice;
pub mod counts;
pub mod day;
pub mod equality;
pub mod ingest;
pub mod journal;
pub mod keyboard;
pub mod ladder;
pub mod model;
pub mod random;
pub mod schedule;
pub mod search;
pub mod seqs;
pub mod session;
pub mod settings;
pub mod stats;
pub mod status;
pub mod storage;
pub mod subtitles;
pub mod symmetry;
pub mod text;
pub mod words;

pub use crate::choice::ComboBoxChoosable;
pub use crate::counts::WordType;
pub use crate::day::Day;
pub use crate::journal::Statistics;
pub use crate::settings::Settings;
pub use crate::stats::DayStatistics;
pub use crate::storage::LocalStorage;
pub use crate::words::Words;
