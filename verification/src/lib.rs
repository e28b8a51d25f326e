//! Search a word list for acronyms of an ordered sequence of phrases.

pub mod gloss;
pub mod listing;
pub mod phrase;
pub mod rank;
pub mod report;
pub mod result;
pub mod search;
mod seqs;
pub mod spans;
pub mod text;
pub mod tiling;
pub mod words;
