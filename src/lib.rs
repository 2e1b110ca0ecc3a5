//! A statistical spelling corrector: word frequencies counted from a corpus,
//! candidate corrections within two edits, and the most frequent candidate.

pub mod corrector;
pub mod edits;
pub mod evaluate;
pub mod model;
pub mod parse;
mod text;

pub use edits::{edits1, edits2};
pub use evaluate::Report;
pub use model::{count_words, process_words, FrequencyModel, ModelError};
pub use parse::{parse_test_set, ParseError};
