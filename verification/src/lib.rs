//! A statistical spelling corrector.
//!
//! A corpus of text is tokenized into lowercase words, a frequency model is
//! trained from the word list, and a misspelled word is corrected by searching
//! the known words within edit distance one or two of it and picking the most
//! frequent candidate.

pub mod checker;
pub mod edits;
pub mod model;
pub mod text;

pub use checker::SimpleSpellChecker;
pub use edits::edits1;
pub use edits::EditSet;
pub use model::train;
pub use model::FrequencyModel;
pub use text::get_words;
