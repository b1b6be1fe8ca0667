//! From Chinese text to flash cards: a dictionary that resolves words, also
//! those it does not hold, to its entries; tones written onto syllables and
//! shown in colour; and the deck that the cards go into.

pub mod anki;
pub mod cards;
pub mod chunking;
pub mod dict;
pub mod line;
pub mod pinyin;
pub mod text;
pub mod tts;
