//! Korean morphological analysis: a Nori-compatible tokenizer over the ko-dic
//! dictionary with compound-word decomposition, a part-of-speech filter, a
//! Hanja-to-Hangul reading form filter and a Korean stop word filter.
//!
//! - [`NoriTokenizer`]: Korean morphological tokenizer (no-decompound /
//!   discard / mixed decompound modes)
//! - [`NoriPartOfSpeechFilter`]: removes tokens by part-of-speech tags
//! - [`NoriReadingformFilter`]: converts Hanja to its Hangul reading
//! - [`KoreanStopFilter`]: Korean stop word removal

pub mod text;
pub mod words;
pub mod analysis;
pub mod token;
pub mod tokenizer;
pub mod stop;
pub mod readingform;
pub mod part_of_speech;

pub use analysis::Segment;
pub use token::NoriToken;
pub use tokenizer::{NoriDecompoundMode, NoriTokenizer};
pub use part_of_speech::{NoriPartOfSpeechFilter, DEFAULT_KOREAN_STOP_TAGS};
pub use readingform::NoriReadingformFilter;
pub use stop::{KoreanStopFilter, KOREAN_STOP_WORDS};
