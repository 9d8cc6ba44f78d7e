//! Korean stop word filter.
//!
//! Removes common Korean stop words (particles, copulas, etc.) that add
//! little value to full-text search.

use vstd::prelude::*;
use crate::token::NoriToken;
use crate::words::{WordSet, word_set_from, word_views};

verus! {

/// Default Korean stop words (common particles, endings, copulas).
pub const KOREAN_STOP_WORDS: [&'static str; 40] = [
    "이", "그", "저", "것", "수", "등", "들", "및", "에", "의",
    "가", "를", "으로", "로", "에서", "와", "과", "도", "는", "은",
    "만", "에게", "까지", "부터", "이다", "하다", "되다", "있다",
    "없다", "않다", "같다", "위하다", "대하다", "통하다", "따르다",
    "에서의", "로서", "로써", "라고", "이라고",
];

/// The words of `words`, each by its characters.
pub open spec fn str_views(words: Seq<&str>) -> Set<Seq<char>> {
    words.map_values(|w: &str| w@).to_set()
}

/// The words of `words` as owned strings.
pub fn owned_words(words: &[&str]) -> (res: Vec<String>)
    ensures
        word_views(res@) == str_views(words@),
{
    let mut res: Vec<String> = Vec::new();
    let n = words.len();
    for i in 0..n
        invariant
            n == words@.len(),
            res@.len() == i,
            forall|j: int| 0 <= j < i ==> (#[trigger] res@[j])@ == words@[j]@,
    {
        res.push(words[i].to_owned());
    }
    assert(res@.map_values(|w: String| w@) =~= words@.map_values(|w: &str| w@));
    res
}

/// Removes Korean stop words from the token stream.
///
/// Equivalent to Elasticsearch's `nori_stoptags` combined with basic stop
/// words.
#[derive(Clone)]
pub struct KoreanStopFilter {
    stop_words: WordSet,
}

impl KoreanStopFilter {
    /// The stop words of this filter, each by its characters.
    pub closed spec fn stop_words(&self) -> Set<Seq<char>> {
        self.stop_words.contents()
    }

    /// Create with default Korean stop words.
    pub fn new() -> (res: Self)
        ensures
            res.stop_words() == str_views(KOREAN_STOP_WORDS@),
    {
        KoreanStopFilter { stop_words: word_set_from(owned_words(&KOREAN_STOP_WORDS)) }
    }

    /// Create with custom stop words.
    pub fn with_words(words: Vec<String>) -> (res: Self)
        ensures
            res.stop_words() == word_views(words@),
    {
        KoreanStopFilter { stop_words: word_set_from(words) }
    }

    /// Marks the token deleted exactly when its term is a stop word; the
    /// token is left as it is and no token is added.
    pub fn filter(&self, token: &mut NoriToken) -> (res: (bool, Option<Vec<NoriToken>>))
        ensures
            res.0 == self.stop_words().contains(old(token)@.term),
            res.1 is None,
            final(token)@ == old(token)@,
    {
        let deleted = self.stop_words.contains(token.term.as_str());
        (deleted, None)
    }
}

impl Default for KoreanStopFilter {
    fn default() -> (res: Self)
        ensures
            res.stop_words() == str_views(KOREAN_STOP_WORDS@),
    {
        Self::new()
    }
}

} // verus!
