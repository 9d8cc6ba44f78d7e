//! Nori reading form filter.
//!
//! Converts Hanja (Chinese characters used in Korean) to their Hangul
//! reading. In ko-dic, the reading is stored in the detail fields.

use vstd::prelude::*;
use crate::analysis::{
    Segment, SegmentView, analysis_view, strings_view, analyze_with, korean_analyzer, KoreanAnalyzer,
    analysis_by, ko_dic_analysis, copy_analyzer,
};
use crate::token::NoriToken;
use crate::text::{chars_of, copy_string, same_text};

verus! {

/// `c` is the code of a Hanja character: a CJK Unified Ideograph (of the
/// base block or of Extension A) or a CJK Compatibility Ideograph.
pub open spec fn is_hanja_code(c: u32) -> bool {
    ||| 0x4E00 <= c <= 0x9FFF
    ||| 0x3400 <= c <= 0x4DBF
    ||| 0xF900 <= c <= 0xFAFF
}

/// `c` is the code of a Hangul syllable or Hangul Jamo.
pub open spec fn is_hangul_code(c: u32) -> bool {
    ||| 0xAC00 <= c <= 0xD7AF
    ||| 0x1100 <= c <= 0x11FF
}

/// Some character of `s` is Hanja.
pub open spec fn has_hanja(s: Seq<char>) -> bool {
    exists|i: int| 0 <= i < s.len() && is_hanja_code(#[trigger] s[i] as u32)
}

/// Every character of `s` is Hangul.
pub open spec fn all_hangul(s: Seq<char>) -> bool {
    forall|i: int| 0 <= i < s.len() ==> is_hangul_code(#[trigger] s[i] as u32)
}

/// Detail `index` is a usable reading of `surface`: it exists, is not the
/// placeholder `*`, differs from the surface and is all Hangul.
pub open spec fn reading_candidate(details: Seq<Seq<char>>, index: int, surface: Seq<char>) -> bool {
    &&& details.len() > index
    &&& details[index] != seq!['*']
    &&& details[index] != surface
    &&& all_hangul(details[index])
}

/// The first usable reading among details 3, 7 and 1, in that order.
pub open spec fn reading_in_details(details: Seq<Seq<char>>, surface: Seq<char>) -> Option<Seq<char>> {
    if reading_candidate(details, 3, surface) {
        Some(details[3])
    } else if reading_candidate(details, 7, surface) {
        Some(details[7])
    } else if reading_candidate(details, 1, surface) {
        Some(details[1])
    } else {
        None
    }
}

/// The Hangul reading of `surface` given the analysis of `surface`: none
/// unless the surface holds Hanja and the analysis is a single morpheme with
/// details that hold a usable reading.
pub open spec fn reading_for(surface: Seq<char>, analysis: Option<Seq<SegmentView>>) -> Option<Seq<char>> {
    if !has_hanja(surface) {
        None
    } else {
        match analysis {
            None => None,
            Some(segments) => if segments.len() != 1 {
                None
            } else {
                match segments[0].details {
                    Some(details) => reading_in_details(details, surface),
                    None => None,
                }
            },
        }
    }
}

/// The term that the filter leaves: the reading of `term` where it has one,
/// else `term` itself.
pub open spec fn read_term(term: Seq<char>, analysis: Option<Seq<SegmentView>>) -> Seq<char> {
    match reading_for(term, analysis) {
        Some(reading) => reading,
        None => term,
    }
}

/// The characters of an optional string.
pub open spec fn optional_text(s: Option<String>) -> Option<Seq<char>> {
    match s {
        Some(t) => Some(t@),
        None => None,
    }
}

/// Converts Hanja tokens to their Hangul reading form.
///
/// Equivalent to Elasticsearch's `nori_readingform` filter.
pub struct NoriReadingformFilter {
    inner: Option<KoreanAnalyzer>,
}

/// Whether detail `index` is a usable reading of `surface`.
fn candidate(details: &Vec<String>, index: usize, surface: &str) -> (res: bool)
    ensures
        res == reading_candidate(strings_view(details@), index as int, surface@),
{
    if details.len() <= index {
        return false;
    }
    let detail = details[index].as_str();
    proof {
        reveal_strlit("*");
        assert("*"@ =~= seq!['*']);
    }
    assert(strings_view(details@)[index as int] == detail@);
    !same_text(detail, "*") && !same_text(detail, surface) && NoriReadingformFilter::all_hangul(detail)
}

impl NoriReadingformFilter {
    /// What this filter's (compound-keeping) analyzer finds in `text`.
    pub closed spec fn analysis_of(&self, text: Seq<char>) -> Option<Seq<SegmentView>> {
        analysis_by(self.inner, text)
    }

    /// The term that this filter leaves in place of `term`.
    pub open spec fn reading_term(&self, term: Seq<char>) -> Seq<char> {
        read_term(term, self.analysis_of(term))
    }

    /// The filter holds its analyzer: the embedded dictionary was loaded
    /// when it was made.
    pub closed spec fn analyzes(&self) -> bool {
        self.inner is Some
    }

    /// Create a new reading form filter.
    ///
    /// This does not panic where the embedded ko-dic dictionary cannot be
    /// loaded: it returns a filter that leaves every term as it is, and
    /// [`NoriReadingformFilter::dictionary_loaded`] tells the two outcomes
    /// apart, so that a caller that cannot go on without the dictionary
    /// checks it and stops there.
    pub fn new() -> (res: Self)
        ensures
            res.analyzes() ==> forall|text: Seq<char>| #[trigger] res.analysis_of(text) == ko_dic_analysis(false, text),
            !res.analyzes() ==> forall|text: Seq<char>| #[trigger] res.analysis_of(text) is None,
            !res.analyzes() ==> forall|term: Seq<char>| #[trigger] res.reading_term(term) == term,
    {
        NoriReadingformFilter { inner: korean_analyzer(false) }
    }

    /// Whether the embedded ko-dic dictionary was loaded when this filter
    /// was made; where it was not, the filter converts no term.
    pub fn dictionary_loaded(&self) -> (res: bool)
        ensures
            res == self.analyzes(),
    {
        self.inner.is_some()
    }

    /// Check if a character is Hanja (CJK Unified Ideograph).
    pub fn is_hanja(ch: char) -> (res: bool)
        ensures
            res == is_hanja_code(ch as u32),
    {
        let c = ch as u32;
        (0x4E00 <= c && c <= 0x9FFF) || (0x3400 <= c && c <= 0x4DBF) || (0xF900 <= c && c <= 0xFAFF)
    }

    /// Check if the token contains any Hanja characters.
    pub fn contains_hanja(text: &str) -> (res: bool)
        ensures
            res == has_hanja(text@),
    {
        let chars = chars_of(text);
        let n = chars.len();
        for i in 0..n
            invariant
                n == chars@.len(),
                chars@ == text@,
                forall|j: int| 0 <= j < i ==> !is_hanja_code(#[trigger] text@[j] as u32),
        {
            if Self::is_hanja(chars[i]) {
                assert(is_hanja_code(text@[i as int] as u32));
                return true;
            }
        }
        false
    }

    /// Whether every character of `text` is Hangul.
    pub fn all_hangul(text: &str) -> (res: bool)
        ensures
            res == all_hangul(text@),
    {
        let chars = chars_of(text);
        let n = chars.len();
        for i in 0..n
            invariant
                n == chars@.len(),
                chars@ == text@,
                forall|j: int| 0 <= j < i ==> is_hangul_code(#[trigger] text@[j] as u32),
        {
            let c = chars[i] as u32;
            if !((0xAC00 <= c && c <= 0xD7AF) || (0x1100 <= c && c <= 0x11FF)) {
                assert(!is_hangul_code(text@[i as int] as u32));
                return false;
            }
        }
        true
    }

    /// The Hangul reading of `surface`, given what the dictionary analysis
    /// of `surface` returned.
    pub fn reading_from_analysis(surface: &str, analysis: &Option<Vec<Segment>>) -> (res: Option<String>)
        ensures
            optional_text(res) == reading_for(surface@, analysis_view(*analysis)),
    {
        if !Self::contains_hanja(surface) {
            return None;
        }
        let segments = match analysis {
            Some(segments) => segments,
            None => return None,
        };
        if segments.len() != 1 {
            return None;
        }
        let segment = &segments[0];
        assert(analysis_view(*analysis)->0[0] == segment@);
        let details = match &segment.details {
            Some(details) => details,
            None => return None,
        };
        assert(strings_view(details@).len() == details@.len());
        if candidate(details, 3, surface) {
            assert(strings_view(details@)[3] == details@[3]@);
            return Some(copy_string(details[3].as_str()));
        }
        if candidate(details, 7, surface) {
            assert(strings_view(details@)[7] == details@[7]@);
            return Some(copy_string(details[7].as_str()));
        }
        if candidate(details, 1, surface) {
            assert(strings_view(details@)[1] == details@[1]@);
            return Some(copy_string(details[1].as_str()));
        }
        None
    }

    /// Get the Hangul reading of `surface` from ko-dic details.
    fn get_reading(&self, surface: &str) -> (res: Option<String>)
        ensures
            optional_text(res) == reading_for(surface@, self.analysis_of(surface@)),
    {
        if !Self::contains_hanja(surface) {
            return None;
        }
        let analysis = analyze_with(&self.inner, surface);
        Self::reading_from_analysis(surface, &analysis)
    }

    /// Replaces the term by its Hangul reading where it has one; never
    /// deletes the token, never adds one, and keeps offsets and position.
    pub fn filter(&self, token: &mut NoriToken) -> (res: (bool, Option<Vec<NoriToken>>))
        ensures
            !res.0,
            res.1 is None,
            final(token).start_offset == old(token).start_offset,
            final(token).end_offset == old(token).end_offset,
            final(token).position == old(token).position,
            !has_hanja(old(token)@.term) ==> final(token)@ == old(token)@,
            final(token)@.term != old(token)@.term ==> has_hanja(old(token)@.term) && all_hangul(
                final(token)@.term,
            ),
            final(token)@.term == self.reading_term(old(token)@.term),
    {
        let ghost old_term = token.term@;
        let ghost analysis = self.analysis_of(old_term);
        let reading = self.get_reading(token.term.as_str());
        match reading {
            Some(r) => {
                token.term = r;
            },
            None => {},
        }
        assert(token.term@ == read_term(old_term, analysis));
        assert(token@.term == read_term(old(token)@.term, analysis));
        (false, None)
    }
}

impl Default for NoriReadingformFilter {
    fn default() -> (res: Self)
        ensures
            res.analyzes() ==> forall|text: Seq<char>| #[trigger] res.analysis_of(text) == ko_dic_analysis(false, text),
            !res.analyzes() ==> forall|text: Seq<char>| #[trigger] res.analysis_of(text) is None,
            !res.analyzes() ==> forall|term: Seq<char>| #[trigger] res.reading_term(term) == term,
    {
        Self::new()
    }
}

impl Clone for NoriReadingformFilter {
    fn clone(&self) -> (res: Self)
        ensures
            res.analyzes() == self.analyzes(),
            forall|text: Seq<char>| #[trigger] res.analysis_of(text) == self.analysis_of(text),
    {
        NoriReadingformFilter { inner: copy_analyzer(&self.inner) }
    }
}

/// Every code point of the CJK Unified Ideographs (U+4E00 to U+9FFF), of
/// Extension A (U+3400 to U+4DBF) and of the CJK Compatibility Ideographs
/// (U+F900 to U+FAFF) is Hanja, and no Hangul syllable or Jamo is.
pub proof fn lemma_hanja_blocks(c: u32)
    ensures
        0x4E00 <= c <= 0x9FFF ==> is_hanja_code(c),
        0x3400 <= c <= 0x4DBF ==> is_hanja_code(c),
        0xF900 <= c <= 0xFAFF ==> is_hanja_code(c),
        0xAC00 <= c <= 0xD7AF ==> is_hangul_code(c) && !is_hanja_code(c),
        0x1100 <= c <= 0x11FF ==> is_hangul_code(c) && !is_hanja_code(c),
{
}

/// A term that holds an ideograph, and whose analysis is one morpheme whose
/// detail 3 is a Hangul reading other than the term, is replaced by that
/// reading.
pub proof fn lemma_reading_replaces_ideographs(
    filter: NoriReadingformFilter,
    term: Seq<char>,
    i: int,
    segment: SegmentView,
    reading: Seq<char>,
)
    requires
        0 <= i < term.len(),
        0x4E00 <= term[i] as u32 <= 0x9FFF || 0x3400 <= term[i] as u32 <= 0x4DBF || 0xF900 <= term[i] as u32
            <= 0xFAFF,
        filter.analysis_of(term) == Some(seq![segment]),
        segment.details matches Some(d) && d.len() > 3 && d[3] == reading,
        forall|j: int| 0 <= j < reading.len() ==> 0xAC00 <= #[trigger] reading[j] as u32 <= 0xD7AF,
        reading != term,
    ensures
        filter.reading_term(term) == reading,
{
    lemma_hanja_blocks(term[i] as u32);
    assert(has_hanja(term));
    let d = segment.details->0;
    if reading == seq!['*'] {
        assert(reading[0] == '*');
    }
    assert(all_hangul(reading));
    assert(reading_candidate(d, 3, term));
    assert(seq![segment][0] == segment);
}

/// A term that is all Hangul holds no Hanja.
proof fn lemma_hangul_has_no_hanja(s: Seq<char>)
    requires
        all_hangul(s),
    ensures
        !has_hanja(s),
{
    assert forall|i: int| 0 <= i < s.len() implies !is_hanja_code(#[trigger] s[i] as u32) by {
        assert(is_hangul_code(s[i] as u32));
    }
}

/// Filtering a term a second time leaves it as the first time left it.
pub proof fn lemma_reading_idempotent(filter: NoriReadingformFilter, term: Seq<char>)
    ensures
        filter.reading_term(filter.reading_term(term)) == filter.reading_term(term),
{
    let once = filter.reading_term(term);
    match reading_for(term, filter.analysis_of(term)) {
        Some(reading) => {
            lemma_hangul_has_no_hanja(reading);
            assert(once == reading);
        },
        None => {},
    }
}

} // verus!
