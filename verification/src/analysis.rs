//! Morphological analysis through `lindera` with the Korean dictionary
//! (ko-dic), and the plain values that the rest of the library reads from it.

use vstd::prelude::*;
use std::sync::Arc;

verus! {

/// `lindera::dictionary::Dictionary`, carried through opaquely.
#[verifier::external_type_specification]
#[verifier::external_body]
pub struct ExLinderaDictionary(lindera::dictionary::Dictionary);

/// `lindera::mode::Mode`, carried through opaquely.
#[verifier::external_type_specification]
#[verifier::external_body]
pub struct ExLinderaMode(lindera::mode::Mode);

/// `lindera::error::LinderaError`, carried through opaquely.
#[verifier::external_type_specification]
#[verifier::external_body]
pub struct ExLinderaError(lindera::error::LinderaError);

/// `lindera::segmenter::Segmenter`, carried through opaquely.
#[verifier::external_type_specification]
#[verifier::external_body]
pub struct ExLinderaSegmenter(lindera::segmenter::Segmenter);

/// `lindera::tokenizer::Tokenizer`, carried through opaquely.
#[verifier::external_type_specification]
#[verifier::external_body]
pub struct ExLinderaTokenizer(lindera::tokenizer::Tokenizer);

/// `lindera::token::Token`, carried through opaquely.
#[verifier::external_type_specification]
#[verifier::external_body]
pub struct ExLinderaToken<'a>(lindera::token::Token<'a>);

/// One morpheme that the analyzer found in a text: its surface form, its
/// byte range in the text, and its dictionary details (for ko-dic: the
/// part-of-speech tag first, the reading at index 3).
pub struct Segment {
    pub surface: String,
    pub byte_start: usize,
    pub byte_end: usize,
    pub details: Option<Vec<String>>,
}

/// What a [`Segment`] holds, as mathematical values.
pub struct SegmentView {
    pub surface: Seq<char>,
    pub byte_start: usize,
    pub byte_end: usize,
    pub details: Option<Seq<Seq<char>>>,
}

/// The characters of each string of `v`.
pub open spec fn strings_view(v: Seq<String>) -> Seq<Seq<char>> {
    v.map_values(|s: String| s@)
}

impl View for Segment {
    type V = SegmentView;

    open spec fn view(&self) -> SegmentView {
        SegmentView {
            surface: self.surface@,
            byte_start: self.byte_start,
            byte_end: self.byte_end,
            details: match self.details {
                Some(d) => Some(strings_view(d@)),
                None => None,
            },
        }
    }
}

/// The views of the segments of `segments`.
pub open spec fn segments_view(segments: Seq<Segment>) -> Seq<SegmentView> {
    segments.map_values(|s: Segment| s@)
}

/// The views of the segments of an analysis, if there is one.
pub open spec fn analysis_view(analysis: Option<Vec<Segment>>) -> Option<Seq<SegmentView>> {
    match analysis {
        Some(segments) => Some(segments_view(segments@)),
        None => None,
    }
}

/// A copy of the strings of `v`.
pub fn copy_strings(v: &Vec<String>) -> (res: Vec<String>)
    ensures
        strings_view(res@) == strings_view(v@),
{
    let mut res: Vec<String> = Vec::new();
    let n = v.len();
    for i in 0..n
        invariant
            n == v@.len(),
            res@.len() == i,
            forall|j: int| 0 <= j < i ==> res@[j]@ == v@[j]@,
    {
        res.push(v[i].clone());
    }
    assert(strings_view(res@) =~= strings_view(v@));
    res
}

impl Segment {
    /// A copy of this segment.
    pub fn copy(&self) -> (res: Segment)
        ensures
            res@ == self@,
    {
        let details = match &self.details {
            Some(d) => Some(copy_strings(d)),
            None => None,
        };
        Segment {
            surface: self.surface.clone(),
            byte_start: self.byte_start,
            byte_end: self.byte_end,
            details,
        }
    }
}

/// What the ko-dic analyzer finds in `text`, in compound-keeping mode
/// (`decompose` false) or decompounding mode (`decompose` true): the
/// morphemes in order with their surfaces, byte ranges and details, or `None`
/// where the analyzer reports an error.
pub uninterp spec fn ko_dic_analysis(decompose: bool, text: Seq<char>) -> Option<Seq<SegmentView>>;

/// Loads the ko-dic dictionary embedded in `lindera`.
///
/// Trusted: calls `lindera::dictionary::load_dictionary("embedded://ko-dic")`.
/// Nothing is stated of the outcome: it is `Ok` only where `lindera` was
/// built with the dictionary embedded, which this code cannot observe.
#[verifier::external_body]
fn load_korean_dictionary() -> (res: Result<lindera::dictionary::Dictionary, lindera::error::LinderaError>) {
    lindera::dictionary::load_dictionary("embedded://ko-dic")
}

/// The segmentation mode that keeps each word as the dictionary has it,
/// with `false` for "does not decompound".
///
/// Trusted: builds `lindera::mode::Mode::Normal`, the variant that splits
/// no compound.
#[verifier::external_body]
fn normal_mode() -> (res: (lindera::mode::Mode, bool))
    ensures
        !res.1,
{
    (lindera::mode::Mode::Normal, false)
}

/// The segmentation mode that splits long compounds into their parts, with
/// `true` for "decompounds".
///
/// Trusted: builds `lindera::mode::Mode::Decompose` with the penalty that
/// `lindera::mode::Penalty::default` gives.
#[verifier::external_body]
fn decompose_mode() -> (res: (lindera::mode::Mode, bool))
    ensures
        res.1,
{
    (lindera::mode::Mode::Decompose(lindera::mode::Penalty::default()), true)
}

/// A segmenter over `dictionary` in the mode `mode.0`, without a user
/// dictionary; `mode.1`, whether that mode decompounds, is carried along.
///
/// Trusted: calls `lindera::segmenter::Segmenter::new(mode, dictionary, None)`,
/// which stores the mode it is given unchanged.
#[verifier::external_body]
fn new_segmenter(
    mode: (lindera::mode::Mode, bool),
    dictionary: lindera::dictionary::Dictionary,
) -> (res: (lindera::segmenter::Segmenter, bool))
    ensures
        res.1 == mode.1,
{
    (lindera::segmenter::Segmenter::new(mode.0, dictionary, None), mode.1)
}

/// A tokenizer over the segmenter `segmenter.0`, with no character or token
/// filter; `segmenter.1`, whether its mode decompounds, is carried along.
///
/// Trusted: calls `lindera::tokenizer::Tokenizer::new`, which keeps the
/// segmenter it is given unchanged.
#[verifier::external_body]
fn new_tokenizer(segmenter: (lindera::segmenter::Segmenter, bool)) -> (res: (lindera::tokenizer::Tokenizer, bool))
    ensures
        res.1 == segmenter.1,
{
    (lindera::tokenizer::Tokenizer::new(segmenter.0), segmenter.1)
}

/// Another handle on the same tokenizer.
///
/// Trusted: calls `Arc::clone`, which shares the tokenizer.
#[verifier::external_body]
fn share_tokenizer(tokenizer: &Arc<lindera::tokenizer::Tokenizer>) -> (res: Arc<lindera::tokenizer::Tokenizer>) {
    tokenizer.clone()
}

/// A ko-dic analyzer together with the segmentation mode it was built in.
///
/// Its fields are private: only [`korean_analyzer`] builds one, and it takes
/// `decompose` from the flag that comes along with the mode the tokenizer was
/// built in; clones share the tokenizer.
pub struct KoreanAnalyzer {
    tokenizer: Arc<lindera::tokenizer::Tokenizer>,
    decompose: bool,
}

impl KoreanAnalyzer {
    /// Whether the analyzer splits compounds into their parts.
    pub closed spec fn decomposes(&self) -> bool {
        self.decompose
    }
}

impl Clone for KoreanAnalyzer {
    fn clone(&self) -> (res: Self)
        ensures
            res.decomposes() == self.decomposes(),
    {
        KoreanAnalyzer { tokenizer: share_tokenizer(&self.tokenizer), decompose: self.decompose }
    }
}

/// The morphemes that `analyzer` finds in `text`.
///
/// Trusted: calls `lindera::tokenizer::Tokenizer::tokenize` and converts each
/// token to a [`Segment`]: its `surface`, `byte_start` and `byte_end` fields,
/// and its details through `lindera::token::Token::details`, which looks
/// them up in the dictionary (so they are always present). The tokenizer has
/// no filter and was built over the embedded ko-dic dictionary in the mode
/// that the analyzer records, so the outcome is a function of that mode and
/// the text; the contract names it.
#[verifier::external_body]
fn run_analysis(analyzer: &KoreanAnalyzer, text: &str) -> (res: Result<Vec<Segment>, lindera::error::LinderaError>)
    ensures
        res is Ok == ko_dic_analysis(analyzer.decomposes(), text@) is Some,
        res matches Ok(segments) ==> ko_dic_analysis(analyzer.decomposes(), text@) == Some(
            segments_view(segments@),
        ),
{
    let tokens = analyzer.tokenizer.tokenize(text)?;
    Ok(tokens.into_iter().map(|mut token| Segment {
        details: Some(token.details().iter().map(|d| d.to_string()).collect()),
        surface: token.surface.to_string(),
        byte_start: token.byte_start,
        byte_end: token.byte_end,
    }).collect())
}

/// Builds the ko-dic analyzer, in decompounding mode when `decompose`
/// holds; `None` when the embedded dictionary cannot be loaded.
pub fn korean_analyzer(decompose: bool) -> (res: Option<KoreanAnalyzer>)
    ensures
        res matches Some(analyzer) ==> analyzer.decomposes() == decompose,
{
    match load_korean_dictionary() {
        Ok(dictionary) => {
            let mode = if decompose {
                decompose_mode()
            } else {
                normal_mode()
            };
            let (tokenizer, decomposes) = new_tokenizer(new_segmenter(mode, dictionary));
            Some(KoreanAnalyzer { tokenizer: Arc::new(tokenizer), decompose: decomposes })
        },
        Err(_) => None,
    }
}

/// The morphemes that `analyzer` finds in `text`, in order; `None` when the
/// analyzer reports an error.
pub fn analyze(analyzer: &KoreanAnalyzer, text: &str) -> (res: Option<Vec<Segment>>)
    ensures
        analysis_view(res) == ko_dic_analysis(analyzer.decomposes(), text@),
{
    match run_analysis(analyzer, text) {
        Ok(segments) => Some(segments),
        Err(_) => None,
    }
}

/// What `analyzer`, where there is one, finds in `text`.
pub open spec fn analysis_by(analyzer: Option<KoreanAnalyzer>, text: Seq<char>) -> Option<Seq<SegmentView>> {
    match analyzer {
        Some(a) => ko_dic_analysis(a.decomposes(), text),
        None => None,
    }
}

/// Runs `analyzer`, where there is one, on `text`.
pub fn analyze_with(analyzer: &Option<KoreanAnalyzer>, text: &str) -> (res: Option<Vec<Segment>>)
    ensures
        analysis_view(res) == analysis_by(*analyzer, text@),
{
    match analyzer {
        Some(a) => analyze(a, text),
        None => None,
    }
}

/// A copy of an optional analyzer, sharing its tokenizer.
pub fn copy_analyzer(analyzer: &Option<KoreanAnalyzer>) -> (res: Option<KoreanAnalyzer>)
    ensures
        forall|text: Seq<char>| analysis_by(res, text) == analysis_by(*analyzer, text),
        res is Some == analyzer is Some,
{
    match analyzer {
        Some(a) => Some(a.clone()),
        None => None,
    }
}

} // verus!
