//! Nori part-of-speech stop filter for Korean.
//!
//! Removes tokens whose part-of-speech matches configured stop tags.
//! ko-dic POS tags follow the Sejong tagset.

use vstd::prelude::*;
use crate::analysis::{
    Segment, SegmentView, analysis_view, strings_view, analyze_with, korean_analyzer, KoreanAnalyzer,
    analysis_by, ko_dic_analysis, copy_analyzer,
};
use crate::token::NoriToken;
use crate::text::{chars_of, string_from_chars};
use crate::words::{WordSet, word_set_from, word_views};
use crate::stop::{owned_words, str_views};

verus! {

/// Default Korean stop POS tags (particles, suffixes, punctuation).
pub const DEFAULT_KOREAN_STOP_TAGS: [&'static str; 18] = [
    "E",   // Verbal endings
    "IC",  // Interjections
    "J",   // Postpositions (particles)
    "MAG", // General adverbs
    "MAJ", // Connective adverbs
    "MM",  // Determiners
    "SP",  // Spacing
    "SSC", // Closing brackets
    "SSO", // Opening brackets
    "SC",  // Separators (comma, etc.)
    "SE",  // Ellipsis
    "XPN", // Prefix (nominal)
    "XSA", // Suffix (adjective-deriving)
    "XSN", // Suffix (noun-deriving)
    "XSV", // Suffix (verb-deriving)
    "UNA", // Unknown
    "NA",  // Unknown
    "VSV", // Unknown
];

/// The parts of a compound tag such as `NNG+VCP+ETM`, split at each `+`
/// (a tag without `+` is its own single part).
pub open spec fn split_tags(tag: Seq<char>) -> Seq<Seq<char>>
    decreases tag.len(),
{
    if tag.len() == 0 {
        seq![Seq::<char>::empty()]
    } else {
        let rest = split_tags(tag.drop_last());
        if tag.last() == '+' {
            rest.push(Seq::<char>::empty())
        } else {
            rest.update(rest.len() - 1, rest.last().push(tag.last()))
        }
    }
}

/// The part `part` of a tag falls under a stop tag: the stop tag is the part
/// itself, or names the family the part belongs to by being a non-empty
/// beginning of it (`J` for the particles `JKS`, `JKO`, `JX`, ..., `E` for
/// the endings `EP`, `EF`, `EC`, ...).
pub open spec fn part_matches(stop_tags: Set<Seq<char>>, part: Seq<char>) -> bool {
    ||| stop_tags.contains(part)
    ||| exists|k: int| 1 <= k <= part.len() && stop_tags.contains(#[trigger] part.take(k))
}

/// Some part of `tag` falls under a stop tag, or `tag` as a whole is one.
pub open spec fn tag_matches(stop_tags: Set<Seq<char>>, tag: Seq<char>) -> bool {
    ||| exists|i: int| 0 <= i < split_tags(tag).len() && part_matches(stop_tags, #[trigger] split_tags(tag)[i])
    ||| stop_tags.contains(tag)
}

/// Whether a term whose dictionary analysis is `analysis` is removed: the
/// analysis must be a single morpheme whose first detail (its
/// part-of-speech tag) matches a stop tag.
pub open spec fn removal_for(stop_tags: Set<Seq<char>>, analysis: Option<Seq<SegmentView>>) -> bool {
    match analysis {
        None => false,
        Some(segments) => segments.len() == 1 && match segments[0].details {
            Some(details) => details.len() > 0 && tag_matches(stop_tags, details[0]),
            None => false,
        },
    }
}

/// Removes Korean tokens matching specified part-of-speech tags.
///
/// Equivalent to Elasticsearch's `nori_part_of_speech` filter.
pub struct NoriPartOfSpeechFilter {
    inner: Option<KoreanAnalyzer>,
    stop_tags: WordSet,
}

impl NoriPartOfSpeechFilter {
    /// The stop tags of this filter, each by its characters.
    pub closed spec fn stop_tags(&self) -> Set<Seq<char>> {
        self.stop_tags.contents()
    }

    /// What this filter's (compound-keeping) analyzer finds in `text`.
    pub closed spec fn analysis_of(&self, text: Seq<char>) -> Option<Seq<SegmentView>> {
        analysis_by(self.inner, text)
    }

    /// Whether this filter removes a token with term `term`.
    pub open spec fn removes(&self, term: Seq<char>) -> bool {
        removal_for(self.stop_tags(), self.analysis_of(term))
    }

    /// The filter holds its analyzer: the embedded dictionary was loaded
    /// when it was made.
    pub closed spec fn analyzes(&self) -> bool {
        self.inner is Some
    }

    /// Create with a set of POS stop tags.
    ///
    /// This does not panic where the embedded ko-dic dictionary cannot be
    /// loaded: it returns a filter that removes no token, and
    /// [`NoriPartOfSpeechFilter::dictionary_loaded`] tells the two outcomes
    /// apart, so that a caller that cannot go on without the dictionary
    /// checks it and stops there.
    pub fn new(stop_tags: Vec<String>) -> (res: Self)
        ensures
            res.stop_tags() == word_views(stop_tags@),
            res.analyzes() ==> forall|text: Seq<char>| #[trigger] res.analysis_of(text) == ko_dic_analysis(false, text),
            !res.analyzes() ==> forall|text: Seq<char>| #[trigger] res.analysis_of(text) is None,
            !res.analyzes() ==> forall|term: Seq<char>| !#[trigger] res.removes(term),
    {
        NoriPartOfSpeechFilter { inner: korean_analyzer(false), stop_tags: word_set_from(stop_tags) }
    }

    /// Create with default Korean stop tags.
    pub fn with_defaults() -> (res: Self)
        ensures
            res.stop_tags() == str_views(DEFAULT_KOREAN_STOP_TAGS@),
            res.analyzes() ==> forall|text: Seq<char>| #[trigger] res.analysis_of(text) == ko_dic_analysis(false, text),
            !res.analyzes() ==> forall|text: Seq<char>| #[trigger] res.analysis_of(text) is None,
            !res.analyzes() ==> forall|term: Seq<char>| !#[trigger] res.removes(term),
    {
        Self::new(owned_words(&DEFAULT_KOREAN_STOP_TAGS))
    }

    /// Whether the embedded ko-dic dictionary was loaded when this filter
    /// was made; where it was not, the filter removes no token.
    pub fn dictionary_loaded(&self) -> (res: bool)
        ensures
            res == self.analyzes(),
    {
        self.inner.is_some()
    }

    /// Whether the part `part` of a tag, given by its characters, falls under
    /// a stop tag.
    fn matches_part(&self, part: &Vec<char>) -> (res: bool)
        ensures
            res == part_matches(self.stop_tags(), part@),
    {
        let whole = string_from_chars(part);
        if self.stop_tags.contains(whole.as_str()) {
            return true;
        }
        let n = part.len();
        let mut prefix: Vec<char> = Vec::new();
        let mut k: usize = 0;
        while k < n
            invariant
                k <= n,
                n == part@.len(),
                prefix@ == part@.take(k as int),
                forall|j: int| 1 <= j <= k ==> !self.stop_tags().contains(#[trigger] part@.take(j)),
            decreases n - k,
        {
            prefix.push(part[k]);
            k = k + 1;
            assert(prefix@ =~= part@.take(k as int));
            let candidate = string_from_chars(&prefix);
            if self.stop_tags.contains(candidate.as_str()) {
                return true;
            }
        }
        false
    }

    /// Whether some part of `tag` falls under a stop tag, or `tag` as a whole
    /// is one.
    pub fn matches_tag(&self, tag: &str) -> (res: bool)
        ensures
            res == tag_matches(self.stop_tags(), tag@),
    {
        let chars = chars_of(tag);
        let n = chars.len();
        let mut current: Vec<char> = Vec::new();
        let mut found = false;
        proof {
            assert(chars@.take(0) =~= Seq::<char>::empty());
        }
        let mut i: usize = 0;
        while i < n
            invariant
                i <= n,
                n == chars@.len(),
                chars@ == tag@,
                split_tags(chars@.take(i as int)).len() >= 1,
                split_tags(chars@.take(i as int)).last() == current@,
                found == exists|k: int|
                    0 <= k < split_tags(chars@.take(i as int)).len() - 1
                        && part_matches(self.stop_tags(), #[trigger] split_tags(chars@.take(i as int))[k]),
            decreases n - i,
        {
            let ghost before = split_tags(chars@.take(i as int));
            proof {
                assert(chars@.take(i + 1).drop_last() == chars@.take(i as int));
                assert(chars@.take(i + 1).last() == chars@[i as int]);
            }
            let c = chars[i];
            if c == '+' {
                let hit = self.matches_part(&current);
                proof {
                    let after = split_tags(chars@.take(i + 1));
                    assert(after == before.push(Seq::<char>::empty()));
                    if hit {
                        assert(after[before.len() - 1] == current@);
                    }
                    if found {
                        let k = choose|k: int|
                            0 <= k < before.len() - 1 && part_matches(self.stop_tags(), #[trigger] before[k]);
                        assert(after[k] == before[k]);
                    }
                    assert forall|k: int|
                        0 <= k < after.len() - 1 && part_matches(self.stop_tags(), #[trigger] after[k])
                        implies found || hit by {
                        if k < before.len() - 1 {
                            assert(after[k] == before[k]);
                            assert(part_matches(self.stop_tags(), split_tags(chars@.take(i as int))[k]));
                        } else {
                            assert(after[k] == current@);
                        }
                    }
                }
                found = found || hit;
                current = Vec::new();
            } else {
                current.push(c);
                proof {
                    let after = split_tags(chars@.take(i + 1));
                    assert(after == before.update(before.len() - 1, before.last().push(c)));
                    if found {
                        let k = choose|k: int|
                            0 <= k < before.len() - 1 && part_matches(self.stop_tags(), #[trigger] before[k]);
                        assert(after[k] == before[k]);
                    }
                    assert forall|k: int|
                        0 <= k < after.len() - 1 && part_matches(self.stop_tags(), #[trigger] after[k])
                        implies found by {
                        assert(after[k] == before[k]);
                        assert(part_matches(self.stop_tags(), split_tags(chars@.take(i as int))[k]));
                    }
                }
            }
            i = i + 1;
        }
        proof {
            assert(chars@.take(n as int) == tag@);
        }
        let last_hit = self.matches_part(&current);
        let whole_hit = self.stop_tags.contains(tag);
        proof {
            let parts = split_tags(tag@);
            if last_hit {
                assert(parts[parts.len() - 1] == current@);
            }
            if found {
                let k = choose|k: int|
                    0 <= k < parts.len() - 1 && part_matches(self.stop_tags(), #[trigger] parts[k]);
            }
            assert forall|k: int|
                0 <= k < parts.len() && part_matches(self.stop_tags(), #[trigger] parts[k])
                implies found || last_hit by {
                if k < parts.len() - 1 {
                    assert(part_matches(self.stop_tags(), split_tags(chars@.take(n as int))[k]));
                } else {
                    assert(parts[k] == current@);
                }
            }
        }
        found || last_hit || whole_hit
    }

    /// Whether a term is removed, given what the dictionary analysis of the
    /// term returned.
    pub fn removal_from_analysis(&self, analysis: &Option<Vec<Segment>>) -> (res: bool)
        ensures
            res == removal_for(self.stop_tags(), analysis_view(*analysis)),
    {
        let segments = match analysis {
            Some(segments) => segments,
            None => return false,
        };
        if segments.len() != 1 {
            return false;
        }
        let segment = &segments[0];
        assert(analysis_view(*analysis)->0[0] == segment@);
        let details = match &segment.details {
            Some(details) => details,
            None => return false,
        };
        if details.len() == 0 {
            return false;
        }
        assert(strings_view(details@)[0] == details@[0]@);
        self.matches_tag(details[0].as_str())
    }

    /// Whether the token with term `surface` is removed.
    fn should_remove(&self, surface: &str) -> (res: bool)
        ensures
            res == self.removes(surface@),
    {
        let analysis = analyze_with(&self.inner, surface);
        self.removal_from_analysis(&analysis)
    }

    /// Marks the token deleted where its part-of-speech is a stop tag; the
    /// token is left as it is and no token is added.
    pub fn filter(&self, token: &mut NoriToken) -> (res: (bool, Option<Vec<NoriToken>>))
        ensures
            res.0 == self.removes(old(token)@.term),
            res.1 is None,
            final(token)@ == old(token)@,
    {
        let deleted = self.should_remove(token.term.as_str());
        (deleted, None)
    }
}

impl Clone for NoriPartOfSpeechFilter {
    fn clone(&self) -> (res: Self)
        ensures
            res.stop_tags() == self.stop_tags(),
            res.analyzes() == self.analyzes(),
            forall|text: Seq<char>| #[trigger] res.analysis_of(text) == self.analysis_of(text),
    {
        NoriPartOfSpeechFilter { inner: copy_analyzer(&self.inner), stop_tags: self.stop_tags.clone() }
    }
}

/// `s` holds no `+`.
pub open spec fn plain_tag(s: Seq<char>) -> bool {
    forall|i: int| 0 <= i < s.len() ==> s[i] != '+'
}

/// Splitting at `+` gives at least one part.
proof fn lemma_split_tags_nonempty(tag: Seq<char>)
    ensures
        split_tags(tag).len() >= 1,
    decreases tag.len(),
{
    if tag.len() > 0 {
        lemma_split_tags_nonempty(tag.drop_last());
    }
}

/// A tag without `+` is its own single part.
pub proof fn lemma_split_plain_tag(s: Seq<char>)
    requires
        plain_tag(s),
    ensures
        split_tags(s) == seq![s],
    decreases s.len(),
{
    if s.len() > 0 {
        let front = s.drop_last();
        lemma_split_plain_tag(front);
        assert(split_tags(front) == seq![front]);
        assert(s.last() != '+');
        assert(front.push(s.last()) =~= s);
        assert(seq![front].update(0, front.push(s.last())) =~= seq![s]);
    } else {
        assert(s =~= Seq::<char>::empty());
    }
}

/// The parts of `a + "+" + b` are those of `a` followed by those of `b`.
pub proof fn lemma_split_tags_join(a: Seq<char>, b: Seq<char>)
    ensures
        split_tags(a + seq!['+'] + b) == split_tags(a) + split_tags(b),
    decreases b.len(),
{
    let tag = a + seq!['+'] + b;
    if b.len() == 0 {
        assert(tag.drop_last() =~= a);
        assert(split_tags(b) == seq![Seq::<char>::empty()]);
        assert(split_tags(a).push(Seq::<char>::empty()) =~= split_tags(a) + split_tags(b));
    } else {
        let front = b.drop_last();
        let c = b.last();
        lemma_split_tags_join(a, front);
        lemma_split_tags_nonempty(front);
        lemma_split_tags_nonempty(a);
        assert(tag.drop_last() =~= a + seq!['+'] + front);
        assert(tag.last() == c);
        let r = split_tags(a + seq!['+'] + front);
        let f = split_tags(front);
        assert(r == split_tags(a) + f);
        if c == '+' {
            assert(split_tags(b) == f.push(Seq::<char>::empty()));
            assert(r.push(Seq::<char>::empty()) =~= split_tags(a) + f.push(Seq::<char>::empty()));
        } else {
            assert(split_tags(b) == f.update(f.len() - 1, f.last().push(c)));
            assert(r.last() == f.last());
            assert(r.update(r.len() - 1, r.last().push(c)) =~= split_tags(a) + f.update(
                f.len() - 1,
                f.last().push(c),
            ));
        }
    }
}

/// A tag matches wherever one of its `+`-separated parts falls under a stop
/// tag: a part `part` (without `+`) that is a stop tag, or that begins with
/// one, makes the tag match whether it stands alone, first, last or between
/// other parts.
pub proof fn lemma_stop_part_anywhere(
    stop_tags: Set<Seq<char>>,
    before: Seq<char>,
    part: Seq<char>,
    after: Seq<char>,
    k: int,
)
    requires
        plain_tag(part),
        1 <= k <= part.len(),
        stop_tags.contains(part.take(k)),
    ensures
        tag_matches(stop_tags, part),
        tag_matches(stop_tags, part + seq!['+'] + after),
        tag_matches(stop_tags, before + seq!['+'] + part),
        tag_matches(stop_tags, before + seq!['+'] + part + seq!['+'] + after),
{
    lemma_split_plain_tag(part);
    assert(part_matches(stop_tags, part));
    let alone = split_tags(part);
    assert(alone[0] == part);
    lemma_split_tags_join(part, after);
    let first = split_tags(part + seq!['+'] + after);
    assert(first[0] == part);
    lemma_split_tags_join(before, part);
    let last = split_tags(before + seq!['+'] + part);
    assert(last[last.len() - 1] == part);
    lemma_split_tags_join(before + seq!['+'] + part, after);
    lemma_split_tags_nonempty(after);
    let middle = split_tags(before + seq!['+'] + part + seq!['+'] + after);
    assert(middle == last + split_tags(after));
    assert(middle[last.len() - 1] == part);
}

/// Adding stop tags never keeps a term that fewer stop tags removed.
pub proof fn lemma_removal_monotone(
    fewer: Set<Seq<char>>,
    more: Set<Seq<char>>,
    analysis: Option<Seq<SegmentView>>,
)
    requires
        fewer.subset_of(more),
    ensures
        removal_for(fewer, analysis) ==> removal_for(more, analysis),
{
    if removal_for(fewer, analysis) {
        let details = analysis->0[0].details->0;
        let tag = details[0];
        if fewer.contains(tag) {
            assert(more.contains(tag));
        } else {
            let i = choose|i: int|
                0 <= i < split_tags(tag).len() && part_matches(fewer, #[trigger] split_tags(tag)[i]);
            let part = split_tags(tag)[i];
            if fewer.contains(part) {
                assert(more.contains(part));
            } else {
                let k = choose|k: int| 1 <= k <= part.len() && fewer.contains(#[trigger] part.take(k));
                assert(more.contains(part.take(k)));
            }
            assert(part_matches(more, part));
        }
    }
}

/// Two filters with the same set of stop tags over the same analysis remove
/// the same terms, however the tags were listed.
pub proof fn lemma_same_stop_tags_same_removal(
    a: NoriPartOfSpeechFilter,
    b: NoriPartOfSpeechFilter,
    term: Seq<char>,
)
    requires
        a.stop_tags() == b.stop_tags(),
        a.analysis_of(term) == b.analysis_of(term),
    ensures
        a.removes(term) == b.removes(term),
{
}

/// Of two filters over the same analysis, the one with more stop tags
/// removes every term that the other removes.
pub proof fn lemma_more_stop_tags_remove_more(
    fewer: NoriPartOfSpeechFilter,
    more: NoriPartOfSpeechFilter,
    term: Seq<char>,
)
    requires
        fewer.stop_tags().subset_of(more.stop_tags()),
        fewer.analysis_of(term) == more.analysis_of(term),
    ensures
        fewer.removes(term) ==> more.removes(term),
{
    lemma_removal_monotone(fewer.stop_tags(), more.stop_tags(), fewer.analysis_of(term));
}

} // verus!
