//! Nori-compatible Korean morphological tokenizer over ko-dic, with three
//! decompound modes:
//! - `NoDecompound`: keep compounds as the dictionary has them;
//! - `Discard`: emit the parts of each compound and drop the compound;
//! - `Mixed`: emit the parts of each compound followed by the compound.

use vstd::prelude::*;
use vstd::utf8::*;
use crate::analysis::{
    Segment, SegmentView, segments_view, analyze_with, korean_analyzer, KoreanAnalyzer, analysis_by,
    ko_dic_analysis, copy_analyzer,
};
use crate::token::{NoriToken, NoriTokenView, tokens_view};
use crate::text::{chars_of, same_text};

verus! {

broadcast use vstd::utf8::group_utf8_lib;

/// Decompound mode for Korean morphological analysis.
#[derive(Debug, Clone, Copy, PartialEq, Eq, Structural)]
pub enum NoriDecompoundMode {
    /// No decompounding: keep compounds as-is.
    NoDecompound,
    /// Decompound and discard the original compound.
    Discard,
    /// Emit both compound and decompounded parts (graph token).
    Mixed,
}

/// The number of characters of `text` that lie before byte `byte_index` of
/// its UTF-8 encoding.
pub open spec fn char_offset(text: Seq<char>, byte_index: int) -> int {
    decode_utf8(encode_utf8(text).subrange(0, byte_index)).len() as int
}

/// The segment's byte range runs forward, and both of its ends fall on
/// character boundaries of the UTF-8 encoding of `text`.
pub open spec fn segment_fits(text: Seq<char>, segment: SegmentView) -> bool {
    &&& segment.byte_start <= segment.byte_end
    &&& is_char_boundary(encode_utf8(text), segment.byte_start as int)
    &&& is_char_boundary(encode_utf8(text), segment.byte_end as int)
}

/// Every segment fits `text`, and there are no more segments than a `u32`
/// position can count.
pub open spec fn segments_fit(text: Seq<char>, segments: Seq<SegmentView>) -> bool {
    &&& segments.len() <= u32::MAX
    &&& forall|i: int| 0 <= i < segments.len() ==> segment_fits(text, #[trigger] segments[i])
}

/// The segments with a non-empty surface, in order.
pub open spec fn kept_segments(segments: Seq<SegmentView>) -> Seq<SegmentView> {
    segments.filter(|s: SegmentView| s.surface.len() > 0)
}

/// The token made of `segment` at `position`, its offsets counted in
/// characters of `text`.
pub open spec fn token_of(text: Seq<char>, segment: SegmentView, position: int) -> NoriTokenView {
    NoriTokenView {
        term: segment.surface,
        start_offset: char_offset(text, segment.byte_start as int) as u32,
        end_offset: char_offset(text, segment.byte_end as int) as u32,
        position: position as u32,
    }
}

/// The tokens of `segments`: one per segment with a non-empty surface, in
/// order, numbered from 0.
pub open spec fn tokens_of_segments(text: Seq<char>, segments: Seq<SegmentView>) -> Seq<NoriTokenView> {
    let kept = kept_segments(segments);
    Seq::new(kept.len(), |i: int| token_of(text, kept[i], i))
}

/// The number of characters before byte `byte_index` of `text`.
fn char_offset_of(text: &str, byte_index: usize) -> (res: usize)
    requires
        is_char_boundary(encode_utf8(text@), byte_index as int),
    ensures
        res == char_offset(text@, byte_index as int),
{
    let (left, _right) = text.split_at(byte_index);
    let chars = chars_of(left);
    proof {
        encode_utf8_decode_utf8(left@);
    }
    chars.len()
}

/// The tokens that `segments` make of `text`: segments with an empty
/// surface are skipped, byte offsets become character offsets, and the
/// tokens are numbered from 0.
pub fn tokens_from_segments(text: &str, segments: &Vec<Segment>) -> (tokens: Vec<NoriToken>)
    requires
        segments_fit(text@, segments_view(segments@)),
    ensures
        tokens_view(tokens@) == tokens_of_segments(text@, segments_view(segments@)),
{
    let ghost all = segments_view(segments@);
    let mut tokens: Vec<NoriToken> = Vec::new();
    let mut position: u32 = 0;
    let n = segments.len();
    for i in 0..n
        invariant
            n == segments@.len(),
            all == segments_view(segments@),
            segments_fit(text@, all),
            tokens_view(tokens@) == tokens_of_segments(text@, all.take(i as int)),
            position as int == tokens@.len(),
            tokens@.len() <= i,
    {
        proof {
            reveal_with_fuel(Seq::filter, 1);
            assert(all.take(i + 1).drop_last() == all.take(i as int));
            assert(all[i as int] == segments@[i as int]@);
            assert(segment_fits(text@, all[i as int]));
        }
        let segment = &segments[i];
        if !segment.surface.as_str().is_empty() {
            let start = char_offset_of(text, segment.byte_start);
            let end = char_offset_of(text, segment.byte_end);
            let token = NoriToken {
                term: segment.surface.clone(),
                start_offset: start as u32,
                end_offset: end as u32,
                position,
            };
            proof {
                let before = kept_segments(all.take(i as int));
                assert(all.take(i + 1).last() == all[i as int]);
                assert(kept_segments(all.take(i + 1)) == before.push(all[i as int]));
                assert(tokens_view(tokens@).len() == tokens@.len());
                assert(token@ == token_of(text@, all[i as int], before.len() as int));
            }
            let ghost old_view = tokens_view(tokens@);
            let ghost token_view = token@;
            tokens.push(token);
            position = position + 1;
            proof {
                let before = kept_segments(all.take(i as int));
                let after = kept_segments(all.take(i + 1));
                assert(tokens_view(tokens@) =~= old_view.push(token_view));
                assert forall|j: int| 0 <= j < before.len() implies after[j] == before[j] by {}
                assert(old_view =~= tokens_of_segments(text@, all.take(i as int)));
            }
            assert(tokens_view(tokens@) =~= tokens_of_segments(text@, all.take(i + 1)));
        } else {
            assert(tokens_view(tokens@) =~= tokens_of_segments(text@, all.take(i + 1)));
        }
    }
    assert(all.take(n as int) == all);
    tokens
}

/// `part` lies within the byte range of `whole`.
pub open spec fn nested_in(part: SegmentView, whole: SegmentView) -> bool {
    whole.byte_start <= part.byte_start && part.byte_end <= whole.byte_end
}

/// `a` and `b` have the same surface and byte range.
pub open spec fn same_span(a: SegmentView, b: SegmentView) -> bool {
    a.surface == b.surface && a.byte_start == b.byte_start && a.byte_end == b.byte_end
}

/// Some segment of `segments` has the surface and byte range of `s`.
pub open spec fn covers(segments: Seq<SegmentView>, s: SegmentView) -> bool {
    exists|k: int| 0 <= k < segments.len() && same_span(#[trigger] segments[k], s)
}

/// The parts of the compound `whole`: the segments of `parts` that lie
/// within it, other than one with its very surface and range, in order.
pub open spec fn parts_of(whole: SegmentView, parts: Seq<SegmentView>) -> Seq<SegmentView> {
    parts.filter(|p: SegmentView| nested_in(p, whole) && !same_span(p, whole))
}

/// What mixed mode emits for the compound `whole`: its parts, then the
/// compound itself (the compound alone where it has no other parts).
pub open spec fn expand_compound(whole: SegmentView, parts: Seq<SegmentView>) -> Seq<SegmentView> {
    parts_of(whole, parts).push(whole)
}

/// The segments of mixed mode: each segment of `wholes` (the analysis that
/// keeps compounds), in order, expanded by [`expand_compound`] against
/// `parts` (the decompounding analysis).
pub open spec fn mixed_segments(wholes: Seq<SegmentView>, parts: Seq<SegmentView>) -> Seq<SegmentView>
    decreases wholes.len(),
{
    if wholes.len() == 0 {
        seq![]
    } else {
        mixed_segments(wholes.drop_last(), parts) + expand_compound(wholes.last(), parts)
    }
}

/// The parts of `whole` among `parts`, copied.
fn nested_parts(whole: &Segment, parts: &Vec<Segment>) -> (res: Vec<Segment>)
    ensures
        segments_view(res@) == parts_of(whole@, segments_view(parts@)),
{
    let ghost all = segments_view(parts@);
    let mut res: Vec<Segment> = Vec::new();
    let n = parts.len();
    for j in 0..n
        invariant
            n == parts@.len(),
            all == segments_view(parts@),
            segments_view(res@) == parts_of(whole@, all.take(j as int)),
    {
        proof {
            reveal_with_fuel(Seq::filter, 1);
            assert(all.take(j + 1).drop_last() == all.take(j as int));
            assert(all.take(j + 1).last() == parts@[j as int]@);
        }
        let part = &parts[j];
        let nested = whole.byte_start <= part.byte_start && part.byte_end <= whole.byte_end;
        let same = part.byte_start == whole.byte_start && part.byte_end == whole.byte_end
            && same_text(part.surface.as_str(), whole.surface.as_str());
        if nested && !same {
            let ghost before = segments_view(res@);
            let copy = part.copy();
            res.push(copy);
            assert(segments_view(res@) =~= before.push(part@));
        }
    }
    assert(all.take(n as int) == all);
    res
}

/// The segments of mixed mode for the compound-keeping analysis `wholes` and
/// the decompounding analysis `parts`.
pub fn merge_compounds(wholes: &Vec<Segment>, parts: &Vec<Segment>) -> (res: Vec<Segment>)
    ensures
        segments_view(res@) == mixed_segments(segments_view(wholes@), segments_view(parts@)),
{
    let ghost all = segments_view(wholes@);
    let ghost ps = segments_view(parts@);
    let mut res: Vec<Segment> = Vec::new();
    let n = wholes.len();
    for i in 0..n
        invariant
            n == wholes@.len(),
            all == segments_view(wholes@),
            ps == segments_view(parts@),
            segments_view(res@) == mixed_segments(all.take(i as int), ps),
    {
        let whole = &wholes[i];
        let mut inner = nested_parts(whole, parts);
        let ghost before = segments_view(res@);
        let ghost inner_view = segments_view(inner@);
        res.append(&mut inner);
        res.push(whole.copy());
        assert(segments_view(res@) =~= before + inner_view.push(whole@));
        proof {
            assert(all.take(i + 1).drop_last() == all.take(i as int));
            assert(all.take(i + 1).last() == whole@);
        }
    }
    assert(all.take(n as int) == all);
    res
}

/// Tokens of any fitting segments are numbered from 0 in order, have a
/// non-empty term, and have character offsets no greater than the number of
/// characters of the text.
pub proof fn lemma_tokens_of_segments(text: Seq<char>, segments: Seq<SegmentView>)
    requires
        segments_fit(text, segments),
    ensures
        forall|i: int| 0 <= i < tokens_of_segments(text, segments).len() ==> {
            let t = #[trigger] tokens_of_segments(text, segments)[i];
            &&& t.position == i
            &&& t.term.len() > 0
            &&& t.start_offset <= text.len()
            &&& t.end_offset <= text.len()
            &&& text.len() <= u32::MAX ==> t.start_offset <= t.end_offset
        },
{
    let kept = kept_segments(segments);
    let pred = |s: SegmentView| s.surface.len() > 0;
    segments.lemma_filter_len(pred);
    let bytes = encode_utf8(text);
    assert forall|i: int| 0 <= i < kept.len() implies {
        let t = #[trigger] tokens_of_segments(text, segments)[i];
        &&& t.position == i
        &&& t.term.len() > 0
        &&& t.start_offset <= text.len()
        &&& t.end_offset <= text.len()
        &&& text.len() <= u32::MAX ==> t.start_offset <= t.end_offset
    } by {
        let s = kept[i];
        segments.lemma_filter_pred(pred, i);
        assert(kept.contains(s));
        segments.lemma_filter_contains_rev(pred, s);
        assert(segments.contains(s));
        let k = choose|k: int| 0 <= k < segments.len() && segments[k] == s;
        assert(segment_fits(text, segments[k]));
        lemma_char_offset_bound(text, s.byte_start as int);
        lemma_char_offset_bound(text, s.byte_end as int);
        lemma_char_offset_monotone(text, s.byte_start as int, s.byte_end as int);
    }
}

/// The characters before a boundary are no more than those of the text.
proof fn lemma_char_offset_bound(text: Seq<char>, byte_index: int)
    requires
        is_char_boundary(encode_utf8(text), byte_index),
    ensures
        0 <= char_offset(text, byte_index) <= text.len(),
        (char_offset(text, byte_index) as u32) <= text.len(),
{
    let bytes = encode_utf8(text);
    decode_utf8_split(bytes, byte_index);
    let x = char_offset(text, byte_index);
    if x > u32::MAX {
    } else {
        assert(x as u32 == x);
    }
}

/// Character offsets grow with the byte offsets they are counted to.
proof fn lemma_char_offset_monotone(text: Seq<char>, b1: int, b2: int)
    requires
        is_char_boundary(encode_utf8(text), b1),
        is_char_boundary(encode_utf8(text), b2),
        b1 <= b2,
    ensures
        char_offset(text, b1) <= char_offset(text, b2),
{
    let bytes = encode_utf8(text);
    let prefix = bytes.subrange(0, b2);
    decode_utf8_split(bytes, b2);
    assert(valid_utf8(prefix));
    if b1 < b2 {
        if b1 > 0 {
            is_char_boundary_iff_not_is_continuation_byte(bytes, b1);
            is_char_boundary_iff_not_is_continuation_byte(prefix, b1);
            assert(prefix[b1] == bytes[b1]);
        }
        assert(is_char_boundary(prefix, b1));
        decode_utf8_split(prefix, b1);
        assert(prefix.subrange(0, b1) == bytes.subrange(0, b1));
    }
}

/// The token of a kept segment has the segment's surface and the character
/// offsets of its byte range.
pub open spec fn token_matches(text: Seq<char>, t: NoriTokenView, s: SegmentView) -> bool {
    &&& t.term == s.surface
    &&& t.start_offset == char_offset(text, s.byte_start as int) as u32
    &&& t.end_offset == char_offset(text, s.byte_end as int) as u32
}

/// Every segment with a non-empty surface that `segments` cover has a token.
pub proof fn lemma_tokens_cover(text: Seq<char>, segments: Seq<SegmentView>, s: SegmentView)
    requires
        covers(segments, s),
        s.surface.len() > 0,
    ensures
        exists|i: int|
            0 <= i < tokens_of_segments(text, segments).len() && token_matches(
                text,
                #[trigger] tokens_of_segments(text, segments)[i],
                s,
            ),
{
    let k = choose|k: int| 0 <= k < segments.len() && same_span(#[trigger] segments[k], s);
    let pred = |x: SegmentView| x.surface.len() > 0;
    segments.lemma_filter_contains(pred, k);
    let kept = kept_segments(segments);
    assert(kept.contains(segments[k]));
    let m = choose|m: int| 0 <= m < kept.len() && kept[m] == segments[k];
    assert(token_matches(text, tokens_of_segments(text, segments)[m], s));
}

/// In mixed mode every compound is emitted, and every part of a compound
/// is emitted too (a part with the compound's very surface and range once,
/// as the compound).
pub proof fn lemma_mixed_keeps_compounds_and_parts(wholes: Seq<SegmentView>, parts: Seq<SegmentView>)
    ensures
        forall|i: int| 0 <= i < wholes.len() ==> #[trigger] mixed_segments(wholes, parts).contains(wholes[i]),
        forall|i: int, j: int|
            #![trigger wholes[i], parts[j]]
            0 <= i < wholes.len() && 0 <= j < parts.len() && nested_in(parts[j], wholes[i])
                ==> covers(mixed_segments(wholes, parts), parts[j]),
    decreases wholes.len(),
{
    if wholes.len() > 0 {
        let front = wholes.drop_last();
        let last = wholes.last();
        lemma_mixed_keeps_compounds_and_parts(front, parts);
        let head = mixed_segments(front, parts);
        let tail = expand_compound(last, parts);
        let all = mixed_segments(wholes, parts);
        assert(all == head + tail);
        let pred = |p: SegmentView| nested_in(p, last) && !same_span(p, last);
        assert forall|i: int| 0 <= i < wholes.len() implies #[trigger] all.contains(wholes[i]) by {
            if i < wholes.len() - 1 {
                assert(front[i] == wholes[i]);
                assert(head.contains(front[i]));
                let k = choose|k: int| 0 <= k < head.len() && head[k] == front[i];
                assert(all[k] == wholes[i]);
            } else {
                assert(tail[tail.len() - 1] == last);
                assert(all[head.len() + tail.len() - 1] == wholes[i]);
            }
        }
        assert forall|i: int, j: int|
            #![trigger wholes[i], parts[j]]
            0 <= i < wholes.len() && 0 <= j < parts.len() && nested_in(parts[j], wholes[i])
            implies covers(all, parts[j]) by {
            if i < wholes.len() - 1 {
                assert(front[i] == wholes[i]);
                assert(covers(head, parts[j]));
                let k = choose|k: int| 0 <= k < head.len() && same_span(#[trigger] head[k], parts[j]);
                assert(all[k] == head[k]);
            } else if same_span(parts[j], last) {
                assert(all[head.len() + tail.len() - 1] == last);
                assert(same_span(all[head.len() + tail.len() - 1], parts[j]));
            } else {
                let inner = parts_of(last, parts);
                parts.lemma_filter_contains(pred, j);
                assert(inner.contains(parts[j]));
                let k = choose|k: int| 0 <= k < inner.len() && inner[k] == parts[j];
                assert(tail[k] == parts[j]);
                assert(all[head.len() + k] == parts[j]);
                assert(same_span(all[head.len() + k], parts[j]));
            }
        }
    }
}

/// The segments of a text in a decompound mode, given the compound-keeping
/// analysis `wholes` and the decompounding analysis `parts`.
pub open spec fn mode_segments(
    mode: NoriDecompoundMode,
    wholes: Option<Seq<SegmentView>>,
    parts: Option<Seq<SegmentView>>,
) -> Option<Seq<SegmentView>> {
    match mode {
        NoriDecompoundMode::NoDecompound => wholes,
        NoriDecompoundMode::Discard => parts,
        NoriDecompoundMode::Mixed => match (wholes, parts) {
            (Some(w), Some(p)) => Some(mixed_segments(w, p)),
            _ => None,
        },
    }
}

/// The tokens of `text` given its segments: none where there are no
/// segments or they do not fit the text.
pub open spec fn tokens_for(text: Seq<char>, segments: Option<Seq<SegmentView>>) -> Seq<NoriTokenView> {
    match segments {
        Some(s) => if segments_fit(text, s) {
            tokens_of_segments(text, s)
        } else {
            seq![]
        },
        None => seq![],
    }
}

/// The tokens of `text` in `mode` by the ko-dic analysis.
pub open spec fn ko_dic_tokens(mode: NoriDecompoundMode, text: Seq<char>) -> Seq<NoriTokenView> {
    tokens_for(text, mode_segments(mode, ko_dic_analysis(false, text), ko_dic_analysis(true, text)))
}

/// Mixed mode emits a token for every compound of the compound-keeping
/// analysis and for every part of the decompounding analysis that lies
/// within a compound (each with a non-empty surface).
pub proof fn lemma_mixed_tokens(text: Seq<char>, wholes: Seq<SegmentView>, parts: Seq<SegmentView>)
    ensures
        forall|i: int|
            0 <= i < wholes.len() && (#[trigger] wholes[i]).surface.len() > 0 ==> exists|k: int|
                0 <= k < tokens_of_segments(text, mixed_segments(wholes, parts)).len()
                    && token_matches(
                    text,
                    #[trigger] tokens_of_segments(text, mixed_segments(wholes, parts))[k],
                    wholes[i],
                ),
        forall|i: int, j: int|
            #![trigger wholes[i], parts[j]]
            0 <= i < wholes.len() && 0 <= j < parts.len() && nested_in(parts[j], wholes[i])
                && parts[j].surface.len() > 0 ==> exists|k: int|
                0 <= k < tokens_of_segments(text, mixed_segments(wholes, parts)).len()
                    && token_matches(
                    text,
                    #[trigger] tokens_of_segments(text, mixed_segments(wholes, parts))[k],
                    parts[j],
                ),
{
    let all = mixed_segments(wholes, parts);
    lemma_mixed_keeps_compounds_and_parts(wholes, parts);
    assert forall|i: int| 0 <= i < wholes.len() && (#[trigger] wholes[i]).surface.len() > 0 implies exists|k: int|
        0 <= k < tokens_of_segments(text, all).len() && token_matches(
            text,
            #[trigger] tokens_of_segments(text, all)[k],
            wholes[i],
        ) by {
        assert(all.contains(wholes[i]));
        let k = choose|k: int| 0 <= k < all.len() && all[k] == wholes[i];
        assert(same_span(all[k], wholes[i]));
        lemma_tokens_cover(text, all, wholes[i]);
    }
    assert forall|i: int, j: int|
        #![trigger wholes[i], parts[j]]
        0 <= i < wholes.len() && 0 <= j < parts.len() && nested_in(parts[j], wholes[i])
            && parts[j].surface.len() > 0 implies exists|k: int|
        0 <= k < tokens_of_segments(text, all).len() && token_matches(
            text,
            #[trigger] tokens_of_segments(text, all)[k],
            parts[j],
        ) by {
        assert(covers(all, parts[j]));
        lemma_tokens_cover(text, all, parts[j]);
    }
}

/// Each segment of mixed mode is a compound of the compound-keeping analysis
/// or a part of the decompounding analysis.
proof fn lemma_mixed_segments_come_from(wholes: Seq<SegmentView>, parts: Seq<SegmentView>)
    ensures
        forall|k: int|
            0 <= k < mixed_segments(wholes, parts).len() ==> wholes.contains(
                #[trigger] mixed_segments(wholes, parts)[k],
            ) || parts.contains(mixed_segments(wholes, parts)[k]),
    decreases wholes.len(),
{
    if wholes.len() > 0 {
        let front = wholes.drop_last();
        let last = wholes.last();
        lemma_mixed_segments_come_from(front, parts);
        let head = mixed_segments(front, parts);
        let inner = parts_of(last, parts);
        let all = mixed_segments(wholes, parts);
        assert(all == head + inner.push(last));
        let pred = |p: SegmentView| nested_in(p, last) && !same_span(p, last);
        assert forall|k: int| 0 <= k < all.len() implies wholes.contains(#[trigger] all[k]) || parts.contains(
            all[k],
        ) by {
            if k < head.len() {
                assert(all[k] == head[k]);
                if wholes.contains(all[k]) {
                } else if front.contains(head[k]) {
                    let i = choose|i: int| 0 <= i < front.len() && front[i] == head[k];
                    assert(wholes[i] == head[k]);
                }
            } else if k == all.len() - 1 {
                assert(all[k] == last);
                assert(wholes[wholes.len() - 1] == last);
            } else {
                let m = k - head.len();
                assert(all[k] == inner[m]);
                assert(inner.contains(inner[m]));
                parts.lemma_filter_contains_rev(pred, inner[m]);
            }
        }
    }
}

/// Every token that mixed mode emits is the token of a compound of the
/// compound-keeping analysis or of a part of the decompounding analysis:
/// mixed mode makes up no term and no offsets of its own.
pub proof fn lemma_mixed_tokens_come_from_analyses(
    text: Seq<char>,
    wholes: Seq<SegmentView>,
    parts: Seq<SegmentView>,
)
    ensures
        forall|k: int| 0 <= k < tokens_of_segments(text, mixed_segments(wholes, parts)).len() ==> {
            let t = #[trigger] tokens_of_segments(text, mixed_segments(wholes, parts))[k];
            ||| exists|i: int| 0 <= i < wholes.len() && token_matches(text, t, #[trigger] wholes[i])
            ||| exists|j: int| 0 <= j < parts.len() && token_matches(text, t, #[trigger] parts[j])
        },
{
    let all = mixed_segments(wholes, parts);
    let kept = kept_segments(all);
    let pred = |x: SegmentView| x.surface.len() > 0;
    lemma_mixed_segments_come_from(wholes, parts);
    assert forall|k: int| 0 <= k < tokens_of_segments(text, all).len() implies {
        let t = #[trigger] tokens_of_segments(text, all)[k];
        ||| exists|i: int| 0 <= i < wholes.len() && token_matches(text, t, #[trigger] wholes[i])
        ||| exists|j: int| 0 <= j < parts.len() && token_matches(text, t, #[trigger] parts[j])
    } by {
        let t = tokens_of_segments(text, all)[k];
        let s = kept[k];
        assert(t == token_of(text, s, k));
        assert(kept.contains(s));
        all.lemma_filter_contains_rev(pred, s);
        let m = choose|m: int| 0 <= m < all.len() && all[m] == s;
        if wholes.contains(all[m]) {
            let i = choose|i: int| 0 <= i < wholes.len() && wholes[i] == all[m];
            assert(token_matches(text, t, wholes[i]));
        } else {
            let j = choose|j: int| 0 <= j < parts.len() && parts[j] == all[m];
            assert(token_matches(text, t, parts[j]));
        }
    }
}

/// The terms of `tokens`.
pub open spec fn token_terms(tokens: Seq<NoriTokenView>) -> Set<Seq<char>> {
    Set::new(|x: Seq<char>| exists|k: int| 0 <= k < tokens.len() && (#[trigger] tokens[k]).term == x)
}

/// The non-empty surfaces of `segments`.
pub open spec fn surface_terms(segments: Seq<SegmentView>) -> Set<Seq<char>> {
    Set::new(
        |x: Seq<char>| x.len() > 0 && exists|i: int| 0 <= i < segments.len() && (#[trigger] segments[i]).surface == x,
    )
}

/// The terms of the tokens of `segments` are their non-empty surfaces.
proof fn lemma_token_terms(text: Seq<char>, segments: Seq<SegmentView>)
    ensures
        token_terms(tokens_of_segments(text, segments)) == surface_terms(segments),
{
    let kept = kept_segments(segments);
    let pred = |s: SegmentView| s.surface.len() > 0;
    let toks = tokens_of_segments(text, segments);
    assert forall|x: Seq<char>| token_terms(toks).contains(x) implies surface_terms(segments).contains(x) by {
        let k = choose|k: int| 0 <= k < toks.len() && (#[trigger] toks[k]).term == x;
        assert(toks[k] == token_of(text, kept[k], k));
        segments.lemma_filter_pred(pred, k);
        assert(kept.contains(kept[k]));
        segments.lemma_filter_contains_rev(pred, kept[k]);
        let i = choose|i: int| 0 <= i < segments.len() && segments[i] == kept[k];
        assert(segments[i].surface == x);
    }
    assert forall|x: Seq<char>| surface_terms(segments).contains(x) implies token_terms(toks).contains(x) by {
        let i = choose|i: int| 0 <= i < segments.len() && (#[trigger] segments[i]).surface == x;
        segments.lemma_filter_contains(pred, i);
        let m = choose|m: int| 0 <= m < kept.len() && kept[m] == segments[i];
        assert(toks[m].term == x);
    }
    assert(token_terms(toks) =~= surface_terms(segments));
}

/// Where every part of the decompounding analysis lies within a compound of
/// the compound-keeping analysis, the terms that mixed mode emits are exactly
/// those of the compound-keeping tokens together with those of the
/// decompounding tokens.
pub proof fn lemma_mixed_terms_union(text: Seq<char>, wholes: Seq<SegmentView>, parts: Seq<SegmentView>)
    requires
        forall|j: int|
            0 <= j < parts.len() ==> exists|i: int| 0 <= i < wholes.len() && nested_in(#[trigger] parts[j], wholes[i]),
    ensures
        token_terms(tokens_of_segments(text, mixed_segments(wholes, parts))) == token_terms(
            tokens_of_segments(text, wholes),
        ).union(token_terms(tokens_of_segments(text, parts))),
{
    let all = mixed_segments(wholes, parts);
    lemma_token_terms(text, all);
    lemma_token_terms(text, wholes);
    lemma_token_terms(text, parts);
    lemma_mixed_segments_come_from(wholes, parts);
    lemma_mixed_keeps_compounds_and_parts(wholes, parts);
    assert forall|x: Seq<char>| surface_terms(all).contains(x) implies surface_terms(wholes).union(
        surface_terms(parts),
    ).contains(x) by {
        let k = choose|k: int| 0 <= k < all.len() && (#[trigger] all[k]).surface == x;
        if wholes.contains(all[k]) {
            let i = choose|i: int| 0 <= i < wholes.len() && wholes[i] == all[k];
            assert(surface_terms(wholes).contains(x));
        } else {
            let j = choose|j: int| 0 <= j < parts.len() && parts[j] == all[k];
            assert(surface_terms(parts).contains(x));
        }
    }
    assert forall|x: Seq<char>| surface_terms(wholes).union(surface_terms(parts)).contains(x) implies surface_terms(
        all,
    ).contains(x) by {
        if surface_terms(wholes).contains(x) {
            let i = choose|i: int| 0 <= i < wholes.len() && (#[trigger] wholes[i]).surface == x;
            assert(all.contains(wholes[i]));
            let k = choose|k: int| 0 <= k < all.len() && all[k] == wholes[i];
            assert(all[k].surface == x);
        } else {
            let j = choose|j: int| 0 <= j < parts.len() && (#[trigger] parts[j]).surface == x;
            let i = choose|i: int| 0 <= i < wholes.len() && nested_in(parts[j], wholes[i]);
            assert(covers(all, parts[j]));
            let k = choose|k: int| 0 <= k < all.len() && same_span(#[trigger] all[k], parts[j]);
            assert(all[k].surface == x);
        }
    }
    assert(surface_terms(all) =~= surface_terms(wholes).union(surface_terms(parts)));
}

/// `NoDecompound` keeps the compounds of the compound-keeping analysis,
/// `Discard` emits the decompounding analysis alone, and `Mixed` emits, where
/// both analyses fit the text, the tokens of their merge.
pub proof fn lemma_mode_tokens(text: Seq<char>)
    ensures
        ko_dic_tokens(NoriDecompoundMode::NoDecompound, text) == tokens_for(text, ko_dic_analysis(false, text)),
        ko_dic_tokens(NoriDecompoundMode::Discard, text) == tokens_for(text, ko_dic_analysis(true, text)),
        ko_dic_analysis(false, text) is None || ko_dic_analysis(true, text) is None ==> ko_dic_tokens(
            NoriDecompoundMode::Mixed,
            text,
        ) == Seq::<NoriTokenView>::empty(),
        ko_dic_analysis(false, text) matches Some(w) ==> ko_dic_analysis(true, text) matches Some(p) ==> (
        segments_fit(text, w) && segments_fit(text, p) && mixed_segments(w, p).len() <= u32::MAX
            ==> ko_dic_tokens(NoriDecompoundMode::Mixed, text) == tokens_of_segments(
            text,
            mixed_segments(w, p),
        )),
{
    if let Some(w) = ko_dic_analysis(false, text) {
        if let Some(p) = ko_dic_analysis(true, text) {
            if segments_fit(text, w) && segments_fit(text, p) && mixed_segments(w, p).len() <= u32::MAX {
                lemma_mixed_segments_fit(text, w, p);
            }
        }
    }
}

/// Where the compound-keeping and the decompounding analyses both fit the
/// text, so do the segments of mixed mode (as far as a `u32` can number
/// them): a compound and its parts overlap, and that is no reason to drop
/// them.
pub proof fn lemma_mixed_segments_fit(text: Seq<char>, wholes: Seq<SegmentView>, parts: Seq<SegmentView>)
    requires
        segments_fit(text, wholes),
        segments_fit(text, parts),
        mixed_segments(wholes, parts).len() <= u32::MAX,
    ensures
        segments_fit(text, mixed_segments(wholes, parts)),
{
    let all = mixed_segments(wholes, parts);
    lemma_mixed_segments_come_from(wholes, parts);
    assert forall|k: int| 0 <= k < all.len() implies segment_fits(text, #[trigger] all[k]) by {
        if wholes.contains(all[k]) {
            let i = choose|i: int| 0 <= i < wholes.len() && wholes[i] == all[k];
            assert(segment_fits(text, wholes[i]));
        } else {
            let j = choose|j: int| 0 <= j < parts.len() && parts[j] == all[k];
            assert(segment_fits(text, parts[j]));
        }
    }
}

/// Where both analyses fit the text, mixed mode emits a token for each of
/// their morphemes with a non-empty surface that lies within a compound; in
/// particular it emits some token as soon as the compound-keeping analysis
/// has a morpheme with a non-empty surface.
pub proof fn lemma_mixed_tokens_nonempty(text: Seq<char>, wholes: Seq<SegmentView>, parts: Seq<SegmentView>)
    requires
        segments_fit(text, wholes),
        segments_fit(text, parts),
        mixed_segments(wholes, parts).len() <= u32::MAX,
    ensures
        (exists|i: int| 0 <= i < wholes.len() && (#[trigger] wholes[i]).surface.len() > 0) ==> tokens_for(
            text,
            Some(mixed_segments(wholes, parts)),
        ).len() > 0,
{
    lemma_mixed_segments_fit(text, wholes, parts);
    lemma_mixed_tokens(text, wholes, parts);
    if exists|i: int| 0 <= i < wholes.len() && (#[trigger] wholes[i]).surface.len() > 0 {
        let i = choose|i: int| 0 <= i < wholes.len() && (#[trigger] wholes[i]).surface.len() > 0;
        assert(wholes[i].surface.len() > 0);
    }
}

/// Korean morphological tokenizer over the ko-dic dictionary.
///
/// Equivalent to Elasticsearch's `nori_tokenizer`.
pub struct NoriTokenizer {
    /// The analyzer in the mode's segmentation: compound-keeping for
    /// `NoDecompound`, decompounding for `Discard` and `Mixed`.
    inner: Option<KoreanAnalyzer>,
    /// The compound-keeping analyzer that `Mixed` reads compounds from.
    compounds: Option<KoreanAnalyzer>,
    mode: NoriDecompoundMode,
}

impl NoriTokenizer {
    /// The decompound mode that the tokenizer was made with.
    pub closed spec fn decompound_mode(&self) -> NoriDecompoundMode {
        self.mode
    }

    /// The tokenizer holds the analyzers that its mode reads: the
    /// embedded dictionary was loaded when it was made.
    pub closed spec fn analyzes(&self) -> bool {
        &&& self.inner is Some
        &&& self.mode == NoriDecompoundMode::Mixed ==> self.compounds is Some
    }

    /// The segments that this tokenizer's analyzers find in `text`.
    pub closed spec fn analysis_of(&self, text: Seq<char>) -> Option<Seq<SegmentView>> {
        match self.mode {
            NoriDecompoundMode::Mixed => match (analysis_by(self.compounds, text), analysis_by(self.inner, text)) {
                (Some(w), Some(p)) => Some(mixed_segments(w, p)),
                _ => None,
            },
            _ => analysis_by(self.inner, text),
        }
    }

    /// The tokens that this tokenizer makes of `text`.
    pub open spec fn tokens_of(&self, text: Seq<char>) -> Seq<NoriTokenView> {
        tokens_for(text, self.analysis_of(text))
    }

    /// Create a new Korean tokenizer with the specified decompound mode.
    ///
    /// This does not panic where the embedded ko-dic dictionary cannot be
    /// loaded: it returns a tokenizer that finds no token in any text, and
    /// [`NoriTokenizer::dictionary_loaded`] tells the two outcomes apart, so
    /// that a caller that cannot go on without the dictionary checks it and
    /// stops there.
    pub fn new(mode: NoriDecompoundMode) -> (res: Self)
        ensures
            res.decompound_mode() == mode,
            res.analyzes() ==> forall|text: Seq<char>| #[trigger] res.tokens_of(text) == ko_dic_tokens(mode, text),
            res.analyzes() && mode == NoriDecompoundMode::NoDecompound ==> forall|text: Seq<char>|
                #[trigger] res.tokens_of(text) == tokens_for(text, ko_dic_analysis(false, text)),
            res.analyzes() && mode == NoriDecompoundMode::Discard ==> forall|text: Seq<char>|
                #[trigger] res.tokens_of(text) == tokens_for(text, ko_dic_analysis(true, text)),
            !res.analyzes() ==> forall|text: Seq<char>| #[trigger] res.tokens_of(text) == Seq::<NoriTokenView>::empty(),
    {
        let decompose = match mode {
            NoriDecompoundMode::NoDecompound => false,
            NoriDecompoundMode::Discard => true,
            NoriDecompoundMode::Mixed => true,
        };
        let inner = korean_analyzer(decompose);
        let compounds = match mode {
            NoriDecompoundMode::Mixed => korean_analyzer(false),
            _ => None,
        };
        let res = NoriTokenizer { inner, compounds, mode };
        if res.dictionary_loaded() {
            assert forall|text: Seq<char>| #[trigger] res.tokens_of(text) == ko_dic_tokens(mode, text) by {
                assert(res.analysis_of(text) == mode_segments(
                    mode,
                    ko_dic_analysis(false, text),
                    ko_dic_analysis(true, text),
                ));
            }
        } else {
            assert forall|text: Seq<char>| #[trigger] res.tokens_of(text) == Seq::<NoriTokenView>::empty() by {
                assert(res.analysis_of(text) is None);
            }
        }
        res
    }

    /// Whether the embedded ko-dic dictionary was loaded when this tokenizer
    /// was made; where it was not, the tokenizer finds no token.
    pub fn dictionary_loaded(&self) -> (res: bool)
        ensures
            res == self.analyzes(),
    {
        match self.mode {
            NoriDecompoundMode::Mixed => self.inner.is_some() && self.compounds.is_some(),
            _ => self.inner.is_some(),
        }
    }

    /// Get the current decompound mode.
    pub fn mode(&self) -> (res: NoriDecompoundMode)
        ensures
            res == self.decompound_mode(),
    {
        self.mode
    }

    /// The segments that this tokenizer's analysis finds in `text`, where
    /// the analysis succeeds and its segments fit `text`.
    fn segments_for(&self, text: &str) -> (res: Option<Vec<Segment>>)
        ensures
            match self.analysis_of(text@) {
                Some(s) => if segments_fit(text@, s) {
                    res matches Some(segments) && segments_view(segments@) == s
                } else {
                    res is None
                },
                None => res is None,
            },
    {
        let found = match analyze_with(&self.inner, text) {
            Some(found) => found,
            None => return None,
        };
        let segments = match self.mode {
            NoriDecompoundMode::Mixed => {
                let wholes = match analyze_with(&self.compounds, text) {
                    Some(w) => w,
                    None => return None,
                };
                merge_compounds(&wholes, &found)
            },
            _ => found,
        };
        if fits(text, &segments) {
            Some(segments)
        } else {
            None
        }
    }

    /// Tokenize `text`: one token per morpheme with a non-empty surface, with
    /// character offsets and positions numbered from 0. In `Mixed` mode each
    /// compound is emitted after its parts. Where the analysis fails or does
    /// not fit the text, no token is returned.
    pub fn tokenize(&self, text: &str) -> (tokens: Vec<NoriToken>)
        ensures
            tokens_view(tokens@) == self.tokens_of(text@),
            forall|i: int| 0 <= i < tokens@.len() ==> {
                &&& (#[trigger] tokens@[i]).position == i
                &&& tokens@[i].term@.len() > 0
                &&& tokens@[i].start_offset <= text@.len()
                &&& tokens@[i].end_offset <= text@.len()
                &&& text@.len() <= u32::MAX ==> tokens@[i].start_offset <= tokens@[i].end_offset
            },
    {
        match self.segments_for(text) {
            Some(segments) => {
                let tokens = tokens_from_segments(text, &segments);
                proof {
                    lemma_tokens_of_segments(text@, segments_view(segments@));
                    assert forall|i: int| 0 <= i < tokens@.len() implies
                        tokens_view(tokens@)[i] == (#[trigger] tokens@[i])@ by {}
                }
                tokens
            },
            None => {
                let tokens: Vec<NoriToken> = Vec::new();
                assert(tokens_view(tokens@) =~= self.tokens_of(text@));
                tokens
            },
        }
    }
}

impl Clone for NoriTokenizer {
    fn clone(&self) -> (res: Self)
        ensures
            res.decompound_mode() == self.decompound_mode(),
            res.analyzes() == self.analyzes(),
            forall|text: Seq<char>| #[trigger] res.tokens_of(text) == self.tokens_of(text),
    {
        let res = NoriTokenizer {
            inner: copy_analyzer(&self.inner),
            compounds: copy_analyzer(&self.compounds),
            mode: self.mode,
        };
        assert forall|text: Seq<char>| #[trigger] res.tokens_of(text) == self.tokens_of(text) by {
            assert(res.analysis_of(text) == self.analysis_of(text));
        }
        res
    }
}

/// Whether every segment's byte range runs forward and ends on character
/// boundaries of `text`, and the segments can be numbered by a `u32`.
fn fits(text: &str, segments: &Vec<Segment>) -> (res: bool)
    ensures
        res == segments_fit(text@, segments_view(segments@)),
{
    let ghost all = segments_view(segments@);
    let n = segments.len();
    if n > 4294967295 {
        return false;
    }
    for i in 0..n
        invariant
            n == segments@.len(),
            n <= u32::MAX,
            all == segments_view(segments@),
            forall|j: int| 0 <= j < i ==> segment_fits(text@, #[trigger] all[j]),
    {
        let segment = &segments[i];
        if segment.byte_start > segment.byte_end || !text.is_char_boundary(segment.byte_start)
            || !text.is_char_boundary(segment.byte_end) {
            assert(all[i as int] == segment@);
            return false;
        }
        assert(all[i as int] == segment@);
    }
    true
}

} // verus!
