//! Tests of the verified logic on concrete analyses, independent of the
//! dictionary.

use pizza_analysis_nori::analysis::Segment;
use pizza_analysis_nori::text::{chars_of, copy_string, same_text, string_from_chars};
use pizza_analysis_nori::tokenizer::{merge_compounds, tokens_from_segments};
use pizza_analysis_nori::{
    KoreanStopFilter, NoriDecompoundMode, NoriPartOfSpeechFilter, NoriReadingformFilter, NoriToken, NoriTokenizer,
    DEFAULT_KOREAN_STOP_TAGS, KOREAN_STOP_WORDS,
};

fn seg(surface: &str, byte_start: usize, byte_end: usize, details: &[&str]) -> Segment {
    Segment {
        surface: surface.to_string(),
        byte_start,
        byte_end,
        details: Some(details.iter().map(|d| d.to_string()).collect()),
    }
}

fn view(tokens: &[NoriToken]) -> Vec<(String, u32, u32, u32)> {
    tokens
        .iter()
        .map(|t| (t.term.clone(), t.start_offset, t.end_offset, t.position))
        .collect()
}

#[test]
fn tokens_use_character_offsets_and_sequential_positions() {
    // "서울 시청": each Hangul syllable takes 3 bytes, the space 1.
    let text = "서울 시청";
    let segments = vec![seg("서울", 0, 6, &[]), seg("시청", 7, 13, &[])];
    let tokens = tokens_from_segments(text, &segments);
    assert_eq!(
        view(&tokens),
        vec![("서울".to_string(), 0, 2, 0), ("시청".to_string(), 3, 5, 1)]
    );
}

#[test]
fn tokens_skip_empty_surfaces() {
    let text = "a서b";
    let segments = vec![seg("a", 0, 1, &[]), seg("", 1, 1, &[]), seg("서", 1, 4, &[]), seg("b", 4, 5, &[])];
    let tokens = tokens_from_segments(text, &segments);
    assert_eq!(
        view(&tokens),
        vec![
            ("a".to_string(), 0, 1, 0),
            ("서".to_string(), 1, 2, 1),
            ("b".to_string(), 2, 3, 2),
        ]
    );
}

#[test]
fn no_segments_no_tokens() {
    let tokens = tokens_from_segments("", &Vec::new());
    assert!(tokens.is_empty());
}

#[test]
fn mixed_mode_emits_parts_then_compound() {
    // 가곡역 = 가곡 + 역
    let text = "가곡역";
    let wholes = vec![seg("가곡역", 0, 9, &["NNP"])];
    let parts = vec![seg("가곡", 0, 6, &["NNP"]), seg("역", 6, 9, &["NNG"])];
    let merged = merge_compounds(&wholes, &parts);
    let tokens = tokens_from_segments(text, &merged);
    assert_eq!(
        view(&tokens),
        vec![
            ("가곡".to_string(), 0, 2, 0),
            ("역".to_string(), 2, 3, 1),
            ("가곡역".to_string(), 0, 3, 2),
        ]
    );
}

#[test]
fn mixed_mode_keeps_unsplit_words_once() {
    let text = "서울 가곡역";
    let wholes = vec![seg("서울", 0, 6, &[]), seg("가곡역", 7, 16, &[])];
    let parts = vec![seg("서울", 0, 6, &[]), seg("가곡", 7, 13, &[]), seg("역", 13, 16, &[])];
    let merged = merge_compounds(&wholes, &parts);
    let surfaces: Vec<&str> = merged.iter().map(|s| s.surface.as_str()).collect();
    assert_eq!(surfaces, vec!["서울", "가곡", "역", "가곡역"]);
    let tokens = tokens_from_segments(text, &merged);
    assert_eq!(
        view(&tokens),
        vec![
            ("서울".to_string(), 0, 2, 0),
            ("가곡".to_string(), 3, 5, 1),
            ("역".to_string(), 5, 6, 2),
            ("가곡역".to_string(), 3, 6, 3),
        ]
    );
}

#[test]
fn stop_tag_matches_compound_parts() {
    let filter = NoriPartOfSpeechFilter::new(vec!["VCP".to_string()]);
    assert!(filter.matches_tag("NNG+VCP+ETM"));
    assert!(filter.matches_tag("VCP"));
    assert!(!filter.matches_tag("NNG+ETM"));
    assert!(filter.matches_tag("VCPX"));
    assert!(filter.matches_tag("NNG+VCPX"));
    assert!(!filter.matches_tag("VC"));
    assert!(!filter.matches_tag("NNG+VC+ETM"));
    assert!(!filter.matches_tag(""));
}

#[test]
fn stop_tag_matches_whole_tag() {
    let filter = NoriPartOfSpeechFilter::new(vec!["NNG+JKO".to_string()]);
    assert!(filter.matches_tag("NNG+JKO"));
    assert!(!filter.matches_tag("NNG"));
}

#[test]
fn empty_part_of_tag() {
    let filter = NoriPartOfSpeechFilter::new(vec!["".to_string()]);
    assert!(filter.matches_tag("NNG+"));
    assert!(filter.matches_tag(""));
}

#[test]
fn pos_removal_from_single_morpheme() {
    let filter = NoriPartOfSpeechFilter::with_defaults();
    assert!(filter.removal_from_analysis(&Some(vec![seg("를", 0, 3, &["J", "*", "T", "를"])])));
    assert!(filter.removal_from_analysis(&Some(vec![seg("고", 0, 3, &["E+J", "*"])])));
    assert!(!filter.removal_from_analysis(&Some(vec![seg("서울", 0, 6, &["NNP", "지명"])])));
}

#[test]
fn pos_keeps_when_analysis_is_not_one_morpheme() {
    let filter = NoriPartOfSpeechFilter::with_defaults();
    assert!(!filter.removal_from_analysis(&None));
    assert!(!filter.removal_from_analysis(&Some(vec![])));
    assert!(!filter.removal_from_analysis(&Some(vec![
        seg("서울", 0, 6, &["J"]),
        seg("를", 6, 9, &["J"]),
    ])));
    assert!(!filter.removal_from_analysis(&Some(vec![seg("를", 0, 3, &[])])));
    let no_details = Segment { surface: "를".to_string(), byte_start: 0, byte_end: 3, details: None };
    assert!(!filter.removal_from_analysis(&Some(vec![no_details])));
}

#[test]
fn default_stop_tags_are_the_listed_ones() {
    assert_eq!(DEFAULT_KOREAN_STOP_TAGS.len(), 18);
    let filter = NoriPartOfSpeechFilter::with_defaults();
    for tag in DEFAULT_KOREAN_STOP_TAGS.iter() {
        assert!(filter.matches_tag(tag));
    }
    assert!(!filter.matches_tag("NNG"));
    assert!(!filter.matches_tag("NNP"));
    assert!(!filter.matches_tag("VV"));
}

#[test]
fn default_stop_tags_match_tag_families() {
    let filter = NoriPartOfSpeechFilter::with_defaults();
    for tag in ["JKS", "JKO", "JKB", "JX", "JC", "EP", "EF", "EC", "ETM", "NNG+JKO", "VV+EC"] {
        assert!(filter.matches_tag(tag), "{} should fall under a default stop tag", tag);
    }
    assert!(!filter.matches_tag("NNG+VV"));
}

#[test]
fn default_filter_removes_object_particle() {
    let filter = NoriPartOfSpeechFilter::with_defaults();
    let analysis = Some(vec![seg("를", 0, 3, &["JKO", "*", "F", "를", "*", "*", "*", "*"])]);
    assert!(filter.removal_from_analysis(&analysis));
    let ending = Some(vec![seg("다", 0, 3, &["EF", "*", "F", "다", "*", "*", "*", "*"])]);
    assert!(filter.removal_from_analysis(&ending));
    let noun = Some(vec![seg("날씨", 0, 6, &["NNG", "*", "F", "날씨", "*", "*", "*", "*"])]);
    assert!(!filter.removal_from_analysis(&noun));
}

#[test]
fn components_without_dictionary_are_inert() {
    let tokenizer = NoriTokenizer::new(NoriDecompoundMode::Mixed);
    if !tokenizer.dictionary_loaded() {
        assert!(tokenizer.tokenize("한국어를 처리합니다").is_empty());
    }
    let pos = NoriPartOfSpeechFilter::with_defaults();
    if !pos.dictionary_loaded() {
        let mut token = NoriToken::new("를", 0, 1, 0);
        assert!(!pos.filter(&mut token).0);
    }
    let reading = NoriReadingformFilter::new();
    if !reading.dictionary_loaded() {
        let mut token = NoriToken::new("韓國", 0, 2, 0);
        reading.filter(&mut token);
        assert_eq!(token.term, "韓國");
    }
}

#[test]
fn hanja_ranges() {
    assert!(NoriReadingformFilter::is_hanja('韓'));
    assert!(NoriReadingformFilter::is_hanja('\u{4E00}'));
    assert!(NoriReadingformFilter::is_hanja('\u{9FFF}'));
    assert!(NoriReadingformFilter::is_hanja('\u{3400}'));
    assert!(NoriReadingformFilter::is_hanja('\u{4DBF}'));
    assert!(NoriReadingformFilter::is_hanja('\u{F900}'));
    assert!(NoriReadingformFilter::is_hanja('\u{FAFF}'));
    assert!(!NoriReadingformFilter::is_hanja('\u{4DC0}'));
    assert!(!NoriReadingformFilter::is_hanja('\u{A000}'));
    assert!(!NoriReadingformFilter::is_hanja('한'));
    assert!(!NoriReadingformFilter::is_hanja('a'));
}

#[test]
fn contains_hanja_detects_any_position() {
    assert!(NoriReadingformFilter::contains_hanja("韓國"));
    assert!(NoriReadingformFilter::contains_hanja("대韓"));
    assert!(!NoriReadingformFilter::contains_hanja("대한"));
    assert!(!NoriReadingformFilter::contains_hanja(""));
}

#[test]
fn reading_taken_from_detail_three() {
    let analysis = Some(vec![seg("韓國", 0, 6, &["NNP", "*", "T", "한국", "*", "*", "*", "*"])]);
    assert_eq!(
        NoriReadingformFilter::reading_from_analysis("韓國", &analysis),
        Some("한국".to_string())
    );
}

#[test]
fn reading_falls_back_to_details_seven_then_one() {
    let seventh = Some(vec![seg("韓國", 0, 6, &["NNP", "*", "T", "*", "*", "*", "*", "한국"])]);
    assert_eq!(
        NoriReadingformFilter::reading_from_analysis("韓國", &seventh),
        Some("한국".to_string())
    );
    let first = Some(vec![seg("韓", 0, 3, &["NNG", "한", "T", "韓"])]);
    assert_eq!(
        NoriReadingformFilter::reading_from_analysis("韓", &first),
        Some("한".to_string())
    );
}

#[test]
fn reading_rejects_non_hangul_and_placeholders() {
    let not_hangul = Some(vec![seg("韓國", 0, 6, &["NNP", "*", "T", "hanguk"])]);
    assert_eq!(NoriReadingformFilter::reading_from_analysis("韓國", &not_hangul), None);
    let star = Some(vec![seg("韓國", 0, 6, &["NNP", "*", "T", "*"])]);
    assert_eq!(NoriReadingformFilter::reading_from_analysis("韓國", &star), None);
    let same = Some(vec![seg("韓國", 0, 6, &["NNP", "*", "T", "韓國"])]);
    assert_eq!(NoriReadingformFilter::reading_from_analysis("韓國", &same), None);
}

#[test]
fn reading_needs_hanja_and_one_morpheme() {
    let analysis = Some(vec![seg("한국", 0, 6, &["NNP", "*", "T", "한국"])]);
    assert_eq!(NoriReadingformFilter::reading_from_analysis("한국", &analysis), None);
    assert_eq!(NoriReadingformFilter::reading_from_analysis("韓國", &None), None);
    let two = Some(vec![
        seg("韓", 0, 3, &["NNG", "*", "T", "한"]),
        seg("國", 3, 6, &["NNG", "*", "T", "국"]),
    ]);
    assert_eq!(NoriReadingformFilter::reading_from_analysis("韓國", &two), None);
}

#[test]
fn reading_filter_never_deletes() {
    let filter = NoriReadingformFilter::new();
    let mut token = NoriToken::new("韓國", 3, 5, 7);
    let (deleted, extra) = filter.filter(&mut token);
    assert!(!deleted);
    assert!(extra.is_none());
    assert_eq!((token.start_offset, token.end_offset, token.position), (3, 5, 7));
}

#[test]
fn stop_filter_leaves_token_unchanged() {
    let filter = KoreanStopFilter::new();
    let mut token = NoriToken::new("의", 1, 2, 4);
    let (deleted, extra) = filter.filter(&mut token);
    assert!(deleted);
    assert!(extra.is_none());
    assert_eq!(token.term, "의");
    assert_eq!((token.start_offset, token.end_offset, token.position), (1, 2, 4));
}

#[test]
fn every_default_stop_word_is_removed() {
    let filter = KoreanStopFilter::new();
    assert_eq!(KOREAN_STOP_WORDS.len(), 40);
    for word in KOREAN_STOP_WORDS.iter() {
        let mut token = NoriToken::new(word, 0, 1, 0);
        assert!(filter.filter(&mut token).0, "{} should be a stop word", word);
    }
    let mut token = NoriToken::new("이다다", 0, 3, 0);
    assert!(!filter.filter(&mut token).0);
}

#[test]
fn empty_custom_list_removes_nothing() {
    let filter = KoreanStopFilter::with_words(Vec::new());
    let mut token = NoriToken::new("의", 0, 1, 0);
    assert!(!filter.filter(&mut token).0);
}

#[test]
fn stop_words_hold_inserted_words_only() {
    let filter = KoreanStopFilter::with_words(vec!["가".to_string(), "나다".to_string()]);
    let copy = filter.clone();
    for (word, expected) in [("가", true), ("나다", true), ("나", false), ("", false)] {
        let mut token = NoriToken::new(word, 0, 0, 0);
        assert_eq!(copy.filter(&mut token).0, expected, "{}", word);
    }
}

#[test]
fn text_helpers() {
    assert_eq!(chars_of("한a"), vec!['한', 'a']);
    assert_eq!(string_from_chars(&vec!['가', '곡']), "가곡");
    assert_eq!(copy_string("역"), "역");
    assert!(same_text("가곡", "가곡"));
    assert!(!same_text("가곡", "가곡역"));
    assert!(!same_text("가곡", "가국"));
}

#[test]
fn mixed_mode_emits_a_single_differing_part() {
    let text = "가곡역";
    let wholes = vec![seg("가곡역", 0, 9, &["NNP"])];
    let parts = vec![seg("가곡", 0, 6, &["NNP"])];
    let merged = merge_compounds(&wholes, &parts);
    let tokens = tokens_from_segments(text, &merged);
    assert_eq!(
        view(&tokens),
        vec![("가곡".to_string(), 0, 2, 0), ("가곡역".to_string(), 0, 3, 1)]
    );
}

#[test]
fn mixed_terms_are_union_of_both_analyses() {
    let text = "서울 가곡역";
    let wholes = vec![seg("서울", 0, 6, &[]), seg("가곡역", 7, 16, &[])];
    let parts = vec![seg("서울", 0, 6, &[]), seg("가곡", 7, 13, &[]), seg("역", 13, 16, &[])];
    let mixed = tokens_from_segments(text, &merge_compounds(&wholes, &parts));
    let mut mixed_terms: Vec<String> = mixed.iter().map(|t| t.term.clone()).collect();
    let mut both: Vec<String> = tokens_from_segments(text, &wholes)
        .iter()
        .chain(tokens_from_segments(text, &parts).iter())
        .map(|t| t.term.clone())
        .collect();
    mixed_terms.sort();
    mixed_terms.dedup();
    both.sort();
    both.dedup();
    assert_eq!(mixed_terms, both);
}
