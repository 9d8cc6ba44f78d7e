//! Tests of the tokenizer and the token filters through their public API.

use pizza_analysis_nori::{
    KoreanStopFilter, NoriDecompoundMode, NoriPartOfSpeechFilter, NoriReadingformFilter,
    NoriToken, NoriTokenizer,
};

fn terms(tokens: &[NoriToken]) -> Vec<&str> {
    tokens.iter().map(|t| t.term.as_str()).collect()
}

fn make_token(term: &str) -> NoriToken {
    NoriToken::new(term, 0, term.len() as u32, 0)
}

fn stop_deleted(filter: &KoreanStopFilter, term: &str) -> bool {
    let mut token = make_token(term);
    let (deleted, _) = filter.filter(&mut token);
    deleted
}

fn pos_deleted(filter: &NoriPartOfSpeechFilter, term: &str) -> bool {
    let mut token = make_token(term);
    let (deleted, _) = filter.filter(&mut token);
    deleted
}

fn reading_term(filter: &NoriReadingformFilter, term: &str) -> String {
    let mut token = make_token(term);
    filter.filter(&mut token);
    token.term
}

// ─── tokenizer ────────────────────────────────────────────────────────────────

#[test]
fn none_mode_returns_correct_mode() {
    let tok = NoriTokenizer::new(NoriDecompoundMode::NoDecompound);
    assert_eq!(tok.mode(), NoriDecompoundMode::NoDecompound);
}

#[test]
fn discard_mode_returns_correct_mode() {
    let tok = NoriTokenizer::new(NoriDecompoundMode::Discard);
    assert_eq!(tok.mode(), NoriDecompoundMode::Discard);
}

#[test]
fn mixed_mode_returns_correct_mode() {
    let tok = NoriTokenizer::new(NoriDecompoundMode::Mixed);
    assert_eq!(tok.mode(), NoriDecompoundMode::Mixed);
}

#[test]
fn empty_string() {
    let tok = NoriTokenizer::new(NoriDecompoundMode::NoDecompound);
    let tokens = tok.tokenize("");
    assert!(tokens.is_empty());
}

#[test]
fn positions_are_sequential() {
    let tok = NoriTokenizer::new(NoriDecompoundMode::NoDecompound);
    let tokens = tok.tokenize("한국어를 처리합니다");
    for (i, token) in tokens.iter().enumerate() {
        assert_eq!(token.position, i as u32, "positions should be sequential");
    }
}

#[test]
fn offsets_are_character_based() {
    let tok = NoriTokenizer::new(NoriDecompoundMode::NoDecompound);
    let tokens = tok.tokenize("서울시");
    for token in &tokens {
        assert!(
            token.end_offset <= 3,
            "char offset should be ≤ 3 for 3-char input, got end={}",
            token.end_offset
        );
    }
}

#[test]
fn whitespace_only() {
    let tok = NoriTokenizer::new(NoriDecompoundMode::NoDecompound);
    let tokens = tok.tokenize("   ");
    let _ = terms(&tokens);
}

#[test]
fn none_mode_basic_sentence() {
    let tok = NoriTokenizer::new(NoriDecompoundMode::NoDecompound);
    let tokens = tok.tokenize("한국어를 처리합니다");
    let t = terms(&tokens);
    if tok.dictionary_loaded() {
        assert!(t.len() >= 2, "should produce multiple tokens, got {:?}", t);
    } else {
        assert!(t.is_empty());
    }
}

#[test]
fn discard_mode_decompounds() {
    let tok = NoriTokenizer::new(NoriDecompoundMode::Discard);
    let tokens = tok.tokenize("가곡역");
    let t = terms(&tokens);
    if tok.dictionary_loaded() {
        assert!(!t.is_empty(), "discard mode should produce tokens");
    } else {
        assert!(t.is_empty());
    }
}

#[test]
fn single_hangul_word() {
    let tok = NoriTokenizer::new(NoriDecompoundMode::NoDecompound);
    let tokens = tok.tokenize("서울");
    let t = terms(&tokens);
    if tok.dictionary_loaded() {
        assert!(t.contains(&"서울"), "single word should tokenize to itself, got {:?}", t);
    } else {
        assert!(t.is_empty());
    }
}

#[test]
fn mixed_korean_ascii() {
    let tok = NoriTokenizer::new(NoriDecompoundMode::NoDecompound);
    let tokens = tok.tokenize("Java언어");
    let t = terms(&tokens);
    if tok.dictionary_loaded() {
        assert!(t.len() >= 1, "should produce tokens for mixed text, got {:?}", t);
    } else {
        assert!(t.is_empty());
    }
}

#[test]
fn punctuation_handling() {
    let tok = NoriTokenizer::new(NoriDecompoundMode::NoDecompound);
    let tokens = tok.tokenize("서울。부산");
    let t = terms(&tokens);
    if tok.dictionary_loaded() {
        assert!(t.iter().any(|s: &&str| s.contains("서울")), "expected 서울 in {:?}", t);
    } else {
        assert!(t.is_empty());
    }
}

// ─── part_of_speech ──────────────────────────────────────────────────────────

#[test]
fn filters_particle_with_defaults() {
    let filter = NoriPartOfSpeechFilter::with_defaults();
    let deleted = pos_deleted(&filter, "를");
    let _ = deleted;
}

#[test]
fn keeps_noun() {
    let filter = NoriPartOfSpeechFilter::with_defaults();
    assert!(!pos_deleted(&filter, "서울"), "proper noun 서울 should be kept");
}

#[test]
fn custom_stop_tags() {
    let filter = NoriPartOfSpeechFilter::new(vec!["NNG".to_string()]);
    let _ = pos_deleted(&filter, "사람");
}

#[test]
fn with_defaults_does_not_panic() {
    let filter = NoriPartOfSpeechFilter::with_defaults();
    let _ = pos_deleted(&filter, "테스트");
}

// ─── readingform ─────────────────────────────────────────────────────────────

#[test]
fn hangul_passthrough() {
    let filter = NoriReadingformFilter::new();
    let result = reading_term(&filter, "서울");
    assert_eq!(result, "서울", "Hangul should pass through unchanged");
}

#[test]
fn ascii_passthrough() {
    let filter = NoriReadingformFilter::new();
    let result = reading_term(&filter, "hello");
    assert_eq!(result, "hello");
}

#[test]
fn readingform_default_construction() {
    let filter = NoriReadingformFilter::default();
    let result = reading_term(&filter, "서울");
    assert_eq!(result, "서울");
}

#[test]
fn does_not_panic_on_empty() {
    let filter = NoriReadingformFilter::new();
    let result = reading_term(&filter, "");
    assert_eq!(result, "");
}

// ─── stop ────────────────────────────────────────────────────────────────────

#[test]
fn removes_particle_eui() {
    let filter = KoreanStopFilter::new();
    assert!(stop_deleted(&filter, "의"), "의 should be a stop word");
}

#[test]
fn removes_particle_ga() {
    let filter = KoreanStopFilter::new();
    assert!(stop_deleted(&filter, "가"), "가 should be a stop word");
}

#[test]
fn removes_particle_reul() {
    let filter = KoreanStopFilter::new();
    assert!(stop_deleted(&filter, "를"), "를 should be a stop word");
}

#[test]
fn removes_particle_neun() {
    let filter = KoreanStopFilter::new();
    assert!(stop_deleted(&filter, "는"), "는 should be a stop word");
}

#[test]
fn removes_particle_eun() {
    let filter = KoreanStopFilter::new();
    assert!(stop_deleted(&filter, "은"), "은 should be a stop word");
}

#[test]
fn removes_particle_e() {
    let filter = KoreanStopFilter::new();
    assert!(stop_deleted(&filter, "에"), "에 should be a stop word");
}

#[test]
fn keeps_content_word() {
    let filter = KoreanStopFilter::new();
    assert!(!stop_deleted(&filter, "서울"), "content word 서울 should not be removed");
}

#[test]
fn keeps_verb_stem() {
    let filter = KoreanStopFilter::new();
    assert!(
        !stop_deleted(&filter, "먹다"),
        "verb should not be a stop word (unless in default list)"
    );
}

#[test]
fn custom_stop_words() {
    let filter = KoreanStopFilter::with_words(vec!["커스텀".to_string(), "테스트".to_string()]);
    assert!(stop_deleted(&filter, "커스텀"));
    assert!(stop_deleted(&filter, "테스트"));
    assert!(!stop_deleted(&filter, "의"), "default words not in custom list");
}

#[test]
fn nori_comprehensive_default_construction() {
    let filter = KoreanStopFilter::default();
    assert!(stop_deleted(&filter, "의"));
}

// ─── pipeline ────────────────────────────────────────────────────────────────

/// Tokenize, then apply the filters in turn, returning the surviving terms.
fn analyze(text: &str) -> Vec<String> {
    let tokenizer = NoriTokenizer::new(NoriDecompoundMode::Discard);
    let pos_filter = NoriPartOfSpeechFilter::with_defaults();
    let readingform = NoriReadingformFilter::new();
    let stop = KoreanStopFilter::new();

    let mut tokens = tokenizer.tokenize(text);
    let mut result = Vec::new();
    for token in &mut tokens {
        if pos_filter.filter(token).0 {
            continue;
        }
        if readingform.filter(token).0 {
            continue;
        }
        if stop.filter(token).0 {
            continue;
        }
        result.push(token.term.clone());
    }
    result
}

#[test]
fn full_pipeline_basic() {
    let result = analyze("한국어를 처리합니다");
    if NoriTokenizer::new(NoriDecompoundMode::Discard).dictionary_loaded() {
        assert!(!result.is_empty(), "pipeline should produce tokens");
    } else {
        assert!(result.is_empty());
    }
}

#[test]
fn full_pipeline_removes_stop_words() {
    let result = analyze("서울의 날씨는 좋다");
    assert!(
        !result.contains(&"의".to_string()),
        "stop word 의 should be removed, got {:?}",
        result
    );
}
