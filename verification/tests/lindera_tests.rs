use pg_glot_hybrid::{Analyzer, Lang, LinderaAnalyzer};

// These tests need the engine's embedded dictionaries. Built without them
// (see README.md), `LinderaAnalyzer::new` fails and each test ends at once.

fn analyzer_for(lang: Lang) -> Option<LinderaAnalyzer> {
    LinderaAnalyzer::new(lang).ok()
}

fn analyzer() -> Option<LinderaAnalyzer> {
    LinderaAnalyzer::new_ko_dic().ok()
}

#[test]
fn tokenizes_korean_and_offsets_map_to_surface() {
    let Some(a) = analyzer() else { return };
    let text = "한국어 형태소 분석";
    let toks = a.tokenize(text);
    assert!(!toks.is_empty(), "no tokens");
    for t in &toks {
        assert!(t.byte_start <= t.byte_end);
        assert!(t.byte_end <= text.len());
        let slice = text.get(t.byte_start..t.byte_end).expect("offset is not a char boundary");
        assert_eq!(slice, t.surface, "offset slice != surface");
        assert!(!t.surface.is_empty());
    }
}

#[test]
fn empty_input_yields_no_tokens() {
    let Some(a) = analyzer() else { return };
    assert!(a.tokenize("").is_empty());
}

#[test]
fn splits_eojeol_into_morphemes() {
    let Some(a) = analyzer() else { return };
    let toks = a.tokenize("먹었다");
    assert!(!toks.is_empty());
    let surfaces: Vec<&str> = toks.iter().map(|t| t.surface.as_str()).collect();
    assert!(surfaces.iter().any(|s| s.contains('먹')), "expected a morpheme with '먹': {surfaces:?}");
}

#[test]
fn mixed_korean_english_numeric() {
    let Some(a) = analyzer() else { return };
    let text = "PostgreSQL 16에서 BM25 검색";
    let toks = a.tokenize(text);
    assert!(!toks.is_empty());
    for t in &toks {
        assert_eq!(text.get(t.byte_start..t.byte_end), Some(t.surface.as_str()));
    }
}

#[test]
fn whitespace_and_punctuation_only() {
    let Some(a) = analyzer() else { return };
    for text in ["   ", "!!!", ".,?", "\n\t "] {
        for t in &a.tokenize(text) {
            assert_eq!(text.get(t.byte_start..t.byte_end), Some(t.surface.as_str()));
        }
    }
}

#[test]
fn long_text_offsets_stay_valid() {
    let Some(a) = analyzer() else { return };
    let text = "한국어 형태소 분석 테스트 문장입니다. ".repeat(2000);
    let toks = a.tokenize(&text);
    assert!(!toks.is_empty());
    for t in &toks {
        assert!(t.byte_start <= t.byte_end && t.byte_end <= text.len());
        assert_eq!(text.get(t.byte_start..t.byte_end), Some(t.surface.as_str()));
    }
}

#[test]
fn repeated_calls_are_idempotent() {
    let Some(a) = analyzer() else { return };
    let text = "검색 품질 평가 재현성";
    assert_eq!(a.tokenize(text), a.tokenize(text));
}

#[test]
fn tokenizes_japanese_offsets_map_to_surface() {
    let Some(a) = analyzer_for(Lang::Japanese) else { return };
    let text = "東京都に住んでいます";
    let toks = a.tokenize(text);
    assert!(!toks.is_empty(), "no Japanese tokens");
    for t in &toks {
        assert_eq!(text.get(t.byte_start..t.byte_end), Some(t.surface.as_str()), "offset slice != surface (ja)");
    }
}

#[test]
fn japanese_splits_foreign_name_on_middle_dot() {
    let Some(a) = analyzer_for(Lang::Japanese) else { return };
    let text = "トーマス・エジソン";
    let toks = a.tokenize(text);
    let surfaces: Vec<&str> = toks.iter().map(|t| t.surface.as_str()).collect();
    assert!(surfaces.contains(&"エジソン"), "'エジソン' must be its own token: {surfaces:?}");
    assert!(surfaces.contains(&"トーマス"), "'トーマス' must be its own token: {surfaces:?}");
    assert!(!surfaces.iter().any(|s| s.contains('・')), "no token may keep '・': {surfaces:?}");
    for t in &toks {
        assert_eq!(text.get(t.byte_start..t.byte_end), Some(t.surface.as_str()));
    }
}

#[test]
fn tokenizes_chinese_offsets_map_to_surface() {
    let Some(a) = analyzer_for(Lang::Chinese) else { return };
    let text = "我喜欢自然语言处理";
    let toks = a.tokenize(text);
    assert!(!toks.is_empty(), "no Chinese tokens");
    for t in &toks {
        assert_eq!(text.get(t.byte_start..t.byte_end), Some(t.surface.as_str()), "offset slice != surface (zh)");
    }
}

#[test]
fn analyzer_exposes_lang() {
    if let Some(a) = analyzer_for(Lang::Korean) {
        assert_eq!(a.lang(), Lang::Korean);
    }
    if let Some(a) = analyzer_for(Lang::Japanese) {
        assert_eq!(a.lang(), Lang::Japanese);
    }
}
