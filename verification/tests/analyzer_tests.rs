use pg_glot_hybrid::analyzer::{tokens_from_segments, RawToken};
use pg_glot_hybrid::token::Token;

fn raw(surface: &str, start: usize, detail: Option<&str>) -> RawToken {
    RawToken {
        surface: surface.to_string(),
        byte_start: start,
        byte_end: start + surface.len(),
        detail: detail.map(|d| d.to_string()),
    }
}

fn tok(surface: &str, start: usize, end: usize, pos: Option<&str>) -> Token {
    Token {
        surface: surface.to_string(),
        byte_start: start,
        byte_end: end,
        pos: pos.map(|p| p.to_string()),
    }
}

#[test]
fn morphemes_become_tokens_with_their_tags() {
    let text = "한국어 형태소";
    let raws = vec![raw("한국어", 0, Some("NNP")), raw("형태소", 10, Some("NNG"))];
    let toks = tokens_from_segments(&raws);
    assert_eq!(toks, vec![tok("한국어", 0, 9, Some("NNP")), tok("형태소", 10, 19, Some("NNG"))]);
    for t in &toks {
        assert_eq!(text.get(t.byte_start..t.byte_end), Some(t.surface.as_str()));
    }
}

#[test]
fn unknown_and_empty_tags_are_dropped() {
    let raws = vec![raw("BM25", 0, Some("UNK")), raw("검색", 5, Some("")), raw("x", 11, None)];
    let toks = tokens_from_segments(&raws);
    assert_eq!(toks, vec![tok("BM25", 0, 4, None), tok("검색", 5, 11, None), tok("x", 11, 12, None)]);
}

#[test]
fn middle_dot_names_are_split_with_text_offsets() {
    let text = "東京のトーマス・エジソン";
    let raws = vec![
        raw("東京", 0, Some("名詞")),
        raw("の", 6, Some("助詞")),
        raw("トーマス・エジソン", 9, Some("名詞")),
    ];
    let toks = tokens_from_segments(&raws);
    let surfaces: Vec<&str> = toks.iter().map(|t| t.surface.as_str()).collect();
    assert_eq!(surfaces, vec!["東京", "の", "トーマス", "エジソン"]);
    assert!(!surfaces.iter().any(|s| s.contains('・')));
    for t in &toks {
        assert_eq!(text.get(t.byte_start..t.byte_end), Some(t.surface.as_str()));
    }
    assert_eq!(toks[3].pos.as_deref(), Some("名詞"));
}

#[test]
fn surfaces_of_only_dots_yield_nothing() {
    let toks = tokens_from_segments(&vec![raw("・", 3, Some("記号"))]);
    assert!(toks.is_empty());
}

#[test]
fn no_morphemes_no_tokens() {
    assert!(tokens_from_segments(&Vec::new()).is_empty());
}
