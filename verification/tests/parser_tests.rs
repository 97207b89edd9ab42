use pg_glot_hybrid::parser::{decode_input, lextype_of, ParseStartError, ParserState, BLANK, WORD};
use pg_glot_hybrid::token::Token;

fn tok(surface: &str) -> Token {
    Token { surface: surface.to_string(), byte_start: 0, byte_end: surface.len(), pos: None }
}

#[test]
fn letters_and_digits_make_words() {
    assert_eq!(lextype_of("형태소"), WORD);
    assert_eq!(lextype_of("東京"), WORD);
    assert_eq!(lextype_of("16"), WORD);
    assert_eq!(lextype_of("BM25"), WORD);
    assert_eq!(lextype_of("!a!"), WORD);
}

#[test]
fn punctuation_and_space_are_blank() {
    assert_eq!(lextype_of("!!!"), BLANK);
    assert_eq!(lextype_of(".,?"), BLANK);
    assert_eq!(lextype_of(" \t"), BLANK);
    assert_eq!(lextype_of(""), BLANK);
    assert_eq!(WORD, 2);
    assert_eq!(BLANK, 12);
}

#[test]
fn parser_hands_out_each_token_once_then_stops() {
    let mut st = ParserState::new(vec![tok("한국어"), tok("."), tok("분석")]);
    assert_eq!(st.len(), 3);
    let mut seen = Vec::new();
    while let Some(i) = st.next_token() {
        seen.push((st.surface(i).to_string(), st.lextype(i)));
    }
    assert_eq!(
        seen,
        vec![("한국어".to_string(), WORD), (".".to_string(), BLANK), ("분석".to_string(), WORD)]
    );
    assert_eq!(st.next_token(), None);
    assert_eq!(st.next_token(), None);
}

#[test]
fn empty_parse_ends_at_once() {
    let mut st = ParserState::new(Vec::new());
    assert_eq!(st.len(), 0);
    assert_eq!(st.next_token(), None);
}

#[test]
fn parser_input_must_be_utf8() {
    assert_eq!(decode_input("형태소 분석".as_bytes()), Ok("형태소 분석"));
    assert_eq!(decode_input(b""), Ok(""));
    assert_eq!(decode_input(&[0xED, 0xA0, 0x80]), Err(ParseStartError::InvalidUtf8));
    assert_eq!(decode_input(&[0xE3, 0x83]), Err(ParseStartError::InvalidUtf8));
    assert_eq!(decode_input(&[0xFF]), Err(ParseStartError::InvalidUtf8));
}
