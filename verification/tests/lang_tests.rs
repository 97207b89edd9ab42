use pg_glot_hybrid::lang::{dictionary_version, Lang};

#[test]
fn dictionary_version_identifies_kodic() {
    let v = dictionary_version();
    assert!(v.contains("mecab-ko-dic"), "ko-dic dictionary named: {v}");
    assert!(v.contains("2.1.1-20180720"), "dictionary release named: {v}");
    assert!(v.contains("lindera"), "engine named: {v}");
}

#[test]
fn dictionary_version_per_lang() {
    assert!(Lang::Korean.dictionary_version().contains("ko-dic"));
    assert!(Lang::Japanese.dictionary_version().contains("ipadic"));
    assert!(Lang::Chinese.dictionary_version().contains("CC-CEDICT"));
}

#[test]
fn is_content_pos_filters_functional_words() {
    assert!(Lang::Korean.is_content_pos(Some("NNG")));
    assert!(Lang::Korean.is_content_pos(Some("VV+EC")));
    assert!(!Lang::Korean.is_content_pos(Some("JKO")));
    assert!(!Lang::Korean.is_content_pos(Some("EC")));
    assert!(Lang::Japanese.is_content_pos(Some("名詞")), "noun is a content word");
    assert!(Lang::Japanese.is_content_pos(Some("動詞")), "verb is a content word");
    assert!(!Lang::Japanese.is_content_pos(Some("助詞")), "particle is a function word");
    assert!(!Lang::Japanese.is_content_pos(Some("助動詞")), "auxiliary verb is a function word");
    assert!(Lang::Chinese.is_content_pos(Some("*")));
    assert!(Lang::Korean.is_content_pos(None));
}

#[test]
fn config_names_per_lang() {
    assert_eq!(Lang::Korean.config_name(), "korean");
    assert_eq!(Lang::Japanese.config_name(), "japanese");
    assert_eq!(Lang::Chinese.config_name(), "chinese");
}

#[test]
fn embedded_uris_per_lang() {
    assert_eq!(Lang::Korean.embedded_uri(), "embedded://ko-dic");
    assert_eq!(Lang::Japanese.embedded_uri(), "embedded://ipadic");
    assert_eq!(Lang::Chinese.embedded_uri(), "embedded://cc-cedict");
}

#[test]
fn dictionary_version_exact_text() {
    assert_eq!(
        Lang::Korean.dictionary_version(),
        "mecab-ko-dic-2.1.1-20180720 (lindera 3.0.7, embed-ko-dic)"
    );
    assert_eq!(
        Lang::Japanese.dictionary_version(),
        "mecab-ipadic-2.7.0-20070801 (lindera 3.0.7, embed-ipadic)"
    );
    assert_eq!(
        Lang::Chinese.dictionary_version(),
        "CC-CEDICT (lindera-cc-cedict 3.0.7) (lindera 3.0.7, embed-cc-cedict)"
    );
    assert_eq!(dictionary_version(), Lang::Korean.dictionary_version());
}

#[test]
fn korean_compound_tag_judged_on_first_morpheme() {
    assert!(Lang::Korean.is_content_pos(Some("NNP+JKS")));
    assert!(!Lang::Korean.is_content_pos(Some("JKS+NNP")));
    assert!(!Lang::Korean.is_content_pos(Some("+NNG")));
    assert!(!Lang::Korean.is_content_pos(Some("")));
    assert!(Lang::Korean.is_content_pos(Some("SL")));
    assert!(!Lang::Korean.is_content_pos(Some("NN")));
}

#[test]
fn japanese_deny_list_is_exact() {
    for tag in ["記号", "フィラー", "感動詞", "接続詞"] {
        assert!(!Lang::Japanese.is_content_pos(Some(tag)), "{tag} is a function word");
    }
    assert!(Lang::Japanese.is_content_pos(Some("助詞+")));
    assert!(Lang::Japanese.is_content_pos(None));
    assert!(Lang::Chinese.is_content_pos(None));
}
