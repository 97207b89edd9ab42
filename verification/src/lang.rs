use vstd::prelude::*;
use vstd::string::StringExecFns;
use vstd::string::StrSliceExecFns;

verus! {

/// Version of the segmentation engine whose output the token streams depend on.
pub const LINDERA_VERSION: &'static str = "3.0.7";

/// Embedded Korean dictionary release.
pub const KO_DIC_VERSION: &'static str = "mecab-ko-dic-2.1.1-20180720";

/// Embedded Japanese dictionary release.
pub const IPADIC_VERSION: &'static str = "mecab-ipadic-2.7.0-20070801";

/// Embedded Chinese dictionary release.
pub const CC_CEDICT_VERSION: &'static str = "CC-CEDICT (lindera-cc-cedict 3.0.7)";

/// Supported languages, one per embedded dictionary.
#[derive(Debug, Clone, Copy, PartialEq, Eq, Structural)]
pub enum Lang {
    Korean,
    Japanese,
    Chinese,
}

impl Lang {
    /// Dictionary URI of the embedded dictionary for this language.
    pub open spec fn spec_embedded_uri(self) -> Seq<char> {
        match self {
            Lang::Korean => "embedded://ko-dic"@,
            Lang::Japanese => "embedded://ipadic"@,
            Lang::Chinese => "embedded://cc-cedict"@,
        }
    }

    /// Name of the text search configuration for this language.
    pub open spec fn spec_config_name(self) -> Seq<char> {
        match self {
            Lang::Korean => "korean"@,
            Lang::Japanese => "japanese"@,
            Lang::Chinese => "chinese"@,
        }
    }

    /// Release identifier of the embedded dictionary.
    pub open spec fn spec_dictionary_release(self) -> Seq<char> {
        match self {
            Lang::Korean => KO_DIC_VERSION@,
            Lang::Japanese => IPADIC_VERSION@,
            Lang::Chinese => CC_CEDICT_VERSION@,
        }
    }

    /// Name of the engine feature that embeds the dictionary.
    pub open spec fn spec_embed_feature(self) -> Seq<char> {
        match self {
            Lang::Korean => "embed-ko-dic"@,
            Lang::Japanese => "embed-ipadic"@,
            Lang::Chinese => "embed-cc-cedict"@,
        }
    }

    /// `<release> (lindera <engine version>, <feature>)`.
    pub open spec fn spec_dictionary_version(self) -> Seq<char> {
        self.spec_dictionary_release() + " (lindera "@ + LINDERA_VERSION@ + ", "@
            + self.spec_embed_feature() + ")"@
    }

    pub fn embedded_uri(self) -> (uri: &'static str)
        ensures
            uri@ == self.spec_embedded_uri(),
    {
        match self {
            Lang::Korean => "embedded://ko-dic",
            Lang::Japanese => "embedded://ipadic",
            Lang::Chinese => "embedded://cc-cedict",
        }
    }

    /// Name of the text search configuration (`korean` / `japanese` / `chinese`).
    pub fn config_name(self) -> (name: &'static str)
        ensures
            name@ == self.spec_config_name(),
    {
        match self {
            Lang::Korean => "korean",
            Lang::Japanese => "japanese",
            Lang::Chinese => "chinese",
        }
    }

    /// Identifier of the embedded dictionary together with the engine version.
    /// When it changes, indexes built with the old dictionary are stale.
    pub fn dictionary_version(self) -> (v: String)
        ensures
            v@ == self.spec_dictionary_version(),
    {
        let (dic, feat): (&str, &str) = match self {
            Lang::Korean => (KO_DIC_VERSION, "embed-ko-dic"),
            Lang::Japanese => (IPADIC_VERSION, "embed-ipadic"),
            Lang::Chinese => (CC_CEDICT_VERSION, "embed-cc-cedict"),
        };
        let mut v = String::from_str(dic);
        v.append(" (lindera ");
        v.append(LINDERA_VERSION);
        v.append(", ");
        v.append(feat);
        v.append(")");
        v
    }

    /// Whether a token tagged `pos` is a content word to index. Korean keeps
    /// an accept-list judged on the first morpheme of a compound tag, Japanese
    /// drops a deny-list of function-word tags, Chinese carries no usable tags
    /// and keeps everything; an absent tag keeps the token.
    pub fn is_content_pos(self, pos: Option<&str>) -> (r: bool)
        ensures
            r == spec_is_content_pos(self, match pos {
                Some(p) => Some(p@),
                None => None,
            }),
    {
        let p = match pos {
            Some(p) => p,
            None => return true,
        };
        match self {
            Lang::Korean => {
                let all = chars_of(p);
                let t = first_morpheme_chars(&all);
                chars_equal(&t, "NNG") || chars_equal(&t, "NNP") || chars_equal(&t, "NNB")
                    || chars_equal(&t, "NNBC") || chars_equal(&t, "NR") || chars_equal(&t, "VV")
                    || chars_equal(&t, "VA") || chars_equal(&t, "MM") || chars_equal(&t, "MAG")
                    || chars_equal(&t, "XSN") || chars_equal(&t, "XR") || chars_equal(&t, "SH")
                    || chars_equal(&t, "SL")
            },
            Lang::Japanese => {
                let t = chars_of(p);
                !(chars_equal(&t, "助詞") || chars_equal(&t, "助動詞") || chars_equal(&t, "記号")
                    || chars_equal(&t, "フィラー") || chars_equal(&t, "感動詞") || chars_equal(
                    &t,
                    "接続詞",
                ))
            },
            Lang::Chinese => true,
        }
    }
}

/// Part-of-speech tag before the first `+` of a compound tag (`VV+EC` gives `VV`).
pub open spec fn first_morpheme_tag(p: Seq<char>) -> Seq<char>
    decreases p.len(),
{
    if p.len() == 0 {
        p
    } else if p[0] == '+' {
        Seq::empty()
    } else {
        seq![p[0]] + first_morpheme_tag(p.drop_first())
    }
}

/// Korean content-word tags of the dictionary's tag set (accept-list).
pub open spec fn is_korean_content_tag(t: Seq<char>) -> bool {
    ||| t == "NNG"@
    ||| t == "NNP"@
    ||| t == "NNB"@
    ||| t == "NNBC"@
    ||| t == "NR"@
    ||| t == "VV"@
    ||| t == "VA"@
    ||| t == "MM"@
    ||| t == "MAG"@
    ||| t == "XSN"@
    ||| t == "XR"@
    ||| t == "SH"@
    ||| t == "SL"@
}

/// Japanese function-word tags (deny-list): particles, auxiliary verbs,
/// symbols, fillers, interjections and conjunctions.
pub open spec fn is_japanese_function_tag(t: Seq<char>) -> bool {
    ||| t == "助詞"@
    ||| t == "助動詞"@
    ||| t == "記号"@
    ||| t == "フィラー"@
    ||| t == "感動詞"@
    ||| t == "接続詞"@
}

/// Whether a token with part-of-speech `pos` is indexed (a content word).
/// Without a tag nothing can be filtered, so the token is kept.
pub open spec fn spec_is_content_pos(lang: Lang, pos: Option<Seq<char>>) -> bool {
    match pos {
        None => true,
        Some(p) => match lang {
            Lang::Korean => is_korean_content_tag(first_morpheme_tag(p)),
            Lang::Japanese => !is_japanese_function_tag(p),
            Lang::Chinese => true,
        },
    }
}

proof fn lemma_first_morpheme_plain(p: Seq<char>, rest: Seq<char>)
    requires
        forall|i: int| 0 <= i < p.len() ==> p[i] != '+',
    ensures
        first_morpheme_tag(p) == p,
        first_morpheme_tag(p + seq!['+'] + rest) == p,
    decreases p.len(),
{
    let q = p + seq!['+'] + rest;
    if p.len() == 0 {
        assert(q[0] == '+');
    } else {
        lemma_first_morpheme_plain(p.drop_first(), rest);
        assert(q[0] == p[0]);
        assert(q.drop_first() =~= p.drop_first() + seq!['+'] + rest);
        assert(seq![p[0]] + p.drop_first() =~= p);
    }
}

/// Whether the Korean filter indexes the tag `t`, alone and as the first
/// morpheme of a compound tag `t+rest`.
pub open spec fn korean_keeps(t: Seq<char>, rest: Seq<char>) -> bool {
    &&& spec_is_content_pos(Lang::Korean, Some(t))
    &&& spec_is_content_pos(Lang::Korean, Some(t + "+"@ + rest))
}

/// The part-of-speech filter, tag by tag: each Korean content tag (common,
/// proper and bound nouns, numerals, verbs, adjectives, determiners,
/// adverbs, noun suffixes, roots, Hanja and foreign words) is indexed alone
/// and as the first morpheme of any compound tag; the Japanese particles,
/// auxiliary verbs, symbols, fillers, interjections and conjunctions are
/// dropped; Chinese keeps every tag; a token without a tag is kept.
pub proof fn law_content_tags(rest: Seq<char>, tag: Seq<char>, lang: Lang)
    ensures
        korean_keeps("NNG"@, rest),
        korean_keeps("NNP"@, rest),
        korean_keeps("NNB"@, rest),
        korean_keeps("NNBC"@, rest),
        korean_keeps("NR"@, rest),
        korean_keeps("VV"@, rest),
        korean_keeps("VA"@, rest),
        korean_keeps("MM"@, rest),
        korean_keeps("MAG"@, rest),
        korean_keeps("XSN"@, rest),
        korean_keeps("XR"@, rest),
        korean_keeps("SH"@, rest),
        korean_keeps("SL"@, rest),
        !spec_is_content_pos(Lang::Japanese, Some("助詞"@)),
        !spec_is_content_pos(Lang::Japanese, Some("助動詞"@)),
        !spec_is_content_pos(Lang::Japanese, Some("記号"@)),
        !spec_is_content_pos(Lang::Japanese, Some("フィラー"@)),
        !spec_is_content_pos(Lang::Japanese, Some("感動詞"@)),
        !spec_is_content_pos(Lang::Japanese, Some("接続詞"@)),
        spec_is_content_pos(Lang::Chinese, Some(tag)),
        spec_is_content_pos(lang, None),
{
    reveal_strlit("+");
    assert("+"@ =~= seq!['+']);
    reveal_strlit("NNG");
    lemma_first_morpheme_plain("NNG"@, rest);
    reveal_strlit("NNP");
    lemma_first_morpheme_plain("NNP"@, rest);
    reveal_strlit("NNB");
    lemma_first_morpheme_plain("NNB"@, rest);
    reveal_strlit("NNBC");
    lemma_first_morpheme_plain("NNBC"@, rest);
    reveal_strlit("NR");
    lemma_first_morpheme_plain("NR"@, rest);
    reveal_strlit("VV");
    lemma_first_morpheme_plain("VV"@, rest);
    reveal_strlit("VA");
    lemma_first_morpheme_plain("VA"@, rest);
    reveal_strlit("MM");
    lemma_first_morpheme_plain("MM"@, rest);
    reveal_strlit("MAG");
    lemma_first_morpheme_plain("MAG"@, rest);
    reveal_strlit("XSN");
    lemma_first_morpheme_plain("XSN"@, rest);
    reveal_strlit("XR");
    lemma_first_morpheme_plain("XR"@, rest);
    reveal_strlit("SH");
    lemma_first_morpheme_plain("SH"@, rest);
    reveal_strlit("SL");
    lemma_first_morpheme_plain("SL"@, rest);
}

/// The characters of `s`, in order.
pub(crate) fn chars_of(s: &str) -> (v: Vec<char>)
    ensures
        v@ == s@,
{
    broadcast use vstd::string::axiom_spec_iter;

    let mut v: Vec<char> = Vec::new();
    for c in it: s.chars()
        invariant
            it.seq() == s@,
            v@ == it.seq().take(it.index()),
    {
        v.push(c);
        assert(v@ =~= it.seq().take(it.index() + 1));
    }
    assert(v@ =~= s@);
    v
}

/// Whether `word` spells exactly the characters `v`.
pub(crate) fn chars_equal(v: &Vec<char>, word: &str) -> (r: bool)
    ensures
        r == (v@ == word@),
{
    let n = word.unicode_len();
    if n != v.len() {
        return false;
    }
    let mut i: usize = 0;
    while i < n
        invariant
            n == word@.len(),
            n == v@.len(),
            i <= n,
            forall|j: int| 0 <= j < i ==> v@[j] == word@[j],
        decreases n - i,
    {
        if v[i] != word.get_char(i) {
            return false;
        }
        i = i + 1;
    }
    assert(v@ =~= word@);
    true
}

/// The characters of `p` before its first `+`.
fn first_morpheme_chars(p: &Vec<char>) -> (r: Vec<char>)
    ensures
        r@ == first_morpheme_tag(p@),
{
    let mut r: Vec<char> = Vec::new();
    let mut i: usize = 0;
    assert(p@.skip(0) =~= p@);
    assert(r@ + first_morpheme_tag(p@) =~= first_morpheme_tag(p@));
    while i < p.len() && p[i] != '+'
        invariant
            i <= p@.len(),
            forall|j: int| 0 <= j < i ==> p@[j] != '+',
            r@ == p@.take(i as int),
            first_morpheme_tag(p@) == r@ + first_morpheme_tag(p@.skip(i as int)),
        decreases p.len() - i,
    {
        let ghost old_r = r@;
        r.push(p[i]);
        proof {
            let rest = p@.skip(i as int);
            assert(rest.drop_first() =~= p@.skip(i + 1));
            assert(rest[0] == p@[i as int]);
            assert(first_morpheme_tag(rest) == seq![p@[i as int]] + first_morpheme_tag(
                p@.skip(i + 1),
            ));
            assert(r@ =~= old_r + seq![p@[i as int]]);
            assert(r@ + first_morpheme_tag(p@.skip(i + 1)) =~= old_r + (seq![p@[i as int]]
                + first_morpheme_tag(p@.skip(i + 1))));
            assert(r@ =~= p@.take(i + 1));
        }
        i = i + 1;
    }
    proof {
        if i == p.len() {
            assert(p@.skip(i as int) =~= Seq::<char>::empty());
        } else {
            assert(p@.skip(i as int)[0] == '+');
        }
    }
    assert(r@ + Seq::<char>::empty() =~= r@);
    r
}

/// Dictionary version of the Korean dictionary (the default language).
pub fn dictionary_version() -> (v: String)
    ensures
        v@ == Lang::Korean.spec_dictionary_version(),
{
    Lang::Korean.dictionary_version()
}

} // verus!
