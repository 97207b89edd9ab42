use vstd::prelude::*;
use vstd::utf8::*;
use vstd::string::StringExecFns;
use vstd::string::StringSliceAdditionalSpecFns;
use crate::lang::{Lang, chars_of, chars_equal};
use crate::split::{
    split_middle_dot, middle_dot_segments, law_middle_dot_segments_shape,
    law_middle_dot_segments_on_char_boundaries, lemma_valid_utf8_between_boundaries,
};
use crate::token::{Token, Analyzer};
use crate::engine::{
    EngineTokenizer, lindera_dictionary_loads, lindera_tokenization, load_dictionary,
    normal_segmenter, tokenizer_from, segment_text,
};

verus! {

broadcast use vstd::utf8::encode_utf8_decode_utf8;

/// A morpheme as the segmentation engine reports it: the surface, its byte
/// offsets and the first detail field of its dictionary entry (the
/// part-of-speech tag in the embedded dictionaries).
pub struct RawToken {
    pub surface: String,
    pub byte_start: usize,
    pub byte_end: usize,
    pub detail: Option<String>,
}

impl View for RawToken {
    type V = (Seq<char>, usize, usize, Option<Seq<char>>);

    open spec fn view(&self) -> Self::V {
        (self.surface@, self.byte_start, self.byte_end, self.detail.deep_view())
    }
}

/// The tag kept for a morpheme: its first detail field unless that is empty
/// or the unknown-word marker `UNK`.
pub open spec fn indexed_pos(detail: Option<Seq<char>>) -> Option<Seq<char>> {
    match detail {
        Some(d) => if d.len() == 0 || d == "UNK"@ {
            None
        } else {
            Some(d)
        },
        None => None,
    }
}

/// The tokens made from one engine morpheme: its surface split at middle
/// dots, each piece at its own byte offsets and with the morpheme's tag.
pub open spec fn sub_tokens(raw: (Seq<char>, usize, usize, Option<Seq<char>>)) -> Seq<
    (Seq<char>, usize, usize, Option<Seq<char>>),
> {
    let b = encode_utf8(raw.0);
    let segs = middle_dot_segments(b);
    Seq::new(
        segs.len(),
        |j: int|
            (
                decode_utf8(b.subrange(segs[j].0, segs[j].1)),
                (raw.1 + segs[j].0) as usize,
                (raw.1 + segs[j].1) as usize,
                indexed_pos(raw.3),
            ),
    )
}

/// The tokens made from a morpheme sequence, in order.
pub open spec fn expand_tokens(raws: Seq<(Seq<char>, usize, usize, Option<Seq<char>>)>) -> Seq<
    (Seq<char>, usize, usize, Option<Seq<char>>),
>
    decreases raws.len(),
{
    if raws.len() == 0 {
        Seq::empty()
    } else {
        expand_tokens(raws.drop_last()) + sub_tokens(raws.last())
    }
}

/// Whether a token's offsets point at its surface in the UTF-8 bytes of a text.
pub open spec fn matches_text(text: Seq<u8>, t: (Seq<char>, usize, usize, Option<Seq<char>>)) -> bool {
    &&& t.1 <= t.2 <= text.len()
    &&& text.subrange(t.1 as int, t.2 as int) == encode_utf8(t.0)
}

proof fn lemma_sub_tokens_match_text(text: Seq<u8>, raw: (Seq<char>, usize, usize, Option<Seq<char>>))
    requires
        matches_text(text, raw),
    ensures
        forall|j: int|
            0 <= j < sub_tokens(raw).len() ==> matches_text(text, #[trigger] sub_tokens(raw)[j]),
{
    let b = encode_utf8(raw.0);
    encode_utf8_valid_utf8(raw.0);
    law_middle_dot_segments_shape(b);
    law_middle_dot_segments_on_char_boundaries(b);
    let segs = middle_dot_segments(b);
    assert(b.len() == raw.2 - raw.1);
    assert forall|j: int| 0 <= j < sub_tokens(raw).len() implies matches_text(
        text,
        #[trigger] sub_tokens(raw)[j],
    ) by {
        let a = segs[j].0;
        let e = segs[j].1;
        lemma_valid_utf8_between_boundaries(b, a, e);
        decode_utf8_encode_utf8(b.subrange(a, e));
        let t = sub_tokens(raw)[j];
        assert(t.1 == raw.1 + a);
        assert(t.2 == raw.1 + e);
        assert(text.subrange(t.1 as int, t.2 as int) =~= b.subrange(a, e));
    }
}

/// Splitting keeps offsets honest: when every engine morpheme sits in the
/// text at its offsets, every token does too (`text[start..end] == surface`,
/// in bytes), whatever the language.
pub proof fn law_tokens_keep_text_offsets(
    text: Seq<u8>,
    raws: Seq<(Seq<char>, usize, usize, Option<Seq<char>>)>,
)
    requires
        forall|i: int| 0 <= i < raws.len() ==> matches_text(text, #[trigger] raws[i]),
    ensures
        forall|j: int|
            0 <= j < expand_tokens(raws).len() ==> matches_text(text, #[trigger] expand_tokens(raws)[j]),
    decreases raws.len(),
{
    if raws.len() > 0 {
        let init = raws.drop_last();
        assert forall|i: int| 0 <= i < init.len() implies matches_text(text, #[trigger] init[i]) by {
            assert(init[i] == raws[i]);
        }
        law_tokens_keep_text_offsets(text, init);
        assert(matches_text(text, raws[raws.len() - 1]));
        lemma_sub_tokens_match_text(text, raws.last());
        let left = expand_tokens(init);
        let right = sub_tokens(raws.last());
        assert forall|j: int| 0 <= j < expand_tokens(raws).len() implies matches_text(
            text,
            #[trigger] expand_tokens(raws)[j],
        ) by {
            if j < left.len() {
                assert(expand_tokens(raws)[j] == left[j]);
            } else {
                assert(expand_tokens(raws)[j] == right[j - left.len()]);
            }
        }
    }
}

/// The tag of an engine morpheme that is kept on its tokens.
fn indexed_detail(detail: &Option<String>) -> (r: Option<String>)
    ensures
        r.deep_view() == indexed_pos(detail.deep_view()),
{
    match detail {
        Some(d) => {
            if d.as_str().is_empty() || chars_equal(&chars_of(d.as_str()), "UNK") {
                None
            } else {
                Some(d.clone())
            }
        },
        None => None,
    }
}

fn copy_pos(pos: &Option<String>) -> (r: Option<String>)
    ensures
        r.deep_view() == pos.deep_view(),
{
    match pos {
        Some(p) => Some(p.clone()),
        None => None,
    }
}

/// Turns the engine's morphemes into tokens: each surface is split at
/// middle dots, offsets stay those of the text, and the first detail field
/// is kept as the tag unless it is empty or `UNK`.
pub fn tokens_from_segments(raws: &Vec<RawToken>) -> (r: Vec<Token>)
    requires
        forall|i: int|
            0 <= i < raws@.len() ==> #[trigger] raws@[i].byte_start + encode_utf8(
                raws@[i].surface@,
            ).len() <= usize::MAX,
    ensures
        r@.map_values(|t: Token| t@) == expand_tokens(raws@.map_values(|t: RawToken| t@)),
{
    let ghost views = raws@.map_values(|t: RawToken| t@);
    let mut out: Vec<Token> = Vec::new();
    let mut i: usize = 0;
    while i < raws.len()
        invariant
            i <= raws@.len(),
            views == raws@.map_values(|t: RawToken| t@),
            forall|k: int|
                0 <= k < raws@.len() ==> #[trigger] raws@[k].byte_start + encode_utf8(
                    raws@[k].surface@,
                ).len() <= usize::MAX,
            out@.map_values(|t: Token| t@) == expand_tokens(views.take(i as int)),
        decreases raws.len() - i,
    {
        let rt = &raws[i];
        let pos = indexed_detail(&rt.detail);
        let surface = rt.surface.as_str();
        let pieces = split_middle_dot(surface, rt.byte_start);
        let ghost before = out@.map_values(|t: Token| t@);
        let ghost subs = sub_tokens(views[i as int]);
        proof {
            assert(views[i as int] == rt@);
            assert(surface.spec_bytes() == encode_utf8(rt.surface@));
        }
        let mut j: usize = 0;
        while j < pieces.len()
            invariant
                j <= pieces@.len(),
                pieces@.len() == subs.len(),
                subs == sub_tokens(rt@),
                surface.spec_bytes() == encode_utf8(rt.surface@),
                pos.deep_view() == indexed_pos(rt.detail.deep_view()),
                forall|m: int|
                    #![trigger pieces@[m]]
                    0 <= m < pieces@.len() ==> {
                        let seg = middle_dot_segments(surface.spec_bytes())[m];
                        &&& pieces@[m].0.spec_bytes() == surface.spec_bytes().subrange(
                            seg.0,
                            seg.1,
                        )
                        &&& pieces@[m].1 == rt.byte_start + seg.0
                        &&& pieces@[m].2 == rt.byte_start + seg.1
                    },
                out@.map_values(|t: Token| t@) == before + subs.take(j as int),
            decreases pieces.len() - j,
        {
            let (piece, start, end) = pieces[j];
            let tok = Token {
                surface: String::from_str(piece),
                byte_start: start,
                byte_end: end,
                pos: copy_pos(&pos),
            };
            let ghost old_out = out@;
            out.push(tok);
            proof {
                assert(out@ == old_out.push(tok));
                assert(out@.map_values(|t: Token| t@) =~= old_out.map_values(|t: Token| t@).push(
                    tok@,
                ));
                let seg = middle_dot_segments(surface.spec_bytes())[j as int];
                assert(decode_utf8(encode_utf8(piece@)) == piece@);
                assert(tok@ == subs[j as int]);
                assert(subs.take(j + 1) =~= subs.take(j as int).push(subs[j as int]));
                assert(out@.map_values(|t: Token| t@) =~= before + subs.take(j + 1));
            }
            j = j + 1;
        }
        proof {
            assert(subs.take(j as int) =~= subs);
            assert(views.take(i + 1).drop_last() =~= views.take(i as int));
            assert(views.take(i + 1).last() == views[i as int]);
        }
        i = i + 1;
    }
    proof {
        assert(views.take(i as int) =~= views);
    }
    out
}

/// Analyser backed by the segmentation engine with the embedded dictionary
/// of one language. Loading a dictionary is expensive: build one per process.
pub struct LinderaAnalyzer {
    tokenizer: EngineTokenizer,
    lang: Lang,
}

impl LinderaAnalyzer {
    /// The tokenizer runs over the embedded dictionary of the analyser's language.
    #[verifier::type_invariant]
    closed spec fn wf(&self) -> bool {
        self.tokenizer.uri() == self.lang.spec_embedded_uri()
    }

    /// The language whose dictionary this analyser uses.
    pub closed spec fn spec_lang(&self) -> Lang {
        self.lang
    }

    /// An analyser over the embedded dictionary of `lang`. It is built exactly
    /// when the engine holds that dictionary.
    pub fn new(lang: Lang) -> (r: Result<Self, lindera::error::LinderaError>)
        ensures
            r is Ok <==> lindera_dictionary_loads(lang.spec_embedded_uri()),
            r matches Ok(a) ==> a.spec_lang() == lang,
    {
        let dictionary = load_dictionary(lang.embedded_uri())?;
        let segmenter = normal_segmenter(dictionary);
        Ok(LinderaAnalyzer { tokenizer: tokenizer_from(segmenter), lang })
    }

    /// The language of this analyser.
    pub fn lang(&self) -> (l: Lang)
        ensures
            l == self.spec_lang(),
    {
        self.lang
    }

    /// The Korean analyser, `new(Lang::Korean)`.
    pub fn new_ko_dic() -> (r: Result<Self, lindera::error::LinderaError>)
        ensures
            r is Ok <==> lindera_dictionary_loads(Lang::Korean.spec_embedded_uri()),
            r matches Ok(a) ==> a.spec_lang() == Lang::Korean,
    {
        Self::new(Lang::Korean)
    }
}

impl Analyzer for LinderaAnalyzer {
    /// The tokens of `text`: the engine's morphemes split at middle dots, with
    /// offsets into `text`; nothing when the engine fails. Every token's
    /// surface is the text's bytes between its offsets.
    fn tokenize(&self, text: &str) -> (r: Vec<Token>)
        ensures
            r@.map_values(|t: Token| t@) == match lindera_tokenization(
                self.spec_lang().spec_embedded_uri(),
                text@,
            ) {
                Some(raws) => expand_tokens(raws),
                None => Seq::empty(),
            },
            forall|j: int| 0 <= j < r@.len() ==> matches_text(text.spec_bytes(), #[trigger] r@[j]@),
    {
        proof {
            use_type_invariant(self);
        }
        match segment_text(&self.tokenizer, text) {
            Ok(raws) => {
                let ghost views = raws@.map_values(|t: RawToken| t@);
                proof {
                    assert forall|i: int| 0 <= i < raws@.len() implies #[trigger] raws@[i].byte_start
                        + encode_utf8(raws@[i].surface@).len() <= usize::MAX by {
                        assert(matches_text(text.spec_bytes(), raws@[i]@));
                    }
                    assert forall|i: int| 0 <= i < views.len() implies matches_text(
                        text.spec_bytes(),
                        #[trigger] views[i],
                    ) by {
                        assert(matches_text(text.spec_bytes(), raws@[i]@));
                    }
                    law_tokens_keep_text_offsets(text.spec_bytes(), views);
                }
                let r = tokens_from_segments(&raws);
                proof {
                    assert forall|j: int| 0 <= j < r@.len() implies matches_text(
                        text.spec_bytes(),
                        #[trigger] r@[j]@,
                    ) by {
                        assert(r@.map_values(|t: Token| t@)[j] == r@[j]@);
                    }
                }
                r
            },
            Err(_) => Vec::new(),
        }
    }
}

} // verus!
