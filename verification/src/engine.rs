use vstd::prelude::*;
use vstd::string::StringSliceAdditionalSpecFns;
use crate::lang::Lang;
use crate::analyzer::{RawToken, matches_text};

verus! {

#[verifier::external_type_specification]
#[verifier::external_body]
pub struct ExLinderaTokenizer(lindera::tokenizer::Tokenizer);

#[verifier::external_type_specification]
#[verifier::external_body]
pub struct ExLinderaSegmenter(lindera::segmenter::Segmenter);

#[verifier::external_type_specification]
#[verifier::external_body]
pub struct ExLinderaDictionary(lindera::dictionary::Dictionary);

#[verifier::external_type_specification]
#[verifier::external_body]
pub struct ExLinderaError(lindera::error::LinderaError);

/// URIs of the dictionaries embedded in the engine, one per language.
pub open spec fn is_embedded_dictionary_uri(uri: Seq<char>) -> bool {
    ||| uri == Lang::Korean.spec_embedded_uri()
    ||| uri == Lang::Japanese.spec_embedded_uri()
    ||| uri == Lang::Chinese.spec_embedded_uri()
}

/// Whether the engine, as built, holds the embedded dictionary named by
/// `uri`: so it does exactly when lindera was compiled with the matching
/// `embed-*` feature, which fixes the answer for every process of one build.
pub uninterp spec fn lindera_dictionary_loads(uri: Seq<char>) -> bool;

/// What the engine's tokenizer over the dictionary named by `uri` (normal
/// mode, no user dictionary, no filters) reports for `text`: the morphemes in
/// order, or nothing when it fails.
pub uninterp spec fn lindera_tokenization(uri: Seq<char>, text: Seq<char>) -> Option<
    Seq<(Seq<char>, usize, usize, Option<Seq<char>>)>,
>;

/// A dictionary of the engine, with the URI it was loaded from.
pub struct EngineDictionary {
    dictionary: lindera::dictionary::Dictionary,
    uri: Ghost<Seq<char>>,
}

/// A segmenter of the engine, with the URI of its dictionary.
pub struct EngineSegmenter {
    segmenter: lindera::segmenter::Segmenter,
    uri: Ghost<Seq<char>>,
}

/// A tokenizer of the engine, with the URI of its dictionary.
pub struct EngineTokenizer {
    tokenizer: lindera::tokenizer::Tokenizer,
    uri: Ghost<Seq<char>>,
}

impl EngineDictionary {
    /// The URI this dictionary was loaded from.
    pub closed spec fn uri(&self) -> Seq<char> {
        self.uri@
    }
}

impl EngineSegmenter {
    /// The URI of this segmenter's dictionary.
    pub closed spec fn uri(&self) -> Seq<char> {
        self.uri@
    }
}

impl EngineTokenizer {
    /// The URI of this tokenizer's dictionary.
    pub closed spec fn uri(&self) -> Seq<char> {
        self.uri@
    }
}

/// Calls `lindera::dictionary::load_dictionary`. Claimed: the dictionary is
/// the one named by `uri`, and for an embedded URI the load succeeds exactly
/// when the engine was built with that dictionary (`lindera_dictionary_loads`);
/// the embedded scheme reads nothing from disk. For other URIs, whose load
/// reads files, nothing is claimed of the outcome.
#[verifier::external_body]
pub(crate) fn load_dictionary(uri: &str) -> (r: Result<EngineDictionary, lindera::error::LinderaError>)
    ensures
        is_embedded_dictionary_uri(uri@) ==> (r is Ok <==> lindera_dictionary_loads(uri@)),
        r matches Ok(d) ==> d.uri() == uri@,
{
    match lindera::dictionary::load_dictionary(uri) {
        Ok(dictionary) => Ok(EngineDictionary { dictionary, uri: Ghost(uri@) }),
        Err(e) => Err(e),
    }
}

/// Calls `lindera::segmenter::Segmenter::new` in normal mode without a user
/// dictionary. Claimed: the segmenter runs over the given dictionary.
#[verifier::external_body]
pub(crate) fn normal_segmenter(dictionary: EngineDictionary) -> (r: EngineSegmenter)
    ensures
        r.uri() == dictionary.uri(),
{
    EngineSegmenter {
        segmenter: lindera::segmenter::Segmenter::new(
            lindera::mode::Mode::Normal,
            dictionary.dictionary,
            None,
        ),
        uri: dictionary.uri,
    }
}

/// Calls `lindera::tokenizer::Tokenizer::new`: a tokenizer over the segmenter
/// with no character or token filters. Claimed: it runs over the segmenter's
/// dictionary.
#[verifier::external_body]
pub(crate) fn tokenizer_from(segmenter: EngineSegmenter) -> (r: EngineTokenizer)
    ensures
        r.uri() == segmenter.uri(),
{
    EngineTokenizer {
        tokenizer: lindera::tokenizer::Tokenizer::new(segmenter.segmenter),
        uri: segmenter.uri,
    }
}

/// Calls `lindera::tokenizer::Tokenizer::tokenize` and copies each morpheme's
/// surface, offsets and first detail field. Claimed, over an embedded
/// dictionary: the outcome is `lindera_tokenization(uri, text)`; and, as the
/// engine documents that byte positions are accurate relative to the
/// original text (the segmenter cuts each surface out of the text, no
/// character filter shifts it, and the embedded dictionaries' unknown-word
/// handling lets every sentence's best path reach its end), each surface is
/// the text's bytes between its offsets. Nothing is claimed over a
/// dictionary loaded from a file.
#[verifier::external_body]
pub(crate) fn segment_text(tokenizer: &EngineTokenizer, text: &str) -> (r: Result<
    Vec<RawToken>,
    lindera::error::LinderaError,
>)
    ensures
        is_embedded_dictionary_uri(tokenizer.uri()) ==> match r {
            Ok(v) => lindera_tokenization(tokenizer.uri(), text@) == Some(
                v@.map_values(|t: RawToken| t@),
            ),
            Err(_) => lindera_tokenization(tokenizer.uri(), text@) is None,
        },
        is_embedded_dictionary_uri(tokenizer.uri()) ==> (r matches Ok(v) ==> forall|i: int|
            0 <= i < v@.len() ==> matches_text(text.spec_bytes(), #[trigger] v@[i]@)),
{
    let mut tokens = tokenizer.tokenizer.tokenize(text)?;
    Ok(tokens.iter_mut().map(|t| RawToken {
        surface: t.surface.to_string(),
        byte_start: t.byte_start,
        byte_end: t.byte_end,
        detail: t.details().first().map(|d| d.to_string()),
    }).collect())
}

} // verus!
