use vstd::prelude::*;
use vstd::utf8::*;
use vstd::string::StringExecFns;
use vstd::string::StringSliceAdditionalSpecFns;
use crate::analyzer::{LinderaAnalyzer, expand_tokens};
use crate::engine::lindera_tokenization;
use crate::token::{Token, Analyzer};

verus! {

/// Token type of the built-in text search parser for a word.
pub const WORD: usize = 2;

/// Token type of the built-in text search parser for blank space.
pub const BLANK: usize = 12;

/// `char::is_alphanumeric`: the character is Unicode Alphabetic or Numeric.
pub uninterp spec fn is_alphanumeric_char(c: char) -> bool;

/// Calls `char::is_alphanumeric`. Claimed: the answer depends on the
/// character alone (the Unicode tables compiled into std).
#[verifier::external_body]
fn char_is_alphanumeric(c: char) -> (r: bool)
    ensures
        r == is_alphanumeric_char(c),
{
    c.is_alphanumeric()
}

/// Word when the surface holds at least one letter or digit (Hangul and Han
/// are letters), blank space otherwise.
pub open spec fn spec_lextype(surface: Seq<char>) -> usize {
    if exists|i: int| 0 <= i < surface.len() && is_alphanumeric_char(#[trigger] surface[i]) {
        WORD
    } else {
        BLANK
    }
}

/// The text-search token type of a surface.
pub fn lextype_of(surface: &str) -> (r: usize)
    ensures
        r == spec_lextype(surface@),
{
    broadcast use vstd::string::axiom_spec_iter;

    for c in it: surface.chars()
        invariant
            it.seq() == surface@,
            forall|j: int| 0 <= j < it.index() ==> !is_alphanumeric_char(#[trigger] surface@[j]),
    {
        if char_is_alphanumeric(c) {
            assert(is_alphanumeric_char(surface@[it.index()]));
            return WORD;
        }
    }
    BLANK
}

/// Token types by surface: a single character is a word exactly when it is
/// alphanumeric; a surface holding an alphanumeric character anywhere is a
/// word, whatever its length; joining two surfaces gives a word exactly when
/// one of them is a word; the empty surface is blank; and every surface is
/// either a word or blank.
pub proof fn law_lextype_words(a: Seq<char>, b: Seq<char>, c: char, i: int)
    ensures
        spec_lextype(seq![c]) == WORD <==> is_alphanumeric_char(c),
        spec_lextype(seq![c]) == BLANK <==> !is_alphanumeric_char(c),
        0 <= i < a.len() && is_alphanumeric_char(a[i]) ==> spec_lextype(a) == WORD,
        spec_lextype(a + b) == WORD <==> (spec_lextype(a) == WORD || spec_lextype(b) == WORD),
        spec_lextype(Seq::<char>::empty()) == BLANK,
        spec_lextype(a) == WORD || spec_lextype(a) == BLANK,
{
    let s = seq![c];
    if is_alphanumeric_char(c) {
        assert(is_alphanumeric_char(s[0]));
    }
    let ab = a + b;
    if spec_lextype(ab) == WORD {
        let j = choose|j: int| 0 <= j < ab.len() && is_alphanumeric_char(#[trigger] ab[j]);
        if j < a.len() {
            assert(ab[j] == a[j]);
        } else {
            assert(ab[j] == b[j - a.len()]);
        }
    }
    if spec_lextype(a) == WORD {
        let j = choose|j: int| 0 <= j < a.len() && is_alphanumeric_char(#[trigger] a[j]);
        assert(ab[j] == a[j]);
    }
    if spec_lextype(b) == WORD {
        let j = choose|j: int| 0 <= j < b.len() && is_alphanumeric_char(#[trigger] b[j]);
        assert(ab[j + a.len()] == b[j]);
    }
}

/// A token ready for the text search parser: its surface and token type.
pub struct OutTok {
    pub surface: String,
    pub lextype: usize,
}

/// State of one parse: all tokens of the input and the next one to hand out.
pub struct ParserState {
    tokens: Vec<OutTok>,
    idx: usize,
}

impl View for ParserState {
    type V = (Seq<(Seq<char>, usize)>, int);

    closed spec fn view(&self) -> Self::V {
        (self.tokens@.map_values(|t: OutTok| (t.surface@, t.lextype)), self.idx as int)
    }
}

/// The parser tokens made from analyser tokens, in order.
pub open spec fn out_tokens(tokens: Seq<(Seq<char>, usize, usize, Option<Seq<char>>)>) -> Seq<
    (Seq<char>, usize),
> {
    tokens.map_values(|t: (Seq<char>, usize, usize, Option<Seq<char>>)| (t.0, spec_lextype(t.0)))
}

/// One call of the token getter: the next token's index, or nothing once
/// all are handed out.
pub open spec fn spec_next(v: (Seq<(Seq<char>, usize)>, int)) -> ((Seq<(Seq<char>, usize)>, int), Option<int>) {
    if 0 <= v.1 < v.0.len() {
        ((v.0, v.1 + 1), Some(v.1))
    } else {
        (v, None)
    }
}

/// What `k` successive calls of the getter hand out.
pub open spec fn spec_emitted(v: (Seq<(Seq<char>, usize)>, int), k: nat) -> Seq<Option<int>>
    decreases k,
{
    if k == 0 {
        Seq::empty()
    } else {
        seq![spec_next(v).1] + spec_emitted(spec_next(v).0, (k - 1) as nat)
    }
}

impl ParserState {
    #[verifier::type_invariant]
    closed spec fn wf(&self) -> bool {
        self.idx <= self.tokens@.len()
    }

    /// A parse over `tokens`, starting at the first.
    pub fn new(tokens: Vec<Token>) -> (st: ParserState)
        ensures
            st@ == (out_tokens(tokens@.map_values(|t: Token| t@)), 0int),
    {
        let mut out: Vec<OutTok> = Vec::new();
        let mut i: usize = 0;
        while i < tokens.len()
            invariant
                i <= tokens@.len(),
                out@.len() == i,
                out@.map_values(|t: OutTok| (t.surface@, t.lextype)) == out_tokens(
                    tokens@.map_values(|t: Token| t@),
                ).take(i as int),
            decreases tokens.len() - i,
        {
            let s = tokens[i].surface.as_str();
            let lextype = lextype_of(s);
            let ghost old_out = out@;
            let ot = OutTok { surface: String::from_str(s), lextype };
            out.push(ot);
            proof {
                assert(out@ == old_out.push(ot));
                assert(out@.map_values(|t: OutTok| (t.surface@, t.lextype)) =~= old_out.map_values(
                    |t: OutTok| (t.surface@, t.lextype),
                ).push((s@, lextype)));
                assert(out_tokens(tokens@.map_values(|t: Token| t@)).take(i + 1) =~= out_tokens(
                    tokens@.map_values(|t: Token| t@),
                ).take(i as int).push((s@, lextype)));
            }
            i = i + 1;
        }
        proof {
            assert(out_tokens(tokens@.map_values(|t: Token| t@)).take(i as int) =~= out_tokens(
                tokens@.map_values(|t: Token| t@),
            ));
        }
        ParserState { tokens: out, idx: 0 }
    }

    /// Hands out the index of the next token, or `None` once all are out.
    pub fn next_token(&mut self) -> (r: Option<usize>)
        ensures
            (final(self)@, match r {
                Some(i) => Some(i as int),
                None => None,
            }) == spec_next(old(self)@),
    {
        proof {
            use_type_invariant(&*self);
        }
        if self.idx < self.tokens.len() {
            let i = self.idx;
            self.idx = self.idx + 1;
            proof {
                assert(self@.0 =~= old(self)@.0);
            }
            Some(i)
        } else {
            None
        }
    }

    /// Number of tokens of this parse; the next token to hand out is one of
    /// them or just past the last.
    pub fn len(&self) -> (n: usize)
        ensures
            n == self@.0.len(),
            0 <= self@.1 <= n,
    {
        proof {
            use_type_invariant(self);
        }
        self.tokens.len()
    }

    /// Surface of token `i`.
    pub fn surface(&self, i: usize) -> (s: &str)
        requires
            i < self@.0.len(),
        ensures
            s@ == self@.0[i as int].0,
    {
        self.tokens[i].surface.as_str()
    }

    /// Token type of token `i`.
    pub fn lextype(&self, i: usize) -> (t: usize)
        requires
            i < self@.0.len(),
        ensures
            t == self@.0[i as int].1,
    {
        self.tokens[i].lextype
    }
}

/// Calls `std::str::from_utf8`. As its documentation says, it succeeds
/// exactly when the bytes are valid UTF-8, and the text has those bytes.
#[verifier::external_body]
fn str_from_utf8(bytes: &[u8]) -> (r: Option<&str>)
    ensures
        r is Some <==> valid_utf8(bytes@),
        r matches Some(s) ==> s.spec_bytes() == bytes@,
{
    match std::str::from_utf8(bytes) {
        Ok(s) => Some(s),
        Err(_) => None,
    }
}

/// Input handed to the parser start that is not valid UTF-8.
#[derive(Debug, Clone, Copy, PartialEq, Eq, Structural)]
pub enum ParseStartError {
    InvalidUtf8,
}

/// The parser input as text: it must be UTF-8.
pub fn decode_input(input: &[u8]) -> (r: Result<&str, ParseStartError>)
    ensures
        r is Ok <==> valid_utf8(input@),
        r matches Ok(t) ==> t.spec_bytes() == input@ && t@ == decode_utf8(input@),
{
    match str_from_utf8(input) {
        Some(t) => {
            proof {
                vstd::utf8::encode_utf8_decode_utf8(t@);
            }
            Ok(t)
        },
        None => Err(ParseStartError::InvalidUtf8),
    }
}

/// Starts a parse of `input`: the bytes must be UTF-8; the text is analysed
/// once and every token gets its surface and token type.
pub fn parse_start(analyzer: &LinderaAnalyzer, input: &[u8]) -> (r: Result<ParserState, ParseStartError>)
    ensures
        r is Ok <==> valid_utf8(input@),
        r matches Ok(st) ==> st@ == (
            out_tokens(
                match lindera_tokenization(analyzer.spec_lang().spec_embedded_uri(), decode_utf8(input@)) {
                    Some(raws) => expand_tokens(raws),
                    None => Seq::empty(),
                },
            ),
            0int,
        ),
{
    let text = decode_input(input)?;
    let tokens = analyzer.tokenize(text);
    Ok(ParserState::new(tokens))
}

/// Starting a parse yields exactly the tokens of the input, in order, and
/// then nothing: the `k` first calls of the getter hand out indices `0, 1, ...`
/// while tokens remain and `None` afterwards.
pub proof fn law_parser_hands_out_each_token_once(toks: Seq<(Seq<char>, usize)>, i: int, k: nat)
    requires
        0 <= i <= toks.len(),
    ensures
        spec_emitted((toks, i), k).len() == k,
        forall|j: int|
            0 <= j < k ==> #[trigger] spec_emitted((toks, i), k)[j] == if i + j < toks.len() {
                Some(i + j)
            } else {
                None::<int>
            },
    decreases k,
{
    if k > 0 {
        let next = spec_next((toks, i));
        law_parser_hands_out_each_token_once(toks, next.0.1, (k - 1) as nat);
        assert forall|j: int| 0 <= j < k implies #[trigger] spec_emitted((toks, i), k)[j] == if i
            + j < toks.len() {
            Some(i + j)
        } else {
            None::<int>
        } by {
            if j > 0 {
                assert(spec_emitted((toks, i), k)[j] == spec_emitted(next.0, (k - 1) as nat)[j - 1]);
            }
        }
    }
}

} // verus!
