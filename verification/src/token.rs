use vstd::prelude::*;

verus! {

/// One morpheme. `byte_start`/`byte_end` are UTF-8 byte offsets into the
/// analysed text; `pos` is the part-of-speech tag when the dictionary has one.
#[derive(Debug, Clone, PartialEq, Eq)]
pub struct Token {
    pub surface: String,
    pub byte_start: usize,
    pub byte_end: usize,
    pub pos: Option<String>,
}

impl View for Token {
    type V = (Seq<char>, usize, usize, Option<Seq<char>>);

    open spec fn view(&self) -> Self::V {
        (self.surface@, self.byte_start, self.byte_end, self.pos.deep_view())
    }
}

/// A morphological analyser. Implementations are shared immutably by a
/// backend process, hence `Send + Sync`.
pub trait Analyzer: Send + Sync {
    fn tokenize(&self, text: &str) -> Vec<Token>;
}

} // verus!
