//! Verified core of a CJK morphological text-search toolkit: language
//! metadata and part-of-speech filtering, middle-dot sub-token splitting,
//! the token stream handed to a text search parser, reciprocal rank fusion
//! grouping, and the planning decision of the hybrid rank scan.

pub mod lang;
pub mod token;
pub mod split;
pub mod engine;
pub mod analyzer;
pub mod parser;
pub mod rrf;
pub mod sql;
pub mod plan;

pub use analyzer::LinderaAnalyzer;
pub use lang::{
    dictionary_version, Lang, CC_CEDICT_VERSION, IPADIC_VERSION, KO_DIC_VERSION, LINDERA_VERSION,
};
pub use token::{Analyzer, Token};
