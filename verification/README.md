# pg_glot_hybrid

Korean, Japanese and Chinese full-text and hybrid (BM25 + dense, reciprocal
rank fusion) search for PostgreSQL. Morphological analysis is done by the
pure-Rust `lindera` engine, over the dictionary its `embed-*` features
compile into it (ko-dic, IPADIC, CC-CEDICT).

## Dictionaries

`Cargo.toml` asks for `lindera` without the `embed-ko-dic`, `embed-ipadic`
and `embed-cc-cedict` features: their build scripts download the
dictionaries, and this build has no network. Built so, lindera refuses the
`embedded://` URIs, `LinderaAnalyzer::new` returns an error for every
language, and the text search parser reports that error on first use. The
library states this in its terms: an analyser is built exactly when the
engine holds the language's dictionary. Enable the three features where the
dictionaries can be fetched. `dictionary_version` names the dictionary
release and feature the project is made for, whether or not this build
embeds it.

## Layout

- `src/` — the library, verified with Verus:
  - `lang` — languages, text search configuration names, dictionary
    versions, the part-of-speech filter for indexing;
  - `split` — splitting surfaces at katakana middle dots with byte offsets;
  - `engine` — the calls into `lindera`, each tokenizer carrying the URI of
    its dictionary;
  - `analyzer` — the `lindera` analyser and the tokens made from its output;
  - `parser` — token types and the token stream of the `korean` text search
    parser;
  - `rrf` — the terms of reciprocal rank fusion grouped by id;
  - `sql`, `plan` — SQL literal quoting and the decision, and candidate
    query, of the `glot.rank` custom scan.
- `tests/` — tests of the library.
- `app/` — the PostgreSQL extension (pgrx): parser callbacks, the `glot`
  schema functions, the hybrid SQL functions and the custom scan hooks.
