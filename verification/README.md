# kaze_nhanh

Japanese document summarisation and Git activity reports over Markdown
changes. The text-processing core is written in Verus: every function in
`src/` carries a contract over a mathematical model and is proved against it.

## Layout

- `src/` — the verified library
  - `lib.rs` — engine configuration and report options (validation, extension normalisation)
  - `text.rs`, `order.rs`, `grouping.rs` — characters, trimming, ordering, values gathered by key
  - `markdown.rs` — byte-offset to line mapping and heading sections (parse by pulldown-cmark)
  - `sentences.rs` — sentence segmentation (segments by saku, then split and trimmed)
  - `morpheme.rs`, `nodes.rs` — morphemes, content tokens and sentence nodes for ranking
  - `summary.rs`, `engine.rs`, `generation.rs` — choices around ranking and synthesis, the token window of generation
  - `git.rs`, `repo.rs` — diff lines, per-file aggregation, report rendering, repository errors
  - `correlation.rs`, `prompt.rs`, `rag.rs` — lines correlated with sections, the review prompt, report decisions
  - `metadata.rs` — finding a serialized tokenizer in model metadata
- `tests/` — tests of the library
- `app/` — the engine around the library: repository access (git2), model
  inference (candle, tokenizers), morphological analysis (sudachi) and the
  floating-point LexRank ranking
