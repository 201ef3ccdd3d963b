# oxidize_pdf_core

Document-processing pieces of a PDF toolkit, written in Verus: their
behaviour is stated as `requires`/`ensures` contracts over mathematical
models and proved.

## Layout

- `src/text.rs` — characters and words: Unicode whitespace, trimming,
  joining, splitting on whitespace and newlines, decimal rendering.
- `src/collections.rs` — `NameSet` and `NameMap`, small string collections
  with a set/map view.
- `src/objects.rs` — PDF objects and insertion-ordered dictionaries.
- `src/content_stream.rs` — content-stream tokenizer and the font utilities:
  extracting `Tf` font references, rewriting them through a rename map,
  prefixing preserved fonts, collision-only renaming, embedded-font detection.
- `src/element.rs` — document elements (titles, paragraphs, tables, …), their
  displayed text, table structures and the pages they sit on.
- `src/graph.rs` — the section structure of a list of elements.
- `src/token_counter.rs` — the `TokenCounter` trait, the word-proxy counter
  and the cl100k_base BPE counter (through `tiktoken-rs`).
- `src/hybrid_chunking.rs` — the hybrid chunker (merging, budgets, sentence
  splitting, heading context, section-aware chunking).
- `src/chunk_laws.rs` — what holds of every output of the hybrid chunker:
  budgets, stamped counts, headings, element and word conservation; the
  budget of section-aware chunking; neither depends on the overlap budget.
- `src/rewrite_laws.rs` — renaming fonts in a content stream and renaming
  them back gives the stream back.
- `src/semantic_chunking.rs` — the semantic chunker, with overlap; without
  overlap it keeps every non-whitespace character of its input, in order.
- `src/rag.rs` — RAG chunks and their deterministic context prefixes.
- `src/export.rs` — element-aware Markdown export, including multi-level
  table headers.
- `src/shading.rs` — shading types, mesh layout validation and the
  most-significant-bit-first bit writer for mesh vertex streams.
- `app/lib.rs` — JSON serialization of RAG chunks (serde mirrors of the
  library types).
- `tests/` — tests of the library on concrete inputs.
