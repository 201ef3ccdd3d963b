//! RAG chunks and their deterministic context prefixes.

use oxidize_pdf_core::element::{Element, ElementData, ElementMetadata};
use oxidize_pdf_core::hybrid_chunking::{
    ContextFormat, ContextMode, HybridChunk, HybridChunkConfig, HybridChunker,
};
use oxidize_pdf_core::rag::{build_context_prefix, DocumentSource, RagChunk};
use oxidize_pdf_core::token_counter::{TiktokenCounter, TokenCounter, WordProxyCounter};

fn src(title: Option<&str>, author: Option<&str>, filename: Option<&str>) -> DocumentSource {
    DocumentSource {
        title: title.map(str::to_string),
        author: author.map(str::to_string),
        filename: filename.map(str::to_string),
        ..DocumentSource::default()
    }
}

fn hp(parts: &[&str]) -> Vec<String> {
    parts.iter().map(|s| s.to_string()).collect()
}

#[test]
fn labeled_full_fields() {
    let s = src(Some("Annual Report"), Some("Acme Corp"), None);
    let p = build_context_prefix(
        ContextFormat::Labeled,
        Some(&s),
        &hp(&["1 Intro", "1.2 Scope"]),
        Some((3, 4)),
    );
    assert_eq!(
        p.as_deref(),
        Some("Document: Annual Report — Acme Corp\nSection: 1 Intro › 1.2 Scope (p. 3–4)")
    );
}

#[test]
fn labeled_title_only() {
    let s = src(Some("Doc"), None, None);
    let p = build_context_prefix(ContextFormat::Labeled, Some(&s), &[], None);
    assert_eq!(p.as_deref(), Some("Document: Doc"));
}

#[test]
fn labeled_filename_fallback_when_no_title() {
    let s = src(None, None, Some("report.pdf"));
    let p = build_context_prefix(ContextFormat::Labeled, Some(&s), &[], None);
    assert_eq!(p.as_deref(), Some("Document: report.pdf"));
}

#[test]
fn labeled_section_only_without_source() {
    let p = build_context_prefix(ContextFormat::Labeled, None, &hp(&["A", "B"]), None);
    assert_eq!(p.as_deref(), Some("Section: A › B"));
}

#[test]
fn labeled_single_page() {
    let p = build_context_prefix(ContextFormat::Labeled, None, &hp(&["A"]), Some((7, 7)));
    assert_eq!(p.as_deref(), Some("Section: A (p. 7)"));
}

#[test]
fn labeled_nothing_is_none() {
    let s = src(None, None, None);
    assert!(build_context_prefix(ContextFormat::Labeled, Some(&s), &[], Some((3, 3))).is_none());
    assert!(build_context_prefix(ContextFormat::Labeled, None, &[], None).is_none());
}

#[test]
fn prose_full_fields() {
    let s = src(Some("Annual Report"), Some("Acme Corp"), None);
    let p = build_context_prefix(
        ContextFormat::Prose,
        Some(&s),
        &hp(&["1 Intro", "1.2 Scope"]),
        Some((3, 4)),
    );
    assert_eq!(
        p.as_deref(),
        Some(
            "This chunk is from \"Annual Report\" by Acme Corp, section \"1 Intro › 1.2 Scope\" (p. 3–4)."
        )
    );
}

#[test]
fn prose_title_only() {
    let s = src(Some("Doc"), None, None);
    let p = build_context_prefix(ContextFormat::Prose, Some(&s), &[], None);
    assert_eq!(p.as_deref(), Some("This chunk is from \"Doc\"."));
}

#[test]
fn prose_section_only_without_source() {
    let p = build_context_prefix(ContextFormat::Prose, None, &hp(&["A", "B"]), Some((5, 5)));
    assert_eq!(
        p.as_deref(),
        Some("This chunk is from section \"A › B\" (p. 5).")
    );
}

#[test]
fn prose_filename_fallback_and_no_section() {
    let s = src(None, Some("Ann"), Some("f.pdf"));
    let p = build_context_prefix(ContextFormat::Prose, Some(&s), &[], None);
    assert_eq!(p.as_deref(), Some("This chunk is from \"f.pdf\" by Ann."));
}

#[test]
fn prose_nothing_is_none() {
    assert!(build_context_prefix(ContextFormat::Prose, None, &[], Some((1, 2))).is_none());
}

/// A paragraph on page 3 under the breadcrumb `1 Intro › 1.2 Scope`.
fn para(text: &str) -> Element {
    let mut e = Element::Paragraph(ElementData {
        text: text.to_string(),
        metadata: ElementMetadata::default(),
    });
    e.metadata_mut().page = 3;
    e.set_parent_heading(Some("1.2 Scope".to_string()));
    e.set_heading_path(vec!["1 Intro".to_string(), "1.2 Scope".to_string()]);
    e
}

fn one_chunk() -> Vec<HybridChunk> {
    let chunker = HybridChunker::new(HybridChunkConfig::default());
    chunker.chunk(&[para("Alpha beta gamma."), para("Delta epsilon.")])
}

fn source() -> DocumentSource {
    let mut s = DocumentSource::with_file(Some("annual.pdf".to_string()), Some("h123".to_string()));
    s.title = Some("Annual Report".to_string());
    s.author = Some("Acme".to_string());
    s
}

#[test]
fn mode_none_full_text_equals_text() {
    let hcs = one_chunk();
    let c = RagChunk::from_hybrid_chunk_with_source_and_mode(
        0,
        &hcs[0],
        &source(),
        ContextMode::NoContext,
    );
    assert_eq!(c.full_text, c.text, "None mode: full_text is the bare text");
}

#[test]
fn mode_heading_matches_legacy_behavior() {
    let hcs = one_chunk();
    let legacy = RagChunk::from_hybrid_chunk_with_source(0, &hcs[0], &source());
    let heading = RagChunk::from_hybrid_chunk_with_source_and_mode(
        0,
        &hcs[0],
        &source(),
        ContextMode::Heading,
    );
    assert_eq!(
        heading.full_text, legacy.full_text,
        "Heading mode must be byte-identical to the plain constructor"
    );
}

#[test]
fn mode_contextual_labeled_prefix_and_clean_text() {
    let hcs = one_chunk();
    let c = RagChunk::from_hybrid_chunk_with_source_and_mode(
        0,
        &hcs[0],
        &source(),
        ContextMode::Contextual(ContextFormat::Labeled),
    );
    assert!(
        c.full_text
            .starts_with("Document: Annual Report — Acme\nSection: 1 Intro › 1.2 Scope (p. 3)\n\n"),
        "labeled prefix missing/wrong: {:?}",
        c.full_text
    );
    assert!(
        c.full_text.ends_with(&c.text),
        "full_text must end with the bare chunk text"
    );
    assert!(
        !c.text.contains("Document:") && !c.text.contains("Section:"),
        "display text must stay context-free: {:?}",
        c.text
    );
}

#[test]
fn mode_contextual_prose_prefix() {
    let hcs = one_chunk();
    let c = RagChunk::from_hybrid_chunk_with_source_and_mode(
        0,
        &hcs[0],
        &source(),
        ContextMode::Contextual(ContextFormat::Prose),
    );
    assert!(
        c.full_text.starts_with(
            "This chunk is from \"Annual Report\" by Acme, section \"1 Intro › 1.2 Scope\" (p. 3).\n\n"
        ),
        "prose prefix missing/wrong: {:?}",
        c.full_text
    );
    assert!(c.full_text.ends_with(&c.text));
}

#[test]
fn contextual_is_deterministic() {
    let hcs = one_chunk();
    let mk = || {
        RagChunk::from_hybrid_chunk_with_source_and_mode(
            0,
            &hcs[0],
            &source(),
            ContextMode::Contextual(ContextFormat::Labeled),
        )
    };
    let a = mk();
    let b = mk();
    assert_eq!(a.full_text, b.full_text, "prefix is a pure function");
    assert_eq!(
        a.metadata.chunk_id, b.metadata.chunk_id,
        "chunk_id reproducible"
    );
}

#[test]
fn contextual_without_source_is_section_only() {
    let hcs = one_chunk();
    let labeled = RagChunk::from_hybrid_chunk_with_mode(
        0,
        &hcs[0],
        ContextMode::Contextual(ContextFormat::Labeled),
    );
    assert!(
        labeled
            .full_text
            .starts_with("Section: 1 Intro › 1.2 Scope (p. 3)\n\n"),
        "no-source labeled prefix should be section-only: {:?}",
        labeled.full_text
    );
    assert!(
        !labeled.full_text.contains("Document:"),
        "no source → no Document line"
    );

    let prose = RagChunk::from_hybrid_chunk_with_mode(
        0,
        &hcs[0],
        ContextMode::Contextual(ContextFormat::Prose),
    );
    assert!(
        prose
            .full_text
            .starts_with("This chunk is from section \"1 Intro › 1.2 Scope\" (p. 3).\n\n"),
        "no-source prose prefix should be section-only: {:?}",
        prose.full_text
    );
}

#[test]
fn chunk_id_is_mode_independent_when_doc_hash_set() {
    let hcs = one_chunk();
    let heading = RagChunk::from_hybrid_chunk_with_source_and_mode(
        0,
        &hcs[0],
        &source(),
        ContextMode::Heading,
    );
    let contextual = RagChunk::from_hybrid_chunk_with_source_and_mode(
        0,
        &hcs[0],
        &source(),
        ContextMode::Contextual(ContextFormat::Labeled),
    );
    assert_eq!(
        heading.metadata.chunk_id, contextual.metadata.chunk_id,
        "with doc_hash set, chunk_id is derived from the hash, not full_text"
    );
}

#[test]
fn rag_chunk_fields_from_hybrid_chunk() {
    let hcs = one_chunk();
    let c = RagChunk::from_hybrid_chunk(4, &hcs[0]);
    assert_eq!(c.chunk_index, 4);
    assert_eq!(c.text, "Alpha beta gamma.\nDelta epsilon.");
    assert_eq!(c.full_text, "1.2 Scope\n\nAlpha beta gamma.\nDelta epsilon.");
    assert_eq!(c.page_numbers, vec![3]);
    assert_eq!(c.element_types, vec!["paragraph".to_string(), "paragraph".to_string()]);
    assert_eq!(c.heading_context.as_deref(), Some("1.2 Scope"));
    // The stamped count measures the embedding text, heading included.
    assert_eq!(c.token_estimate, 7);
    assert!(!c.is_oversized);
    assert_eq!(c.metadata.chunk_id, "chunk-4");
    assert_eq!(c.metadata.element_count, 2);
    assert_eq!(c.metadata.heading_path, vec!["1 Intro".to_string(), "1.2 Scope".to_string()]);
    assert!(c.metadata.source.is_none());
}

#[test]
fn source_stamped_and_hash_in_id() {
    let hcs = one_chunk();
    let c = RagChunk::from_hybrid_chunk_with_source(12, &hcs[0], &source());
    assert_eq!(c.metadata.chunk_id, "h123-12");
    assert_eq!(
        c.metadata.source.as_ref().and_then(|s| s.title.as_deref()),
        Some("Annual Report")
    );
}

#[test]
fn page_span_in_prefix_uses_sorted_pages() {
    let mut a = para("one.");
    a.metadata_mut().page = 9;
    let mut b = para("two.");
    b.metadata_mut().page = 2;
    let chunks = HybridChunker::new(HybridChunkConfig::default()).chunk(&[a, b]);
    let c = RagChunk::from_hybrid_chunk_with_mode(
        0,
        &chunks[0],
        ContextMode::Contextual(ContextFormat::Labeled),
    );
    assert_eq!(c.page_numbers, vec![2, 9]);
    assert!(c.full_text.starts_with("Section: 1 Intro › 1.2 Scope (p. 2–9)\n\n"));
}

#[test]
fn stamped_count_measures_the_text_designated_for_embedding() {
    let hcs = one_chunk();
    for mode in [
        ContextMode::NoContext,
        ContextMode::Heading,
        ContextMode::Contextual(ContextFormat::Labeled),
        ContextMode::Contextual(ContextFormat::Prose),
    ] {
        let r = RagChunk::from_hybrid_chunk_with_mode(0, &hcs[0], mode);
        assert_eq!(r.token_estimate, WordProxyCounter.count(&r.full_text));
        let s = RagChunk::from_hybrid_chunk_with_source_and_mode(0, &hcs[0], &source(), mode);
        assert_eq!(s.token_estimate, WordProxyCounter.count(&s.full_text));
    }
}

#[test]
fn heading_parent_alone_counts_in_the_estimate() {
    // A paragraph "a" whose chunk carries heading "H": the embedding text is
    // "H", a blank line, "a": two words.
    let mut p = para("a");
    p.metadata_mut().parent_heading = Some("H".to_string());
    let hcs = HybridChunker::default().chunk(&[p]);
    assert_eq!(hcs[0].token_estimate(), 1);
    let r = RagChunk::from_hybrid_chunk_with_mode(0, &hcs[0], ContextMode::Heading);
    assert_eq!(r.full_text, "H\n\na");
    assert_eq!(r.token_estimate, 2);
}

#[test]
fn with_source_matches_heading_mode_field_by_field() {
    let hcs = one_chunk();
    let a = RagChunk::from_hybrid_chunk_with_source(3, &hcs[0], &source());
    let b = RagChunk::from_hybrid_chunk_with_source_and_mode(3, &hcs[0], &source(), ContextMode::Heading);
    assert_eq!(a.chunk_index, b.chunk_index);
    assert_eq!(a.text, b.text);
    assert_eq!(a.full_text, b.full_text);
    assert_eq!(a.page_numbers, b.page_numbers);
    assert_eq!(a.element_types, b.element_types);
    assert_eq!(a.heading_context, b.heading_context);
    assert_eq!(a.token_estimate, b.token_estimate);
    assert_eq!(a.is_oversized, b.is_oversized);
    assert_eq!(a.metadata.chunk_id, b.metadata.chunk_id);
    assert_eq!(a.metadata.heading_path, b.metadata.heading_path);
    assert_eq!(a.metadata.element_count, b.metadata.element_count);
    assert_eq!(
        a.metadata.source.as_ref().and_then(|s| s.title.clone()),
        b.metadata.source.as_ref().and_then(|s| s.title.clone())
    );
}

#[test]
fn counter_injected_for_the_estimate() {
    let hcs = one_chunk();
    let bpe = TiktokenCounter::cl100k_base();
    let r = RagChunk::from_hybrid_chunk_with_counter(0, &hcs[0], None, ContextMode::Heading, &bpe);
    assert_eq!(r.token_estimate, bpe.count(&r.full_text));
    assert_eq!(r.full_text, "1.2 Scope\n\nAlpha beta gamma.\nDelta epsilon.");
    assert!(r.metadata.source.is_none());
    let with_src =
        RagChunk::from_hybrid_chunk_with_counter(0, &hcs[0], Some(&source()), ContextMode::Heading, &bpe);
    assert_eq!(with_src.metadata.chunk_id, "h123-0");
    assert!(with_src.metadata.source.is_some());
}
