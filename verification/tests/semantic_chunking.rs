//! Semantic chunking.

use oxidize_pdf_core::element::{Element, ElementData, ElementMetadata, TableElementData};
use oxidize_pdf_core::semantic_chunking::{SemanticChunkConfig, SemanticChunker};
use oxidize_pdf_core::token_counter::WordProxyCounter;

fn para(text: &str) -> Element {
    Element::Paragraph(ElementData {
        text: text.to_string(),
        metadata: ElementMetadata::default(),
    })
}

fn on_page(mut e: Element, page: u32) -> Element {
    e.metadata_mut().page = page;
    e
}

#[test]
fn default_semantic_chunker_stamps_word_count() {
    let elements = vec![para("one two three four five")];
    let chunker = SemanticChunker::new(SemanticChunkConfig::default());
    let chunks = chunker.chunk(&elements);
    assert_eq!(chunks.len(), 1);
    assert_eq!(chunks[0].token_estimate(), 5);
}

#[test]
fn semantic_with_token_counter_builder_exists() {
    let elements = vec![para("one two three")];
    let chunker =
        SemanticChunker::new(SemanticChunkConfig::default()).with_token_counter(WordProxyCounter);
    let chunks = chunker.chunk(&elements);
    assert_eq!(chunks[0].token_estimate(), 3);
}

#[test]
fn semantic_config_builders() {
    let c = SemanticChunkConfig::new(100).with_overlap(7);
    assert_eq!(c.max_tokens, 100);
    assert_eq!(c.overlap_tokens, 7);
    assert!(c.respect_element_boundaries);
}

#[test]
fn semantic_packs_until_budget_then_starts_new_chunk_without_overlap() {
    let config = SemanticChunkConfig::new(4).with_overlap(0);
    let chunker = SemanticChunker::new(config);
    let chunks = chunker.chunk(&[para("a b"), para("c d"), para("e f")]);
    assert_eq!(chunks.len(), 2);
    assert_eq!(chunks[0].text(), "a b\nc d");
    assert_eq!(chunks[1].text(), "e f");
    assert!(!chunks[0].is_oversized());
}

#[test]
fn semantic_overlap_carries_trailing_element() {
    let config = SemanticChunkConfig::new(4).with_overlap(2);
    let chunker = SemanticChunker::new(config);
    let chunks = chunker.chunk(&[para("a b"), para("c d"), para("e f")]);
    assert_eq!(chunks.len(), 2);
    assert_eq!(chunks[0].text(), "a b\nc d");
    // The last element of the first chunk starts the next one.
    assert_eq!(chunks[1].text(), "c d\ne f");
}

#[test]
fn semantic_oversized_table_is_its_own_chunk() {
    let table = Element::Table(TableElementData::new(
        vec![vec!["w1 w2 w3 w4 w5 w6".to_string()]],
        ElementMetadata::default(),
    ));
    let chunker = SemanticChunker::new(SemanticChunkConfig::new(3).with_overlap(0));
    let chunks = chunker.chunk(&[table]);
    assert_eq!(chunks.len(), 1);
    assert!(chunks[0].is_oversized());
    assert_eq!(chunks[0].token_estimate(), 6);
}

#[test]
fn semantic_splits_oversized_paragraph_at_sentences() {
    let chunker = SemanticChunker::new(SemanticChunkConfig::new(3).with_overlap(0));
    let chunks = chunker.chunk(&[para("One two. Three four. Five six seven eight.")]);
    let texts: Vec<String> = chunks.iter().map(|c| c.text()).collect();
    assert_eq!(texts, vec!["One two.", "Three four.", "Five six seven eight."]);
}

#[test]
fn semantic_page_numbers_sorted_and_unique() {
    let chunker = SemanticChunker::new(SemanticChunkConfig::new(100).with_overlap(0));
    let chunks = chunker.chunk(&[
        on_page(para("a"), 5),
        on_page(para("b"), 2),
        on_page(para("c"), 5),
    ]);
    assert_eq!(chunks.len(), 1);
    assert_eq!(chunks[0].page_numbers(), vec![2, 5]);
    assert_eq!(chunks[0].elements().len(), 3);
}

#[test]
fn semantic_empty_input() {
    let chunker = SemanticChunker::default();
    assert!(chunker.chunk(&[]).is_empty());
}

#[test]
fn semantic_flag_follows_the_stamped_count() {
    // With the overlap carried over, the second chunk holds both paragraphs
    // and counts 6 words: over the budget of 5, so it is flagged.
    let chunker = SemanticChunker::new(SemanticChunkConfig::new(5));
    let chunks = chunker.chunk(&[para("a b c"), para("d e f")]);
    assert_eq!(chunks.len(), 2);
    assert_eq!(chunks[0].text(), "a b c");
    assert!(!chunks[0].is_oversized());
    assert_eq!(chunks[1].text(), "a b c\nd e f");
    assert_eq!(chunks[1].token_estimate(), 6);
    assert!(chunks[1].is_oversized());
    for c in &chunks {
        assert_eq!(c.is_oversized(), c.token_estimate() > 5);
    }
}

#[test]
fn semantic_sentence_longer_than_budget_is_flagged() {
    let chunker = SemanticChunker::new(SemanticChunkConfig::new(3).with_overlap(0));
    let chunks = chunker.chunk(&[para("One two. Five six seven eight.")]);
    assert_eq!(chunks.len(), 2);
    assert!(!chunks[0].is_oversized());
    assert!(chunks[1].is_oversized());
    assert_eq!(chunks[1].token_estimate(), 4);
}

fn non_whitespace(s: &str) -> String {
    s.chars().filter(|c| !c.is_whitespace()).collect()
}

#[test]
fn semantic_without_overlap_keeps_every_non_whitespace_character() {
    let table = Element::Table(TableElementData::new(
        vec![vec!["w1 w2 w3 w4 w5 w6".to_string()]],
        ElementMetadata::default(),
    ));
    let elements = vec![
        para("Pi is 3.14 exactly. Two more words!  tail without end"),
        para("x y"),
        table,
        para("a b c d e f g. h i."),
    ];
    let input: String = elements.iter().map(|e| non_whitespace(&e.display_text())).collect();
    for max in [1, 2, 3, 5, 100] {
        let chunker = SemanticChunker::new(SemanticChunkConfig::new(max).with_overlap(0));
        let output: String = chunker
            .chunk(&elements)
            .iter()
            .map(|c| non_whitespace(&c.text()))
            .collect();
        assert_eq!(output, input);
    }
}
