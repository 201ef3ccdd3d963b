//! Hybrid chunking.

use oxidize_pdf_core::element::{
    Element, ElementData, ElementMetadata, KeyValueElementData, TableElementData,
};
use oxidize_pdf_core::graph::ElementGraph;
use oxidize_pdf_core::hybrid_chunking::{
    split_by_sentences, split_into_sentences, ChunkGroup, HybridChunk, HybridChunkConfig,
    HybridChunker, MergePolicy,
};
use oxidize_pdf_core::token_counter::{TiktokenCounter, TokenCounter, WordProxyCounter};

fn para(text: &str) -> Element {
    Element::Paragraph(ElementData {
        text: text.to_string(),
        metadata: ElementMetadata::default(),
    })
}

fn title(text: &str) -> Element {
    Element::Title(ElementData {
        text: text.to_string(),
        metadata: ElementMetadata::default(),
    })
}

fn list_item(text: &str) -> Element {
    Element::ListItem(ElementData {
        text: text.to_string(),
        metadata: ElementMetadata::default(),
    })
}

fn under(mut e: Element, heading: &str) -> Element {
    e.set_parent_heading(Some(heading.to_string()));
    e
}

fn config(max_tokens: usize) -> HybridChunkConfig {
    HybridChunkConfig {
        max_tokens,
        ..HybridChunkConfig::default()
    }
}

#[test]
fn from_group_recomputes_oversized_and_preserves_content() {
    let big = Element::Paragraph(ElementData {
        text: "one two three four five six seven eight".to_string(),
        metadata: ElementMetadata::default(),
    });
    // Budget far below the token count → oversized.
    let group = ChunkGroup::new(vec![big.clone()], Some("H".to_string()));
    let hc = HybridChunk::from_group(group, 2);
    assert!(
        hc.is_oversized(),
        "8-word chunk over a 2-token budget is oversized"
    );
    assert_eq!(hc.heading_context.as_deref(), Some("H"));
    assert_eq!(hc.elements().len(), 1);

    // Generous budget → not oversized.
    let group2 = ChunkGroup::new(vec![big], None);
    let hc2 = HybridChunk::from_group(group2, 100);
    assert!(!hc2.is_oversized());
}

#[test]
fn default_hybrid_chunker_stamps_word_count() {
    let elements = vec![para("alpha beta gamma delta")];
    let chunker = HybridChunker::new(HybridChunkConfig::default());
    let chunks = chunker.chunk(&elements);
    assert_eq!(chunks.len(), 1);
    assert_eq!(chunks[0].token_estimate(), 4);
}

#[test]
fn with_token_counter_accepts_word_proxy_explicitly() {
    let elements = vec![para("alpha beta gamma")];
    let chunker =
        HybridChunker::new(HybridChunkConfig::default()).with_token_counter(WordProxyCounter);
    let chunks = chunker.chunk(&elements);
    assert_eq!(chunks[0].token_estimate(), 3);
}

#[test]
fn config_defaults() {
    let c = HybridChunkConfig::default();
    assert_eq!(c.max_tokens, 512);
    assert_eq!(c.overlap_tokens, 50);
    assert!(c.merge_adjacent);
    assert!(c.propagate_headings);
    assert_eq!(c.merge_policy, MergePolicy::AnyInlineContent);
}

#[test]
fn empty_input_gives_no_chunks() {
    let chunker = HybridChunker::new(HybridChunkConfig::default());
    assert!(chunker.chunk(&[]).is_empty());
}

#[test]
fn adjacent_paragraphs_merge_within_budget() {
    let chunker = HybridChunker::new(config(5));
    let chunks = chunker.chunk(&[para("a b"), para("c d"), para("e f")]);
    assert_eq!(chunks.len(), 2);
    assert_eq!(chunks[0].text(), "a b\nc d");
    assert_eq!(chunks[0].token_estimate(), 4);
    assert_eq!(chunks[1].text(), "e f");
    assert!(!chunks[0].is_oversized());
}

#[test]
fn titles_start_a_new_chunk() {
    let chunker = HybridChunker::new(config(100));
    let chunks = chunker.chunk(&[para("a"), title("T"), para("b")]);
    let texts: Vec<String> = chunks.iter().map(|c| c.text()).collect();
    assert_eq!(texts, vec!["a", "T", "b"]);
}

#[test]
fn same_type_only_keeps_list_items_apart_from_paragraphs() {
    let strict = HybridChunkConfig {
        merge_policy: MergePolicy::SameTypeOnly,
        ..config(100)
    };
    let chunks = HybridChunker::new(strict).chunk(&[para("a"), list_item("b"), list_item("c")]);
    let texts: Vec<String> = chunks.iter().map(|c| c.text()).collect();
    assert_eq!(texts, vec!["a", "b\nc"]);

    let loose = HybridChunker::new(config(100)).chunk(&[para("a"), list_item("b")]);
    assert_eq!(loose.len(), 1);
}

#[test]
fn merging_off_gives_one_chunk_per_element() {
    let c = HybridChunkConfig {
        merge_adjacent: false,
        ..config(100)
    };
    let chunks = HybridChunker::new(c).chunk(&[para("a"), para("b")]);
    assert_eq!(chunks.len(), 2);
}

#[test]
fn key_values_display_as_key_colon_value() {
    let kv = Element::KeyValue(KeyValueElementData {
        key: "Name".to_string(),
        value: "Ada".to_string(),
        metadata: ElementMetadata::default(),
    });
    let chunks = HybridChunker::new(config(100)).chunk(&[kv]);
    assert_eq!(chunks[0].text(), "Name: Ada");
}

#[test]
fn oversized_paragraph_is_split_at_sentences() {
    let chunker = HybridChunker::new(config(3));
    let chunks = chunker.chunk(&[under(para("One two. Three four five six. Seven."), "H")]);
    let texts: Vec<String> = chunks.iter().map(|c| c.text()).collect();
    assert_eq!(texts, vec!["One two.", "Three four five six.", "Seven."]);
    let flags: Vec<bool> = chunks.iter().map(|c| c.is_oversized()).collect();
    assert_eq!(flags, vec![false, true, false]);
    for c in &chunks {
        assert_eq!(c.heading_context.as_deref(), Some("H"));
    }
}

#[test]
fn oversized_table_is_an_atomic_oversized_chunk() {
    let table = Element::Table(TableElementData::new(
        vec![vec!["a b".to_string(), "c d".to_string()]],
        ElementMetadata::default(),
    ));
    let chunks = HybridChunker::new(config(2)).chunk(&[table]);
    assert_eq!(chunks.len(), 1);
    assert!(chunks[0].is_oversized());
    assert_eq!(chunks[0].text(), "a b | c d");
    assert_eq!(chunks[0].token_estimate(), 5);
}

#[test]
fn heading_context_and_full_text() {
    let chunks = HybridChunker::new(config(100)).chunk(&[under(para("body"), "Intro")]);
    assert_eq!(chunks[0].heading_context.as_deref(), Some("Intro"));
    assert_eq!(chunks[0].full_text(), "Intro\n\nbody");

    let no_headings = HybridChunkConfig {
        propagate_headings: false,
        ..config(100)
    };
    let chunks = HybridChunker::new(no_headings).chunk(&[under(para("body"), "Intro")]);
    assert_eq!(chunks[0].heading_context, None);
    assert_eq!(chunks[0].full_text(), "body");
}

#[test]
fn every_element_lands_in_exactly_one_chunk_in_order() {
    let elements = vec![
        para("E0 a b c"),
        title("E1"),
        para("E2 x"),
        list_item("E3 y"),
        para("E4 z z z z z z z z z"),
    ];
    let chunks = HybridChunker::new(config(5)).chunk(&elements);
    let mut flat: Vec<Element> = Vec::new();
    for c in &chunks {
        flat.extend(c.elements().iter().cloned());
    }
    // E4 is over the budget but has no sentence break, so it stays whole.
    assert_eq!(flat, elements);
}

#[test]
fn budget_holds_under_bpe_for_chunks_not_flagged() {
    let counter = TiktokenCounter::cl100k_base();
    let elements = vec![
        para("https://example.com/a https://example.com/b"),
        para("token1 1suffix token2 2suffix"),
        para("short"),
        para("Another sentence here. And one more there."),
    ];
    let chunks = HybridChunker::new(config(8))
        .with_token_counter(counter)
        .chunk(&elements);
    let measure = TiktokenCounter::cl100k_base();
    for c in &chunks {
        assert_eq!(c.token_estimate(), measure.count(&c.text()));
        if !c.is_oversized() {
            assert!(c.token_estimate() <= 8);
        }
    }
}

#[test]
fn split_into_sentences_examples() {
    assert_eq!(
        split_into_sentences("One. Two! Three? Four"),
        vec!["One.", "Two!", "Three?", "Four"]
    );
    assert_eq!(split_into_sentences("a\n\nb"), vec!["a", "b"]);
    assert_eq!(split_into_sentences("3.14 is pi."), vec!["3.14 is pi."]);
    assert!(split_into_sentences("   ").is_empty());
}

#[test]
fn split_by_sentences_packs_greedily() {
    let f = split_by_sentences("a b. c. d e f g. h.", &WordProxyCounter, 3);
    assert_eq!(f, vec!["a b. c.", "d e f g.", "h."]);
    // No sentence at all: the text itself.
    assert_eq!(split_by_sentences("   ", &WordProxyCounter, 3), vec!["   "]);
}

#[test]
fn chunk_with_graph_keeps_small_sections_together() {
    let elements = vec![
        para("pre"),
        title("T1"),
        para("a b"),
        para("c"),
        title("T2"),
        para("d"),
    ];
    let graph = ElementGraph::build(&elements);
    let chunks = HybridChunker::new(config(100)).chunk_with_graph(&elements, &graph);
    let texts: Vec<String> = chunks.iter().map(|c| c.text()).collect();
    assert_eq!(texts, vec!["pre", "T1\na b\nc", "T2\nd"]);
    assert_eq!(chunks[1].heading_context.as_deref(), Some("T1"));
    assert_eq!(chunks[2].heading_context.as_deref(), Some("T2"));
    assert_eq!(chunks[0].heading_context, None);
}

#[test]
fn chunk_with_graph_splits_large_section_with_section_heading() {
    let elements = vec![title("Big"), para("a b c"), para("d e f")];
    let graph = ElementGraph::build(&elements);
    let chunks = HybridChunker::new(config(4)).chunk_with_graph(&elements, &graph);
    let texts: Vec<String> = chunks.iter().map(|c| c.text()).collect();
    assert_eq!(texts, vec!["Big", "a b c", "d e f"]);
    for c in &chunks {
        assert_eq!(c.heading_context.as_deref(), Some("Big"));
    }
}

#[test]
fn element_graph_sections() {
    let elements = vec![para("p"), title("T"), para("a"), title("U"), para("b")];
    let g = ElementGraph::build(&elements);
    assert_eq!(g.top_level_sections(), vec![1, 3]);
    assert_eq!(g.elements_in_section(1), vec![2]);
    assert_eq!(g.elements_in_section(3), vec![4]);
    assert_eq!(g.elements_in_section(0), Vec::<usize>::new());
    assert_eq!(g.parent_of(2), Some(1));
    assert_eq!(g.parent_of(0), None);
}

#[test]
fn into_group_keeps_elements_and_heading() {
    let chunks = HybridChunker::new(config(100)).chunk(&[under(para("x"), "H")]);
    let g = chunks[0].clone().into_group();
    assert_eq!(g.elements.len(), 1);
    assert_eq!(g.heading_context.as_deref(), Some("H"));
}

#[test]
fn chunk_texts_conserve_input_words_when_splitting() {
    let elements = vec![
        para("First sentence here. Second one!  Third?\nFourth line"),
        title("A title"),
        para("tail words"),
    ];
    let chunks = HybridChunker::new(config(3)).chunk(&elements);
    let input: Vec<String> = elements
        .iter()
        .flat_map(|e| e.display_text().split_whitespace().map(str::to_string).collect::<Vec<_>>())
        .collect();
    let output: Vec<String> = chunks
        .iter()
        .flat_map(|c| c.text().split_whitespace().map(str::to_string).collect::<Vec<_>>())
        .collect();
    assert_eq!(output, input);
    assert!(chunks.len() > 3, "the first paragraph must have been split");
}

fn summary(chunks: &[HybridChunk]) -> Vec<(String, Option<String>, usize, bool)> {
    chunks
        .iter()
        .map(|c| (c.text(), c.heading_context.clone(), c.token_estimate(), c.is_oversized()))
        .collect()
}

#[test]
fn overlap_budget_changes_no_chunk() {
    let elements = vec![
        under(para("a b c. d e f."), "H"),
        para("g h"),
        title("T"),
        list_item("i j k l m n o"),
        para("p"),
    ];
    let base = summary(&HybridChunker::new(config(4)).chunk(&elements));
    for overlap in [0, 1, 3, 50, 10_000] {
        let cfg = HybridChunkConfig {
            overlap_tokens: overlap,
            ..config(4)
        };
        assert_eq!(summary(&HybridChunker::new(cfg).chunk(&elements)), base);
        let graph = ElementGraph::build(&elements);
        assert_eq!(
            summary(&HybridChunker::new(cfg).chunk_with_graph(&elements, &graph)),
            summary(&HybridChunker::new(config(4)).chunk_with_graph(&elements, &graph))
        );
    }
}

#[test]
fn graph_sections_keep_the_budget_under_bpe() {
    let elements = vec![
        para("preamble text"),
        title("Intro"),
        para("token1 1suffix"),
        para("token2 2suffix"),
        title("Links"),
        para("https://example.com/a https://example.com/b"),
        para("short"),
    ];
    let graph = ElementGraph::build(&elements);
    let measure = TiktokenCounter::cl100k_base();
    for max in [3, 6, 10, 40] {
        let chunks = HybridChunker::new(config(max))
            .with_token_counter(TiktokenCounter::cl100k_base())
            .chunk_with_graph(&elements, &graph);
        for c in &chunks {
            assert_eq!(c.token_estimate(), measure.count(&c.text()));
            if !c.is_oversized() {
                assert!(c.token_estimate() <= max);
            }
        }
    }
}

#[test]
fn explicit_word_proxy_chunks_as_the_default() {
    let elements = vec![
        under(para("a b c. d e f."), "H"),
        para("g h"),
        title("T"),
        list_item("i j k l m n o"),
        para("p"),
    ];
    let plain = HybridChunker::new(config(4));
    let explicit = HybridChunker::new(config(4)).with_token_counter(WordProxyCounter);
    assert_eq!(summary(&plain.chunk(&elements)), summary(&explicit.chunk(&elements)));
    let graph = ElementGraph::build(&elements);
    assert_eq!(
        summary(&plain.chunk_with_graph(&elements, &graph)),
        summary(&explicit.chunk_with_graph(&elements, &graph))
    );
}

#[test]
fn oversized_exactly_when_over_budget() {
    let elements = vec![
        para("one two three four five six"),
        Element::Table(TableElementData::new(
            vec![vec!["w1 w2 w3 w4 w5".to_string()]],
            ElementMetadata::default(),
        )),
        para("Short one. A much longer sentence without any break here."),
        para("x y"),
    ];
    for max in [1, 2, 3, 5, 8] {
        let chunker = HybridChunker::new(config(max)).with_token_counter(WordProxyCounter);
        for c in chunker.chunk(&elements) {
            assert_eq!(c.token_estimate(), WordProxyCounter.count(&c.text()));
            assert_eq!(c.is_oversized(), c.token_estimate() > max);
        }
    }
}
