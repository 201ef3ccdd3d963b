//! Token counters: the word proxy and the cl100k_base BPE counter.

use oxidize_pdf_core::token_counter::{TiktokenCounter, TokenCounter, WordProxyCounter};

fn cl100k() -> TiktokenCounter {
    TiktokenCounter::cl100k_base()
}

#[test]
fn word_proxy_matches_split_whitespace() {
    let c = WordProxyCounter;
    assert_eq!(c.count(""), 0);
    assert_eq!(c.count("hello world"), 2);
    assert_eq!(c.count("  multiple   spaces  "), 2);
    assert_eq!(c.count("punct, and! more?"), 3);
    assert_eq!(c.name(), "word-proxy");

    // Property: the default counter must stay identical to the historical
    // `split_whitespace().count()` word-proxy.
    for s in ["", "a b c", "  x  y ", "line1\nline2\tthree", "único café"] {
        assert_eq!(c.count(s), s.split_whitespace().count());
    }
}

#[test]
fn cl100k_exact_reference_counts() {
    let c = cl100k();
    // Pinned cl100k_base values (OpenAI reference tokenizer).
    assert_eq!(c.count(""), 0);
    assert_eq!(c.count("hello world"), 2);
    assert_eq!(c.count("The quick brown fox"), 4);
    assert_eq!(c.name(), "cl100k_base");
}

#[test]
fn cl100k_diverges_from_word_proxy_on_subword() {
    let tk = cl100k();
    let wp = WordProxyCounter;
    // A URL is one whitespace "word" but many BPE tokens.
    let url = "https://example.com/verify";
    assert_eq!(wp.count(url), 1);
    assert!(
        tk.count(url) > 1,
        "tiktoken should split the URL: {}",
        tk.count(url)
    );
}

#[test]
fn empty_text_costs_nothing() {
    assert_eq!(WordProxyCounter.count(""), 0, "word-proxy charges for empty text");
    assert_eq!(cl100k().count(""), 0, "cl100k_base charges for empty text");
}

#[test]
fn word_proxy_declares_additivity() {
    assert!(
        WordProxyCounter.is_additive_over_whitespace_join(),
        "the default counter must stay additive: the chunker's fast path is \
         conditioned on this answer"
    );
}

#[test]
fn bpe_does_not_claim_additivity() {
    let c = cl100k();
    assert!(!c.is_additive_over_whitespace_join());
}

#[test]
fn bpe_non_additivity_has_a_witness() {
    let c = cl100k();
    let found = (0..200).find_map(|i| {
        let a = format!("token{i}");
        let b = format!("{i}suffix");
        if c.count(&a) + c.count(&b) != c.count(&format!("{a}\n{b}")) {
            Some((a, b))
        } else {
            None
        }
    });
    assert!(
        found.is_some(),
        "expected at least one pair where BPE is non-additive across the join"
    );
}

#[test]
fn word_proxy_additivity_on_examples() {
    let c = WordProxyCounter;
    for (a, b) in [("", ""), ("a b", "c"), (" x ", " y z"), ("\n", "w")] {
        for sep in ['\n', ' ', '\t', '\r', '\u{000B}', '\u{00A0}'] {
            let joined = format!("{a}{sep}{b}");
            assert_eq!(c.count(&joined), c.count(a) + c.count(b));
        }
    }
}

#[test]
fn word_proxy_counts_unicode_whitespace() {
    // U+00A0 and U+3000 are whitespace; U+200B (zero width space) is not.
    assert_eq!(WordProxyCounter.count("a\u{00A0}b\u{3000}c"), 3);
    assert_eq!(WordProxyCounter.count("a\u{200B}b"), 1);
}

#[test]
fn cl100k_text_the_tokenizer_gives_up_on_counts_as_max() {
    // A run of whitespace too long for the tokenizer's regex engine: the
    // counter answers usize::MAX (over every budget) instead of panicking.
    let mut text = " ".repeat(1_100_000);
    text.push('a');
    assert_eq!(cl100k().count(&text), usize::MAX);
}
