//! Pluggable token counting for chunk-size decisions and reported estimates.

use vstd::prelude::*;
use crate::text::{chars_of, is_ws, lemma_words_join, split_whitespace_chars, words};

verus! {

/// Counts tokens in a string. Implementations back chunk-size decisions and the
/// reported `token_estimate`.
///
/// `spec_count` is the count as a function of the text; `count` computes it.
pub trait TokenCounter {
    /// The number of tokens in `text` under this counter.
    spec fn spec_count(&self, text: Seq<char>) -> nat;

    /// Number of tokens in `text` under this counter.
    fn count(&self, text: &str) -> (n: usize)
        ensures
            n == self.spec_count(text@),
    ;

    /// Stable provenance identifier, e.g. `"word-proxy"` or `"cl100k_base"`.
    fn name(&self) -> &'static str;

    /// Whether this counter is additive across a whitespace join: when it
    /// answers `true`, `count(a) + count(b) == count(a + sep + b)` for every
    /// `a`, `b` and every single whitespace character `sep`.
    ///
    /// The answer `false` is always safe, and it is what a counter answers
    /// unless it says otherwise.
    fn is_additive_over_whitespace_join(&self) -> (r: bool)
        ensures
            r ==> forall|a: Seq<char>, sep: char, b: Seq<char>|
                is_ws(sep) ==> #[trigger] self.spec_count(a + seq![sep] + b) == self.spec_count(a)
                    + self.spec_count(b),
        default_ensures
            !r,
    {
        false
    }
}

/// Zero-dependency default: whitespace-separated word count.
pub struct WordProxyCounter;

/// The word-proxy count: the number of whitespace-separated words.
pub open spec fn word_count(text: Seq<char>) -> nat {
    words(text).len()
}

/// The word count is additive across a whitespace join: a whitespace
/// separator cannot merge the last word of `a` with the first of `b`, nor
/// create a word that was in neither.
pub proof fn lemma_word_count_additive()
    ensures
        forall|a: Seq<char>, sep: char, b: Seq<char>|
            is_ws(sep) ==> #[trigger] word_count(a + seq![sep] + b) == word_count(a) + word_count(b),
{
    assert forall|a: Seq<char>, sep: char, b: Seq<char>| is_ws(sep) implies #[trigger] word_count(
        a + seq![sep] + b,
    ) == word_count(a) + word_count(b) by {
        lemma_words_join(a, sep, b);
    }
}

impl TokenCounter for WordProxyCounter {
    open spec fn spec_count(&self, text: Seq<char>) -> nat {
        word_count(text)
    }

    fn count(&self, text: &str) -> (n: usize) {
        let v = chars_of(text);
        let w = split_whitespace_chars(v.as_slice());
        w.len()
    }

    fn name(&self) -> (s: &'static str)
        ensures
            s@ == "word-proxy"@,
    {
        "word-proxy"
    }

    fn is_additive_over_whitespace_join(&self) -> (r: bool)
        ensures
            r,
    {
        proof {
            lemma_word_count_additive();
        }
        true
    }
}

#[verifier::external_type_specification]
#[verifier::external_body]
pub struct ExCoreBPE(tiktoken_rs::CoreBPE);

/// The number of BPE tokens in `text` under the cl100k_base tables and split
/// pattern (the only ones a `TiktokenCounter` holds), or `None` where the
/// tokenizer's regex engine gives up on `text`. The engine stops at fixed
/// stack and backtracking limits, so which texts it gives up on depends on
/// the text alone.
pub uninterp spec fn cl100k_token_count(text: Seq<char>) -> Option<nat>;

/// A counted length as a natural number.
pub open spec fn count_as_nat(r: Option<usize>) -> Option<nat> {
    match r {
        Some(n) => Some(n as nat),
        None => None,
    }
}

/// Loads the cl100k_base rank tables (calls `tiktoken_rs::cl100k_base`).
///
/// Claims that loading succeeds: the tables and the split pattern are fixed
/// data compiled into tiktoken-rs, so nothing at run time decides the result.
#[verifier::external_body]
fn load_cl100k_base() -> (r: Option<tiktoken_rs::CoreBPE>)
    ensures
        r is Some,
{
    tiktoken_rs::cl100k_base().ok()
}

/// Real token counter backed by tiktoken's cl100k_base BPE.
pub struct TiktokenCounter {
    bpe: tiktoken_rs::CoreBPE,
}

impl TiktokenCounter {
    /// Loads the cl100k_base BPE rank tables, which are compiled into the
    /// tokenizer crate: a counter of cl100k_base tokens.
    pub fn cl100k_base() -> (r: TiktokenCounter)
        ensures
            forall|text: Seq<char>| #[trigger] r.spec_count(text) == cl100k_count_or_max(text),
    {
        TiktokenCounter { bpe: load_cl100k_base().unwrap() }
    }
}

/// The number of tokens `CoreBPE::encode` yields for `text` with the
/// counter's tables and no special token allowed, or `None` where it reports
/// an error.
///
/// A `TiktokenCounter` is only ever made by `cl100k_base`, so its tables are
/// the cl100k_base tables and split pattern; the count then depends on the
/// text alone. With no special token allowed, `encode` splits the whole text
/// with the cl100k pattern exactly as `encode_ordinary` does, but hands back
/// the regex engine's error instead of panicking on it. (The special-token
/// pattern is an alternation of escaped literals, whose search cannot fail.)
/// Claims that the result is the cl100k_base count of the text and that the
/// empty text has no tokens: the text has no regex match, so no token is
/// produced.
#[verifier::external_body]
fn encode_token_count(counter: &TiktokenCounter, text: &str) -> (r: Option<usize>)
    ensures
        count_as_nat(r) == cl100k_token_count(text@),
        text@.len() == 0 ==> r == Some(0usize),
{
    match counter.bpe.encode(text, &std::collections::HashSet::new()) {
        Ok((tokens, _)) => Some(tokens.len()),
        Err(_) => None,
    }
}

/// The cl100k_base count of `text`; a text the tokenizer gives up on counts
/// as `usize::MAX` tokens, more than any budget.
pub open spec fn cl100k_count_or_max(text: Seq<char>) -> nat {
    match cl100k_token_count(text) {
        Some(n) => n,
        None => usize::MAX as nat,
    }
}

impl TokenCounter for TiktokenCounter {
    open spec fn spec_count(&self, text: Seq<char>) -> nat {
        cl100k_count_or_max(text)
    }

    fn count(&self, text: &str) -> (n: usize)
        ensures
            text@.len() == 0 ==> n == 0,
    {
        match encode_token_count(self, text) {
            Some(n) => n,
            None => usize::MAX,
        }
    }

    fn name(&self) -> (s: &'static str)
        ensures
            s@ == "cl100k_base"@,
    {
        "cl100k_base"
    }
}

} // verus!
