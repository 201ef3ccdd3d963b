//! Semantic chunking: elements are packed into chunks of at most a token
//! budget, structural elements are kept whole, oversized text elements are
//! cut at sentence ends, and consecutive chunks may share trailing elements
//! as overlap.

use vstd::prelude::*;
use crate::element::{
    has_page, sorted_pages, strictly_increasing, displays, strings_view, views, Element, ElementData, ElementMetadata,
    ElementView, MetadataView,
};
use crate::hybrid_chunking::{chunk_text, is_delim};
use crate::element::lemma_displays_push;
use crate::text::{
    append_str, chars_of, glyphs, glyphs_of_all, is_ws, lemma_glyphs_add, lemma_glyphs_join,
    lemma_glyphs_trim, lemma_glyphs_ws, push_char, string_of, trim, trim_chars,
};
use crate::token_counter::{TokenCounter, WordProxyCounter};

verus! {

/// Configuration of the semantic chunker.
#[derive(Debug, Clone, Copy)]
pub struct SemanticChunkConfig {
    /// Token budget of a chunk.
    pub max_tokens: usize,
    /// Token budget of the trailing elements a chunk passes on to the next.
    pub overlap_tokens: usize,
    /// Whether a structural element that would overflow a non-empty chunk
    /// starts a new one.
    pub respect_element_boundaries: bool,
}

impl Default for SemanticChunkConfig {
    /// 512 tokens, 50 overlap tokens, element boundaries respected.
    fn default() -> (c: SemanticChunkConfig)
        ensures
            c.max_tokens == 512,
            c.overlap_tokens == 50,
            c.respect_element_boundaries,
    {
        SemanticChunkConfig { max_tokens: 512, overlap_tokens: 50, respect_element_boundaries: true }
    }
}

impl SemanticChunkConfig {
    /// The default configuration with budget `max_tokens`.
    pub fn new(max_tokens: usize) -> (c: SemanticChunkConfig)
        ensures
            c.max_tokens == max_tokens,
            c.overlap_tokens == 50,
            c.respect_element_boundaries,
    {
        SemanticChunkConfig { max_tokens, ..SemanticChunkConfig::default() }
    }

    /// The same configuration with overlap budget `overlap`.
    pub fn with_overlap(self, overlap: usize) -> (c: SemanticChunkConfig)
        ensures
            c.max_tokens == self.max_tokens,
            c.overlap_tokens == overlap,
            c.respect_element_boundaries == self.respect_element_boundaries,
    {
        let mut c = self;
        c.overlap_tokens = overlap;
        c
    }
}

/// The value of a semantic chunk.
pub struct SemanticChunkView {
    pub elements: Seq<ElementView>,
    pub oversized: bool,
    pub token_estimate: nat,
}

/// A semantic chunk: a group of elements, whether it exceeds the budget,
/// and its token count.
#[derive(Debug, Clone)]
pub struct SemanticChunk {
    elements: Vec<Element>,
    oversized: bool,
    token_estimate: usize,
}

impl View for SemanticChunk {
    type V = SemanticChunkView;

    closed spec fn view(&self) -> SemanticChunkView {
        SemanticChunkView {
            elements: views(self.elements@),
            oversized: self.oversized,
            token_estimate: self.token_estimate as nat,
        }
    }
}

/// The values of a list of semantic chunks.
pub open spec fn semantic_views(cs: Seq<SemanticChunk>) -> Seq<SemanticChunkView> {
    cs.map_values(|c: SemanticChunk| c@)
}

impl SemanticChunk {
    /// The elements of the chunk.
    pub fn elements(&self) -> (r: &[Element])
        ensures
            views(r@) == self@.elements,
    {
        self.elements.as_slice()
    }

    /// The displayed texts of the elements, one per line.
    pub fn text(&self) -> (s: String)
        ensures
            s@ == chunk_text(self@.elements),
    {
        let nl = vec!['\n'];
        let v = crate::element::join_displays(self.elements.as_slice(), nl.as_slice());
        assert(nl@ =~= seq!['\n']);
        string_of(v.as_slice())
    }

    /// The token count stamped when the chunk was made.
    pub fn token_estimate(&self) -> (n: usize)
        ensures
            n == self@.token_estimate,
    {
        self.token_estimate
    }

    /// The pages of the elements, in increasing order, each once.
    pub fn page_numbers(&self) -> (r: Vec<u32>)
        ensures
            strictly_increasing(r@),
            forall|p: u32| r@.contains(p) <==> has_page(self@.elements, p),
    {
        sorted_pages(self.elements.as_slice())
    }

    /// Whether the chunk exceeds the budget.
    pub fn is_oversized(&self) -> (b: bool)
        ensures
            b == self@.oversized,
    {
        self.oversized
    }
}

/// `a + b`, capped at `usize::MAX`: the chunker's running sums saturate.
pub open spec fn sat_add(a: nat, b: nat) -> nat {
    if a + b > usize::MAX {
        usize::MAX as nat
    } else {
        a + b
    }
}

/// Paragraphs, list items, code blocks and key-value pairs: the elements the
/// semantic chunker may cut at sentence ends.
pub open spec fn sem_splittable(e: ElementView) -> bool {
    e is Paragraph || e is ListItem || e is CodeBlock || e is KeyValue
}

/// The chunk of `es`, its count taken over its text, flagged oversized
/// exactly when that count exceeds the budget `max`.
pub open spec fn mk_sem<C: TokenCounter>(c: C, es: Seq<ElementView>, max: nat) -> SemanticChunkView {
    let n = c.spec_count(chunk_text(es));
    SemanticChunkView { elements: es, oversized: n > max, token_estimate: n }
}

/// The token count of an element's displayed text.
pub open spec fn elem_tokens<C: TokenCounter>(c: C, e: ElementView) -> nat {
    c.spec_count(e.display())
}

/// Sentence splitting state after `t`: the sentences found and the text in
/// progress. A sentence ends at `.`, `!` or `?` once it holds more than
/// whitespace.
pub open spec fn ss_fold(t: Seq<char>) -> (Seq<Seq<char>>, Seq<char>)
    decreases t.len(),
{
    if t.len() == 0 {
        (Seq::empty(), Seq::empty())
    } else {
        let st = ss_fold(t.drop_last());
        let cur = st.1.push(t.last());
        if is_delim(t.last()) && trim(cur).len() > 0 {
            (st.0.push(trim(cur)), Seq::empty())
        } else {
            (st.0, cur)
        }
    }
}

/// The sentences of `t`, trimmed; trailing text without a terminator is
/// appended to the last sentence after a space, or is the only sentence.
pub open spec fn semantic_sentences(t: Seq<char>) -> Seq<Seq<char>> {
    let st = ss_fold(t);
    let rest = trim(st.1);
    if rest.len() > 0 {
        if st.0.len() > 0 {
            st.0.update(st.0.len() - 1, st.0.last() + seq![' '] + rest)
        } else {
            seq![rest]
        }
    } else {
        st.0
    }
}

/// The chunker's state: chunks emitted, elements of the chunk in progress,
/// and its running token sum.
pub struct SemState {
    pub chunks: Seq<SemanticChunkView>,
    pub current: Seq<ElementView>,
    pub tokens: nat,
}

/// Walking back from the end of `es` with `k` elements taken and sum `acc`:
/// how many trailing elements pass on as overlap, and their sum. The last
/// element always passes; earlier ones while the sum stays within `limit`.
pub open spec fn overlap_from<C: TokenCounter>(
    c: C,
    es: Seq<ElementView>,
    limit: nat,
    k: nat,
    acc: nat,
) -> (nat, nat)
    decreases es.len() - k,
{
    if k >= es.len() {
        (k, acc)
    } else {
        let t = elem_tokens(c, es[es.len() - 1 - k]);
        if sat_add(acc, t) > limit && k > 0 {
            (k, acc)
        } else {
            overlap_from(c, es, limit, k + 1, sat_add(acc, t))
        }
    }
}

/// Emitting the chunk in progress: with an overlap budget its trailing
/// elements (as `overlap_from` picks them) start the next chunk, with their
/// sum; without one the next chunk starts empty.
pub open spec fn sem_flush<C: TokenCounter>(
    c: C,
    cfg: SemanticChunkConfig,
    st: SemState,
) -> SemState {
    let chunks = st.chunks.push(mk_sem(c, st.current, cfg.max_tokens as nat));
    if cfg.overlap_tokens > 0 {
        let ov = overlap_from(c, st.current, cfg.overlap_tokens as nat, 0, 0);
        SemState {
            chunks,
            current: st.current.subrange(st.current.len() - ov.0, st.current.len() as int),
            tokens: ov.1,
        }
    } else {
        SemState { chunks, current: Seq::empty(), tokens: 0 }
    }
}

/// A paragraph of `text` with metadata `meta`.
pub open spec fn paragraph(text: Seq<char>, meta: MetadataView) -> ElementView {
    ElementView::Paragraph(text, meta)
}

/// One sentence of an oversized element: the pieces emitted, the piece in
/// progress and its sum. A sentence that would take a non-empty piece over
/// the budget emits it first; then the sentence joins the piece after a
/// space.
pub open spec fn piece_step<C: TokenCounter>(
    c: C,
    max: nat,
    meta: MetadataView,
    st: (Seq<SemanticChunkView>, Seq<char>, nat),
    s: Seq<char>,
) -> (Seq<SemanticChunkView>, Seq<char>, nat) {
    let t = c.spec_count(s);
    let st1 = if sat_add(st.2, t) > max && st.1.len() > 0 {
        (st.0.push(mk_sem(c, seq![paragraph(st.1, meta)], max)), Seq::empty(), 0)
    } else {
        st
    };
    let buf = if st1.1.len() > 0 {
        st1.1 + seq![' '] + s
    } else {
        s
    };
    (st1.0, buf, sat_add(st1.2, t))
}

/// The piece state after the sentences `ss`, from the chunks `chunks`.
pub open spec fn piece_fold<C: TokenCounter>(
    c: C,
    max: nat,
    meta: MetadataView,
    chunks: Seq<SemanticChunkView>,
    ss: Seq<Seq<char>>,
) -> (Seq<SemanticChunkView>, Seq<char>, nat)
    decreases ss.len(),
{
    if ss.len() == 0 {
        (chunks, Seq::empty(), 0)
    } else {
        piece_step(c, max, meta, piece_fold(c, max, meta, chunks, ss.drop_last()), ss.last())
    }
}

/// The state after element `e`.
///
/// A structural element first emits a non-empty chunk it would take over
/// the budget (when boundaries are respected); then, over the budget on its
/// own with nothing in progress, it is an oversized chunk by itself, and
/// otherwise it joins the chunk in progress.
///
/// A text element that fits joins the chunk in progress. One that does not
/// fit but is within the budget emits the chunk in progress and starts the
/// next one (after any overlap). One over the budget emits the chunk in
/// progress, and its sentences are packed into paragraphs: all but the last
/// are emitted as chunks, the last joins the chunk in progress.
pub open spec fn sem_step<C: TokenCounter>(
    c: C,
    cfg: SemanticChunkConfig,
    st: SemState,
    e: ElementView,
) -> SemState {
    let et = elem_tokens(c, e);
    let max = cfg.max_tokens as nat;
    if !sem_splittable(e) {
        let st1 = if st.tokens > 0 && sat_add(st.tokens, et) > max
            && cfg.respect_element_boundaries {
            sem_flush(c, cfg, st)
        } else {
            st
        };
        if et > max && st1.current.len() == 0 {
            SemState {
                chunks: st1.chunks.push(mk_sem(c, seq![e], max)),
                current: st1.current,
                tokens: st1.tokens,
            }
        } else {
            SemState {
                chunks: st1.chunks,
                current: st1.current.push(e),
                tokens: sat_add(st1.tokens, et),
            }
        }
    } else if sat_add(st.tokens, et) <= max {
        SemState { chunks: st.chunks, current: st.current.push(e), tokens: sat_add(st.tokens, et) }
    } else {
        let st1 = if st.current.len() > 0 {
            sem_flush(c, cfg, st)
        } else {
            st
        };
        if et <= max {
            SemState { chunks: st1.chunks, current: st1.current.push(e), tokens: et }
        } else {
            let p = piece_fold(c, max, e.meta(), st1.chunks, semantic_sentences(e.text()));
            if p.1.len() > 0 {
                SemState {
                    chunks: p.0,
                    current: st1.current.push(paragraph(p.1, e.meta())),
                    tokens: p.2,
                }
            } else {
                SemState { chunks: p.0, current: st1.current, tokens: st1.tokens }
            }
        }
    }
}

/// The state after the elements `es`.
pub open spec fn sem_fold<C: TokenCounter>(
    c: C,
    cfg: SemanticChunkConfig,
    es: Seq<ElementView>,
) -> SemState
    decreases es.len(),
{
    if es.len() == 0 {
        SemState { chunks: Seq::empty(), current: Seq::empty(), tokens: 0 }
    } else {
        sem_step(c, cfg, sem_fold(c, cfg, es.drop_last()), es.last())
    }
}

/// The semantic chunks of `es`: the state after all of them, with the chunk
/// in progress emitted if it holds anything.
pub open spec fn semantic_chunks<C: TokenCounter>(
    c: C,
    cfg: SemanticChunkConfig,
    es: Seq<ElementView>,
) -> Seq<SemanticChunkView> {
    let st = sem_fold(c, cfg, es);
    if st.current.len() > 0 {
        st.chunks.push(mk_sem(c, st.current, cfg.max_tokens as nat))
    } else {
        st.chunks
    }
}

/// Splits `text` into sentences as `semantic_sentences` describes.
fn split_sentences(text: &str) -> (r: Vec<String>)
    ensures
        strings_view(r@) == semantic_sentences(text@),
{
    let t = chars_of(text);
    let mut sentences: Vec<String> = Vec::new();
    let mut current: Vec<char> = Vec::new();
    assert(strings_view(sentences@) =~= Seq::<Seq<char>>::empty());
    for i in 0..t.len()
        invariant
            t@ == text@,
            (strings_view(sentences@), current@) == ss_fold(t@.take(i as int)),
    {
        proof {
            assert(t@.take(i + 1).drop_last() =~= t@.take(i as int));
            assert(t@.take(i + 1).last() == t@[i as int]);
        }
        let ch = t[i];
        current.push(ch);
        if ch == '.' || ch == '!' || ch == '?' {
            let tr = trim_chars(current.as_slice());
            if tr.len() > 0 {
                let ghost s0 = strings_view(sentences@);
                sentences.push(string_of(tr.as_slice()));
                assert(strings_view(sentences@) =~= s0.push(tr@));
                current = Vec::new();
                assert(current@ =~= Seq::<char>::empty());
            }
        }
    }
    assert(t@.take(t.len() as int) =~= t@);
    let tr = trim_chars(current.as_slice());
    assert(tr@ == trim(ss_fold(text@).1));
    if tr.len() > 0 {
        let ghost s0 = strings_view(sentences@);
        if sentences.len() > 0 {
            let last = sentences.len() - 1;
            let mut s = String::new();
            std::mem::swap(&mut s, &mut sentences[last]);
            push_char(&mut s, ' ');
            let rest = string_of(tr.as_slice());
            append_str(&mut s, rest.as_str());
            let ghost sv = s@;
            assert(sv == s0.last() + seq![' '] + tr@);
            sentences.set(last, s);
            assert(strings_view(sentences@) =~= s0.update(last as int, sv));
        } else {
            sentences.push(string_of(tr.as_slice()));
            assert(strings_view(sentences@) =~= seq![tr@]);
        }
    }
    sentences
}

/// Paragraphs, list items, code blocks and key-value pairs.
fn is_splittable(element: &Element) -> (r: bool)
    ensures
        r == sem_splittable(element.view()),
{
    matches!(element, Element::Paragraph(_) | Element::ListItem(_) | Element::CodeBlock(_) | Element::KeyValue(_))
}

/// Copies of the elements `es[lo..hi]`.
fn copy_range(es: &[Element], lo: usize, hi: usize) -> (r: Vec<Element>)
    requires
        lo <= hi <= es@.len(),
    ensures
        views(r@) == views(es@).subrange(lo as int, hi as int),
{
    let mut r: Vec<Element> = Vec::new();
    let mut i = lo;
    while i < hi
        invariant
            lo <= i <= hi <= es@.len(),
            views(r@) == views(es@).subrange(lo as int, i as int),
        decreases hi - i,
    {
        let ghost r0 = r@;
        let e = es[i].copy();
        r.push(e);
        assert(views(r@) =~= views(r0).push(e.view()));
        assert(views(es@).subrange(lo as int, i + 1) =~= views(es@).subrange(lo as int, i as int).push(
            es@[i as int].view(),
        ));
        i += 1;
    }
    r
}

/// The semantic chunker: packs elements into chunks of at most
/// `max_tokens` under its token counter, keeps structural elements whole,
/// cuts oversized text elements at sentence ends, and carries trailing
/// elements over as overlap.
pub struct SemanticChunker<C: TokenCounter> {
    config: SemanticChunkConfig,
    counter: C,
}

impl Default for SemanticChunker<WordProxyCounter> {
    /// A chunker with the default configuration and the word-proxy counter.
    fn default() -> (r: SemanticChunker<WordProxyCounter>)
        ensures
            r.config_view().max_tokens == 512,
            r.config_view().overlap_tokens == 50,
            r.config_view().respect_element_boundaries,
            r.counter_view() == WordProxyCounter,
    {
        SemanticChunker { config: SemanticChunkConfig::default(), counter: WordProxyCounter }
    }
}

impl SemanticChunker<WordProxyCounter> {
    /// A chunker with `config` and the word-proxy counter.
    pub fn new(config: SemanticChunkConfig) -> (r: SemanticChunker<WordProxyCounter>)
        ensures
            r.config_view() == config,
            r.counter_view() == WordProxyCounter,
    {
        SemanticChunker { config, counter: WordProxyCounter }
    }

}

impl<C: TokenCounter> SemanticChunker<C> {
    /// The configuration.
    pub closed spec fn config_view(&self) -> SemanticChunkConfig {
        self.config
    }

    /// The token counter.
    pub closed spec fn counter_view(&self) -> C {
        self.counter
    }

    /// The same chunker with `counter` governing the decisions and the
    /// stamped counts.
    pub fn with_token_counter<D: TokenCounter>(self, counter: D) -> (r: SemanticChunker<D>)
        ensures
            r.config_view() == self.config_view(),
            r.counter_view() == counter,
    {
        SemanticChunker { config: self.config, counter }
    }

    /// The token count of an element's displayed text.
    fn element_tokens(&self, element: &Element) -> (n: usize)
        ensures
            n == elem_tokens(self.counter, element.view()),
    {
        let t = element.display_text();
        self.counter.count(t.as_str())
    }

    /// A chunk of `elements`, counted over its whole text and flagged
    /// oversized when that count exceeds the budget.
    fn make_chunk(&self, elements: Vec<Element>) -> (r: SemanticChunk)
        ensures
            r@ == mk_sem(self.counter, views(elements@), self.config.max_tokens as nat),
    {
        let nl = vec!['\n'];
        let v = crate::element::join_displays(elements.as_slice(), nl.as_slice());
        assert(nl@ =~= seq!['\n']);
        let text = string_of(v.as_slice());
        let token_estimate = self.counter.count(text.as_str());
        let oversized = token_estimate > self.config.max_tokens;
        SemanticChunk { elements, oversized, token_estimate }
    }

    /// A chunk of one paragraph of `text` with metadata `meta`.
    fn make_paragraph_chunk(&self, text: &str, meta: &ElementMetadata) -> (r: SemanticChunk)
        ensures
            r@ == mk_sem(self.counter, seq![paragraph(text@, meta.view())], self.config.max_tokens as nat),
    {
        let e = Element::Paragraph(ElementData { text: text.to_owned(), metadata: meta.copy() });
        let mut v: Vec<Element> = Vec::new();
        v.push(e);
        assert(views(v@) =~= seq![paragraph(text@, meta.view())]);
        self.make_chunk(v)
    }

    /// Chunks `elements`, in order, as `semantic_chunks` describes.
    pub fn chunk(&self, elements: &[Element]) -> (r: Vec<SemanticChunk>)
        ensures
            semantic_views(r@) == semantic_chunks(
                self.counter_view(),
                self.config_view(),
                views(elements@),
            ),
    {
        if elements.len() == 0 {
            let r: Vec<SemanticChunk> = Vec::new();
            assert(semantic_views(r@) =~= Seq::<SemanticChunkView>::empty());
            return r;
        }
        let ghost ev = views(elements@);
        let ghost c = self.counter;
        let ghost cfg = self.config;
        let max_tokens = self.config.max_tokens;
        let mut chunks: Vec<SemanticChunk> = Vec::new();
        let mut current_elements: Vec<Element> = Vec::new();
        let mut current_tokens: usize = 0;
        assert(semantic_views(chunks@) =~= Seq::<SemanticChunkView>::empty());
        assert(views(current_elements@) =~= Seq::<ElementView>::empty());
        for i in 0..elements.len()
            invariant
                ev == views(elements@),
                c == self.counter,
                cfg == self.config,
                max_tokens == cfg.max_tokens,
                semantic_views(chunks@) == sem_fold(c, cfg, ev.take(i as int)).chunks,
                views(current_elements@) == sem_fold(c, cfg, ev.take(i as int)).current,
                current_tokens as nat == sem_fold(c, cfg, ev.take(i as int)).tokens,
        {
            let ghost st = sem_fold(c, cfg, ev.take(i as int));
            let ghost e = ev[i as int];
            proof {
                assert(ev.take(i + 1).drop_last() =~= ev.take(i as int));
                assert(ev.take(i + 1).last() == e);
            }
            let element = &elements[i];
            assert(element.view() == e);
            let elem_tokens = self.element_tokens(element);
            if !is_splittable(element) {
                // A structural element that would overflow a non-empty chunk
                // emits it first.
                if current_tokens > 0 && current_tokens.saturating_add(elem_tokens) > max_tokens
                    && self.config.respect_element_boundaries {
                    self.flush_chunk(&mut chunks, &mut current_elements, &mut current_tokens);
                }
                if elem_tokens > max_tokens && current_elements.len() == 0 {
                    let ghost c0 = chunks@;
                    let mut v: Vec<Element> = Vec::new();
                    v.push(element.copy());
                    assert(views(v@) =~= seq![e]);
                    let chunk = self.make_chunk(v);
                    chunks.push(chunk);
                    assert(semantic_views(chunks@) =~= semantic_views(c0).push(chunk@));
                } else {
                    let ghost e0 = current_elements@;
                    current_elements.push(element.copy());
                    assert(views(current_elements@) =~= views(e0).push(e));
                    current_tokens = current_tokens.saturating_add(elem_tokens);
                }
            } else if current_tokens.saturating_add(elem_tokens) <= max_tokens {
                let ghost e0 = current_elements@;
                current_elements.push(element.copy());
                assert(views(current_elements@) =~= views(e0).push(e));
                current_tokens = current_tokens.saturating_add(elem_tokens);
            } else if elem_tokens <= max_tokens {
                if current_elements.len() > 0 {
                    self.flush_chunk(&mut chunks, &mut current_elements, &mut current_tokens);
                }
                let ghost e0 = current_elements@;
                current_elements.push(element.copy());
                assert(views(current_elements@) =~= views(e0).push(e));
                current_tokens = elem_tokens;
            } else {
                // Over the budget: cut at sentence ends.
                if current_elements.len() > 0 {
                    self.flush_chunk(&mut chunks, &mut current_elements, &mut current_tokens);
                }
                let sentences = split_sentences(element.text());
                let meta = element.metadata().copy();
                let (sentence_buf, buf_tokens) = self.pack_sentences(&mut chunks, &sentences, &meta);
                if !sentence_buf.as_str().is_empty() {
                    let ghost e0 = current_elements@;
                    let ghost bv = sentence_buf@;
                    current_elements.push(
                        Element::Paragraph(ElementData { text: sentence_buf, metadata: meta }),
                    );
                    assert(views(current_elements@) =~= views(e0).push(paragraph(bv, e.meta())));
                    current_tokens = buf_tokens;
                }
            }
        }
        assert(ev.take(elements.len() as int) =~= ev);
        if current_elements.len() > 0 {
            let ghost c0 = chunks@;
            let chunk = self.make_chunk(current_elements);
            chunks.push(chunk);
            assert(semantic_views(chunks@) =~= semantic_views(c0).push(chunk@));
        }
        chunks
    }

    /// Packs `sentences` into paragraphs of at most the budget, emitting all
    /// but the one in progress as chunks; returns the one in progress and
    /// its sum, as `piece_fold` describes.
    fn pack_sentences(
        &self,
        chunks: &mut Vec<SemanticChunk>,
        sentences: &Vec<String>,
        meta: &ElementMetadata,
    ) -> (r: (String, usize))
        ensures
            piece_fold(
                self.counter,
                self.config.max_tokens as nat,
                meta.view(),
                semantic_views(old(chunks)@),
                strings_view(sentences@),
            ) == (semantic_views(final(chunks)@), r.0@, r.1 as nat),
    {
        let ghost c = self.counter;
        let ghost max = self.config.max_tokens as nat;
        let ghost ss = strings_view(sentences@);
        let ghost c0 = semantic_views(chunks@);
        let mut sentence_buf = String::new();
        let mut buf_tokens: usize = 0;
        for j in 0..sentences.len()
            invariant
                ss == strings_view(sentences@),
                max == self.config.max_tokens as nat,
                c == self.counter,
                piece_fold(c, max, meta.view(), c0, ss.take(j as int)) == (
                    semantic_views(chunks@),
                    sentence_buf@,
                    buf_tokens as nat,
                ),
        {
            proof {
                assert(ss.take(j + 1).drop_last() =~= ss.take(j as int));
                assert(ss.take(j + 1).last() == sentences@[j as int]@);
            }
            let sentence = sentences[j].as_str();
            let s_tokens = self.counter.count(sentence);
            if buf_tokens.saturating_add(s_tokens) > self.config.max_tokens
                && !sentence_buf.as_str().is_empty() {
                let ghost cs0 = chunks@;
                let chunk = self.make_paragraph_chunk(sentence_buf.as_str(), meta);
                chunks.push(chunk);
                assert(semantic_views(chunks@) =~= semantic_views(cs0).push(chunk@));
                sentence_buf = String::new();
                buf_tokens = 0;
            }
            if !sentence_buf.as_str().is_empty() {
                push_char(&mut sentence_buf, ' ');
            }
            append_str(&mut sentence_buf, sentence);
            buf_tokens = buf_tokens.saturating_add(s_tokens);
        }
        assert(ss.take(sentences.len() as int) =~= ss);
        (sentence_buf, buf_tokens)
    }

    /// Emits the chunk in progress and starts the next one from its overlap,
    /// as `sem_flush` describes.
    fn flush_chunk(
        &self,
        chunks: &mut Vec<SemanticChunk>,
        current_elements: &mut Vec<Element>,
        current_tokens: &mut usize,
    )
        ensures
            ({
                let st = SemState {
                    chunks: semantic_views(old(chunks)@),
                    current: views(old(current_elements)@),
                    tokens: *old(current_tokens) as nat,
                };
                let st2 = sem_flush(self.counter, self.config, st);
                &&& semantic_views(final(chunks)@) == st2.chunks
                &&& views(final(current_elements)@) == st2.current
                &&& *final(current_tokens) == st2.tokens
            }),
    {
        let mut flushed: Vec<Element> = Vec::new();
        std::mem::swap(&mut flushed, current_elements);
        let ghost fl = views(flushed@);
        let n = flushed.len();
        let copy = copy_range(flushed.as_slice(), 0, n);
        assert(views(copy@) =~= fl);
        let ghost c0 = chunks@;
        let chunk = self.make_chunk(copy);
        chunks.push(chunk);
        assert(semantic_views(chunks@) =~= semantic_views(c0).push(chunk@));
        if self.config.overlap_tokens > 0 {
            // Walk back from the last element: it always passes on, earlier
            // ones while the sum stays within the overlap budget.
            let limit = self.config.overlap_tokens;
            let mut overlap_tokens: usize = 0;
            let mut k: usize = 0;
            let mut stop = false;
            while k < n && !stop
                invariant
                    fl == views(flushed@),
                    n == flushed@.len(),
                    k <= n,
                    limit == self.config.overlap_tokens,
                    !stop ==> overlap_from(self.counter, fl, limit as nat, 0, 0) == overlap_from(
                        self.counter,
                        fl,
                        limit as nat,
                        k as nat,
                        overlap_tokens as nat,
                    ),
                    stop ==> overlap_from(self.counter, fl, limit as nat, 0, 0) == (
                        k as nat,
                        overlap_tokens as nat,
                    ),
                decreases 2 * (n - k) + if stop {
                    0int
                } else {
                    1int
                },
            {
                let t = self.element_tokens(&flushed[n - 1 - k]);
                let total = overlap_tokens.saturating_add(t);
                if total > limit && k > 0 {
                    stop = true;
                } else {
                    overlap_tokens = total;
                    k = k + 1;
                }
            }
            let overlap_elements = copy_range(flushed.as_slice(), n - k, n);
            *current_elements = overlap_elements;
            *current_tokens = overlap_tokens;
        } else {
            assert(views(current_elements@) =~= Seq::<ElementView>::empty());
            *current_tokens = 0;
        }
    }
}

/// What every semantic chunk satisfies: it holds at least one element, its
/// stamped count is the count of its own text, and it is flagged oversized
/// exactly when that count exceeds the budget.
pub open spec fn sem_chunk_ok<C: TokenCounter>(
    c: C,
    cfg: SemanticChunkConfig,
    ch: SemanticChunkView,
) -> bool {
    &&& ch.elements.len() > 0
    &&& ch.token_estimate == c.spec_count(chunk_text(ch.elements))
    &&& ch.oversized <==> ch.token_estimate > cfg.max_tokens
}

/// The semantic chunker's invariant: emitted chunks are sound, and a chunk
/// in progress with a positive sum holds something.
pub open spec fn sem_state_ok<C: TokenCounter>(
    c: C,
    cfg: SemanticChunkConfig,
    st: SemState,
) -> bool {
    &&& forall|k: int| 0 <= k < st.chunks.len() ==> sem_chunk_ok(c, cfg, #[trigger] st.chunks[k])
    &&& st.current.len() == 0 ==> st.tokens == 0
}

proof fn lemma_overlap_takes_last<C: TokenCounter>(
    c: C,
    es: Seq<ElementView>,
    limit: nat,
    k: nat,
    acc: nat,
)
    requires
        k <= es.len(),
    ensures
        k <= overlap_from(c, es, limit, k, acc).0 <= es.len(),
        es.len() > 0 && k == 0 ==> overlap_from(c, es, limit, k, acc).0 > 0,
    decreases es.len() - k,
{
    if k < es.len() {
        let t = elem_tokens(c, es[es.len() - 1 - k]);
        if !(sat_add(acc, t) > limit && k > 0) {
            lemma_overlap_takes_last(c, es, limit, k + 1, sat_add(acc, t));
        }
    }
}

proof fn lemma_flush_ok<C: TokenCounter>(c: C, cfg: SemanticChunkConfig, st: SemState)
    requires
        sem_state_ok(c, cfg, st),
        st.current.len() > 0,
    ensures
        sem_state_ok(c, cfg, sem_flush(c, cfg, st)),
        sem_flush(c, cfg, st).chunks == st.chunks.push(mk_sem(c, st.current, cfg.max_tokens as nat)),
{
    let st2 = sem_flush(c, cfg, st);
    if cfg.overlap_tokens > 0 {
        lemma_overlap_takes_last(c, st.current, cfg.overlap_tokens as nat, 0, 0);
    }
    assert forall|k: int| 0 <= k < st2.chunks.len() implies sem_chunk_ok(c, cfg, #[trigger] st2.chunks[k]) by {
        if k < st.chunks.len() {
            assert(st2.chunks[k] == st.chunks[k]);
        }
    }
}

proof fn lemma_pieces_ok<C: TokenCounter>(
    c: C,
    cfg: SemanticChunkConfig,
    meta: MetadataView,
    chunks: Seq<SemanticChunkView>,
    ss: Seq<Seq<char>>,
)
    requires
        forall|k: int| 0 <= k < chunks.len() ==> sem_chunk_ok(c, cfg, #[trigger] chunks[k]),
    ensures
        ({
            let p = piece_fold(c, cfg.max_tokens as nat, meta, chunks, ss);
            forall|k: int| 0 <= k < p.0.len() ==> sem_chunk_ok(c, cfg, #[trigger] p.0[k])
        }),
    decreases ss.len(),
{
    if ss.len() > 0 {
        lemma_pieces_ok(c, cfg, meta, chunks, ss.drop_last());
        let p0 = piece_fold(c, cfg.max_tokens as nat, meta, chunks, ss.drop_last());
        let p = piece_fold(c, cfg.max_tokens as nat, meta, chunks, ss);
        assert forall|k: int| 0 <= k < p.0.len() implies sem_chunk_ok(c, cfg, #[trigger] p.0[k]) by {
            if k < p0.0.len() {
                assert(p.0[k] == p0.0[k]);
            }
        }
    }
}

proof fn lemma_sem_fold_ok<C: TokenCounter>(c: C, cfg: SemanticChunkConfig, es: Seq<ElementView>)
    ensures
        sem_state_ok(c, cfg, sem_fold(c, cfg, es)),
    decreases es.len(),
{
    if es.len() > 0 {
        lemma_sem_fold_ok(c, cfg, es.drop_last());
        let st = sem_fold(c, cfg, es.drop_last());
        let e = es.last();
        let nst = sem_fold(c, cfg, es);
        let et = elem_tokens(c, e);
        let max = cfg.max_tokens as nat;
        if !sem_splittable(e) {
            let flush = st.tokens > 0 && sat_add(st.tokens, et) > max
                && cfg.respect_element_boundaries;
            if flush {
                lemma_flush_ok(c, cfg, st);
            }
            let st1 = if flush {
                sem_flush(c, cfg, st)
            } else {
                st
            };
            assert forall|k: int| 0 <= k < nst.chunks.len() implies sem_chunk_ok(c, cfg, #[trigger] nst.chunks[k]) by {
                if k < st1.chunks.len() {
                    assert(nst.chunks[k] == st1.chunks[k]);
                } else {
                    assert(crate::element::displays(seq![e]) =~= seq![e.display()]);
                }
            }
        } else if sat_add(st.tokens, et) <= max {
        } else {
            if st.current.len() > 0 {
                lemma_flush_ok(c, cfg, st);
            }
            let st1 = if st.current.len() > 0 {
                sem_flush(c, cfg, st)
            } else {
                st
            };
            if et > max {
                lemma_pieces_ok(c, cfg, e.meta(), st1.chunks, semantic_sentences(e.text()));
            }
        }
    }
}

/// Every semantic chunk holds at least one element, carries as its stamped
/// count the count of its own text under the counter that made it, and is
/// flagged oversized exactly when that count exceeds the budget.
pub proof fn lemma_semantic_chunks_sound<C: TokenCounter>(
    c: C,
    cfg: SemanticChunkConfig,
    es: Seq<ElementView>,
)
    ensures
        forall|k: int|
            0 <= k < semantic_chunks(c, cfg, es).len() ==> sem_chunk_ok(
                c,
                cfg,
                #[trigger] semantic_chunks(c, cfg, es)[k],
            ),
{
    lemma_sem_fold_ok(c, cfg, es);
    let st = sem_fold(c, cfg, es);
    let r = semantic_chunks(c, cfg, es);
    assert forall|k: int| 0 <= k < r.len() implies sem_chunk_ok(c, cfg, #[trigger] r[k]) by {
        if k < st.chunks.len() {
            assert(r[k] == st.chunks[k]);
        }
    }
}

/// The non-whitespace characters of the displayed texts of `es`, element
/// after element.
pub open spec fn element_glyphs(es: Seq<ElementView>) -> Seq<char> {
    glyphs_of_all(displays(es))
}

/// The non-whitespace characters of the texts of the chunks `cs`, chunk
/// after chunk.
pub open spec fn sem_chunk_glyphs(cs: Seq<SemanticChunkView>) -> Seq<char>
    decreases cs.len(),
{
    if cs.len() == 0 {
        Seq::empty()
    } else {
        sem_chunk_glyphs(cs.drop_last()) + glyphs(chunk_text(cs.last().elements))
    }
}

/// The text of a chunk keeps the non-whitespace characters of its elements.
proof fn lemma_chunk_text_glyphs(es: Seq<ElementView>)
    ensures
        glyphs(chunk_text(es)) == element_glyphs(es),
{
    assert(is_ws('\n'));
    lemma_glyphs_join(displays(es), '\n');
}

proof fn lemma_element_glyphs_push(es: Seq<ElementView>, e: ElementView)
    ensures
        element_glyphs(es.push(e)) == element_glyphs(es) + glyphs(e.display()),
{
    lemma_displays_push(es, e);
    assert(displays(es).push(e.display()).drop_last() =~= displays(es));
}

proof fn lemma_chunk_glyphs_push(cs: Seq<SemanticChunkView>, ch: SemanticChunkView)
    ensures
        sem_chunk_glyphs(cs.push(ch)) == sem_chunk_glyphs(cs) + element_glyphs(ch.elements),
{
    assert(cs.push(ch).drop_last() =~= cs);
    lemma_chunk_text_glyphs(ch.elements);
}

proof fn lemma_empty_glyphs()
    ensures
        element_glyphs(Seq::<ElementView>::empty()) == Seq::<char>::empty(),
        glyphs(Seq::<char>::empty()) == Seq::<char>::empty(),
{
    assert(displays(Seq::<ElementView>::empty()) =~= Seq::<Seq<char>>::empty());
}

/// Splitting into sentences keeps the non-whitespace characters: those of
/// the sentences found, then those of the text in progress.
proof fn lemma_ss_fold_glyphs(t: Seq<char>)
    ensures
        glyphs_of_all(ss_fold(t).0) + glyphs(ss_fold(t).1) == glyphs(t),
    decreases t.len(),
{
    if t.len() == 0 {
        lemma_empty_glyphs();
        assert(Seq::<char>::empty() + Seq::<char>::empty() =~= Seq::<char>::empty());
    } else {
        lemma_ss_fold_glyphs(t.drop_last());
        let st = ss_fold(t.drop_last());
        let cur = st.1.push(t.last());
        assert(cur.drop_last() =~= st.1);
        assert(cur.last() == t.last());
        if is_delim(t.last()) && trim(cur).len() > 0 {
            lemma_glyphs_trim(cur);
            assert(st.0.push(trim(cur)).drop_last() =~= st.0);
            lemma_empty_glyphs();
            assert(glyphs_of_all(st.0.push(trim(cur))) + glyphs(Seq::<char>::empty())
                =~= glyphs_of_all(st.0) + glyphs(cur));
        } else {
        }
        assert(glyphs_of_all(ss_fold(t).0) + glyphs(ss_fold(t).1) =~= glyphs(t));
    }
}

/// The sentences of a text hold its non-whitespace characters, in order.
proof fn lemma_sentences_glyphs(t: Seq<char>)
    ensures
        glyphs_of_all(semantic_sentences(t)) == glyphs(t),
{
    lemma_ss_fold_glyphs(t);
    let st = ss_fold(t);
    let rest = trim(st.1);
    lemma_glyphs_trim(st.1);
    lemma_empty_glyphs();
    if rest.len() > 0 {
        if st.0.len() > 0 {
            let x = st.0.last() + seq![' '] + rest;
            let u = st.0.update(st.0.len() - 1, x);
            assert(u.drop_last() =~= st.0.drop_last());
            assert(u.last() == x);
            lemma_glyphs_add(st.0.last() + seq![' '], rest);
            lemma_glyphs_add(st.0.last(), seq![' ']);
            lemma_glyphs_ws(' ');
            assert(glyphs(st.0.last()) + Seq::<char>::empty() =~= glyphs(st.0.last()));
            assert(glyphs_of_all(u) =~= glyphs_of_all(st.0) + glyphs(rest));
        } else {
            assert(seq![rest].drop_last() =~= Seq::<Seq<char>>::empty());
            assert(glyphs_of_all(st.0) == Seq::<char>::empty());
            assert(seq![rest].last() == rest);
            assert(glyphs_of_all(Seq::<Seq<char>>::empty()) == Seq::<char>::empty());
            assert(glyphs_of_all(seq![rest]) =~= glyphs(rest));
            assert(Seq::<char>::empty() + glyphs(st.1) =~= glyphs(st.1));
        }
    } else {
        assert(rest =~= Seq::<char>::empty());
        assert(glyphs_of_all(st.0) + Seq::<char>::empty() =~= glyphs_of_all(st.0));
    }
}

/// Packing sentences into pieces keeps their non-whitespace characters:
/// those of the pieces emitted, then those of the piece in progress.
proof fn lemma_piece_fold_glyphs<C: TokenCounter>(
    c: C,
    max: nat,
    meta: MetadataView,
    chunks: Seq<SemanticChunkView>,
    ss: Seq<Seq<char>>,
)
    ensures
        ({
            let p = piece_fold(c, max, meta, chunks, ss);
            sem_chunk_glyphs(p.0) + glyphs(p.1) == sem_chunk_glyphs(chunks) + glyphs_of_all(ss)
        }),
    decreases ss.len(),
{
    lemma_empty_glyphs();
    if ss.len() == 0 {
        assert(sem_chunk_glyphs(chunks) + Seq::<char>::empty() =~= sem_chunk_glyphs(chunks));
    } else {
        lemma_piece_fold_glyphs(c, max, meta, chunks, ss.drop_last());
        let st = piece_fold(c, max, meta, chunks, ss.drop_last());
        let s = ss.last();
        let t = c.spec_count(s);
        let flush = sat_add(st.2, t) > max && st.1.len() > 0;
        if flush {
            let ch = mk_sem(c, seq![paragraph(st.1, meta)], max);
            lemma_chunk_glyphs_push(st.0, ch);
            lemma_element_glyphs_push(Seq::<ElementView>::empty(), paragraph(st.1, meta));
            assert(Seq::<ElementView>::empty().push(paragraph(st.1, meta)) =~= seq![
                paragraph(st.1, meta),
            ]);
            assert(Seq::<char>::empty() + glyphs(st.1) =~= glyphs(st.1));
        }
        let st1 = if flush {
            (st.0.push(mk_sem(c, seq![paragraph(st.1, meta)], max)), Seq::<char>::empty(), 0nat)
        } else {
            st
        };
        assert(sem_chunk_glyphs(st1.0) + glyphs(st1.1) == sem_chunk_glyphs(st.0) + glyphs(st.1)) by {
            if flush {
                assert(sem_chunk_glyphs(st1.0) + Seq::<char>::empty() =~= sem_chunk_glyphs(st.0)
                    + glyphs(st.1));
            }
        }
        let buf = if st1.1.len() > 0 {
            st1.1 + seq![' '] + s
        } else {
            s
        };
        if st1.1.len() > 0 {
            lemma_glyphs_add(st1.1 + seq![' '], s);
            lemma_glyphs_add(st1.1, seq![' ']);
            lemma_glyphs_ws(' ');
            assert(glyphs(st1.1) + Seq::<char>::empty() =~= glyphs(st1.1));
        } else {
            assert(st1.1 =~= Seq::<char>::empty());
            assert(Seq::<char>::empty() + glyphs(s) =~= glyphs(s));
        }
        assert(glyphs(buf) == glyphs(st1.1) + glyphs(s));
        assert(glyphs_of_all(ss) =~= glyphs_of_all(ss.drop_last()) + glyphs(s));
        let p = piece_fold(c, max, meta, chunks, ss);
        assert(p == piece_step(c, max, meta, st, s));
        assert(p.0 == st1.0);
        assert(p.1 == buf);
        let a = sem_chunk_glyphs(st1.0);
        let b = glyphs(st1.1);
        assert(sem_chunk_glyphs(p.0) + glyphs(p.1) =~= (a + b) + glyphs(s));
        assert(a + b == sem_chunk_glyphs(chunks) + glyphs_of_all(ss.drop_last()));
        assert((sem_chunk_glyphs(chunks) + glyphs_of_all(ss.drop_last())) + glyphs(s)
            =~= sem_chunk_glyphs(chunks) + glyphs_of_all(ss));
    }
}

/// Emitting the chunk in progress without overlap moves its characters to
/// the emitted chunks.
proof fn lemma_flush_glyphs<C: TokenCounter>(c: C, cfg: SemanticChunkConfig, st: SemState)
    requires
        cfg.overlap_tokens == 0,
    ensures
        sem_chunk_glyphs(sem_flush(c, cfg, st).chunks) + element_glyphs(sem_flush(c, cfg, st).current)
            == sem_chunk_glyphs(st.chunks) + element_glyphs(st.current),
        sem_flush(c, cfg, st).current.len() == 0,
{
    lemma_empty_glyphs();
    let ch = mk_sem(c, st.current, cfg.max_tokens as nat);
    lemma_chunk_glyphs_push(st.chunks, ch);
    assert(sem_flush(c, cfg, st).current =~= Seq::<ElementView>::empty());
    assert(sem_chunk_glyphs(st.chunks.push(ch)) + Seq::<char>::empty() =~= sem_chunk_glyphs(
        st.chunks,
    ) + element_glyphs(st.current));
}

/// Without overlap, the state after `es` holds the non-whitespace characters
/// of `es`: those of the chunks emitted, then those of the chunk in
/// progress.
proof fn lemma_sem_fold_glyphs<C: TokenCounter>(c: C, cfg: SemanticChunkConfig, es: Seq<ElementView>)
    requires
        cfg.overlap_tokens == 0,
        forall|i: int|
            0 <= i < es.len() && #[trigger] es[i] is KeyValue ==> elem_tokens(c, es[i])
                <= cfg.max_tokens,
    ensures
        sem_chunk_glyphs(sem_fold(c, cfg, es).chunks) + element_glyphs(sem_fold(c, cfg, es).current)
            == element_glyphs(es),
    decreases es.len(),
{
    lemma_empty_glyphs();
    if es.len() == 0 {
        assert(Seq::<char>::empty() + Seq::<char>::empty() =~= Seq::<char>::empty());
    } else {
        let prev = es.drop_last();
        let e = es.last();
        assert forall|i: int| 0 <= i < prev.len() && #[trigger] prev[i] is KeyValue implies elem_tokens(
            c,
            prev[i],
        ) <= cfg.max_tokens by {
            assert(prev[i] == es[i]);
        }
        lemma_sem_fold_glyphs(c, cfg, prev);
        assert(es[es.len() - 1] == e);
        let st = sem_fold(c, cfg, prev);
        let nst = sem_fold(c, cfg, es);
        assert(nst == sem_step(c, cfg, st, e));
        assert(es =~= prev.push(e));
        lemma_element_glyphs_push(prev, e);
        let et = elem_tokens(c, e);
        let max = cfg.max_tokens as nat;
        // What the chunk in progress and the emitted chunks hold before `e`.
        let before = sem_chunk_glyphs(st.chunks) + element_glyphs(st.current);
        if !sem_splittable(e) {
            let flush = st.tokens > 0 && sat_add(st.tokens, et) > max && cfg.respect_element_boundaries;
            if flush {
                lemma_flush_glyphs(c, cfg, st);
            }
            let st1 = if flush {
                sem_flush(c, cfg, st)
            } else {
                st
            };
            assert(sem_chunk_glyphs(st1.chunks) + element_glyphs(st1.current) == before);
            if et > max && st1.current.len() == 0 {
                let ch = mk_sem(c, seq![e], max);
                lemma_chunk_glyphs_push(st1.chunks, ch);
                lemma_element_glyphs_push(Seq::<ElementView>::empty(), e);
                assert(Seq::<ElementView>::empty().push(e) =~= seq![e]);
                assert(st1.current =~= Seq::<ElementView>::empty());
                assert(sem_chunk_glyphs(nst.chunks) + element_glyphs(nst.current)
                    =~= before + glyphs(e.display()));
            } else {
                lemma_element_glyphs_push(st1.current, e);
                assert(sem_chunk_glyphs(nst.chunks) + element_glyphs(nst.current)
                    =~= before + glyphs(e.display()));
            }
        } else if sat_add(st.tokens, et) <= max {
            lemma_element_glyphs_push(st.current, e);
            assert(sem_chunk_glyphs(nst.chunks) + element_glyphs(nst.current)
                =~= before + glyphs(e.display()));
        } else {
            if st.current.len() > 0 {
                lemma_flush_glyphs(c, cfg, st);
            }
            let st1 = if st.current.len() > 0 {
                sem_flush(c, cfg, st)
            } else {
                st
            };
            assert(sem_chunk_glyphs(st1.chunks) + element_glyphs(st1.current) == before);
            assert(st1.current.len() == 0);
            assert(st1.current =~= Seq::<ElementView>::empty());
            if et <= max {
                lemma_element_glyphs_push(st1.current, e);
                assert(sem_chunk_glyphs(nst.chunks) + element_glyphs(nst.current)
                    =~= before + glyphs(e.display()));
            } else {
                assert(!(e is KeyValue));
                assert(e.text() == e.display());
                let ss = semantic_sentences(e.text());
                lemma_sentences_glyphs(e.text());
                lemma_piece_fold_glyphs(c, max, e.meta(), st1.chunks, ss);
                let p = piece_fold(c, max, e.meta(), st1.chunks, ss);
                if p.1.len() > 0 {
                    lemma_element_glyphs_push(st1.current, paragraph(p.1, e.meta()));
                    assert(sem_chunk_glyphs(nst.chunks) + element_glyphs(nst.current)
                        =~= before + glyphs(e.display()));
                } else {
                    assert(p.1 =~= Seq::<char>::empty());
                    assert(sem_chunk_glyphs(nst.chunks) + element_glyphs(nst.current)
                        =~= before + glyphs(e.display()));
                }
            }
        }
    }
}

/// Without overlap, semantic chunking keeps every non-whitespace character
/// of the input, in order: the non-whitespace characters of the chunk
/// texts, chunk after chunk, are those of the elements' displayed texts,
/// element after element. Cutting a long element at sentence ends re-flows
/// its whitespace but drops, duplicates and reorders nothing.
///
/// A key-value pair over the budget is cut from its key alone, so its value
/// is not kept; the law holds when no key-value pair is over the budget.
/// With an overlap budget, trailing elements are repeated in the next chunk.
pub proof fn lemma_semantic_chunks_keep_glyphs<C: TokenCounter>(
    c: C,
    cfg: SemanticChunkConfig,
    es: Seq<ElementView>,
)
    requires
        cfg.overlap_tokens == 0,
        forall|i: int|
            0 <= i < es.len() && #[trigger] es[i] is KeyValue ==> elem_tokens(c, es[i])
                <= cfg.max_tokens,
    ensures
        sem_chunk_glyphs(semantic_chunks(c, cfg, es)) == element_glyphs(es),
{
    lemma_sem_fold_glyphs(c, cfg, es);
    lemma_empty_glyphs();
    let st = sem_fold(c, cfg, es);
    if st.current.len() > 0 {
        lemma_chunk_glyphs_push(st.chunks, mk_sem(c, st.current, cfg.max_tokens as nat));
    } else {
        assert(st.current =~= Seq::<ElementView>::empty());
        assert(sem_chunk_glyphs(st.chunks) + Seq::<char>::empty() =~= sem_chunk_glyphs(st.chunks));
    }
}

/// The sum of the token counts of the displayed texts of `es`.
pub open spec fn tokens_sum<C: TokenCounter>(c: C, es: Seq<ElementView>) -> nat
    decreases es.len(),
{
    if es.len() == 0 {
        0
    } else {
        c.spec_count(es[0].display()) + tokens_sum(c, es.drop_first())
    }
}

/// `x`, or `usize::MAX` when it is larger.
pub open spec fn capped(x: nat) -> nat {
    if x > usize::MAX {
        usize::MAX as nat
    } else {
        x
    }
}

/// The last `k` elements of `es`.
pub open spec fn last_k(es: Seq<ElementView>, k: int) -> Seq<ElementView> {
    es.subrange(es.len() - k, es.len() as int)
}

/// Walking back from `k` trailing elements whose capped sum is `acc`: the
/// walk ends with at least `k` elements (at least one), a carried run that
/// is a single element or fits the limit, and one more element would not
/// fit.
proof fn lemma_overlap_walk<C: TokenCounter>(
    c: C,
    es: Seq<ElementView>,
    limit: nat,
    k: nat,
    acc: nat,
)
    requires
        k <= es.len(),
        limit <= usize::MAX,
        acc == capped(tokens_sum(c, last_k(es, k as int))),
        k >= 2 ==> acc <= limit,
    ensures
        ({
            let r = overlap_from(c, es, limit, k, acc);
            &&& k <= r.0 <= es.len()
            &&& es.len() > 0 ==> r.0 >= 1
            &&& r.1 == capped(tokens_sum(c, last_k(es, r.0 as int)))
            &&& (r.0 >= 2 ==> r.1 <= limit)
            &&& (r.0 < es.len() ==> capped(tokens_sum(c, last_k(es, r.0 + 1 as int))) > limit)
        }),
    decreases es.len() - k,
{
    if k < es.len() {
        let x = es[es.len() - 1 - k];
        let t = elem_tokens(c, x);
        let next = last_k(es, k + 1 as int);
        assert(next[0] == x);
        assert(next.drop_first() =~= last_k(es, k as int));
        assert(tokens_sum(c, next) == t + tokens_sum(c, last_k(es, k as int)));
        assert(sat_add(acc, t) == capped(tokens_sum(c, next)));
        if !(sat_add(acc, t) > limit && k > 0) {
            lemma_overlap_walk(c, es, limit, k + 1, sat_add(acc, t));
        }
    }
}

/// After a flush with an overlap budget, the next chunk starts from the
/// longest run of trailing elements of the flushed chunk whose token counts
/// sum to at most the overlap budget, and always from at least its last
/// element: the carried elements are a suffix of the flushed chunk, they
/// fit the budget unless there is just one, and one more earlier element
/// would not fit. The running sum starts at their sum. (Sums are taken as
/// the chunker keeps them, capped at `usize::MAX`.)
pub proof fn lemma_flush_carries_longest_fitting_suffix<C: TokenCounter>(
    c: C,
    cfg: SemanticChunkConfig,
    st: SemState,
)
    requires
        cfg.overlap_tokens > 0,
        st.current.len() > 0,
    ensures
        ({
            let r = sem_flush(c, cfg, st);
            let n = st.current.len() as int;
            let k = r.current.len() as int;
            &&& r.chunks == st.chunks.push(mk_sem(c, st.current, cfg.max_tokens as nat))
            &&& 1 <= k <= n
            &&& r.current == st.current.subrange(n - k, n)
            &&& (k >= 2 ==> capped(tokens_sum(c, r.current)) <= cfg.overlap_tokens)
            &&& (k < n ==> capped(tokens_sum(c, st.current.subrange(n - k - 1, n)))
                > cfg.overlap_tokens)
            &&& r.tokens == capped(tokens_sum(c, r.current))
        }),
{
    let es = st.current;
    assert(last_k(es, 0) =~= Seq::<ElementView>::empty());
    assert(tokens_sum(c, Seq::<ElementView>::empty()) == 0);
    lemma_overlap_walk(c, es, cfg.overlap_tokens as nat, 0, 0);
}

/// Without an overlap budget, a flush starts the next chunk empty.
pub proof fn lemma_flush_without_overlap<C: TokenCounter>(
    c: C,
    cfg: SemanticChunkConfig,
    st: SemState,
)
    requires
        cfg.overlap_tokens == 0,
    ensures
        sem_flush(c, cfg, st).chunks == st.chunks.push(mk_sem(c, st.current, cfg.max_tokens as nat)),
        sem_flush(c, cfg, st).current.len() == 0,
        sem_flush(c, cfg, st).tokens == 0,
{
}

/// Which elements the semantic chunker may cut at sentence ends:
/// paragraphs, list items, code blocks and key-value pairs; titles, tables,
/// headers, footers and images are kept whole.
pub proof fn lemma_semantic_splittable(e: ElementView)
    ensures
        sem_splittable(e) <==> (e is Paragraph || e is ListItem || e is CodeBlock || e is KeyValue),
{
}

/// Two text elements (paragraphs, list items, code blocks or key-value
/// pairs) whose token counts sum to at most the budget are packed into one
/// chunk; when their sum exceeds the budget but each fits on its own, the
/// first is emitted alone and, without an overlap budget, the second starts
/// the next chunk alone. (The running sum saturates at `usize::MAX`, so with
/// a budget of `usize::MAX` a sum beyond it still packs.)
pub proof fn lemma_semantic_pair<C: TokenCounter>(
    c: C,
    cfg: SemanticChunkConfig,
    a: ElementView,
    b: ElementView,
)
    requires
        a is Paragraph || a is ListItem || a is CodeBlock || a is KeyValue,
        b is Paragraph || b is ListItem || b is CodeBlock || b is KeyValue,
        elem_tokens(c, a) <= cfg.max_tokens,
        elem_tokens(c, b) <= cfg.max_tokens,
    ensures
        elem_tokens(c, a) + elem_tokens(c, b) <= cfg.max_tokens ==> semantic_chunks(
            c,
            cfg,
            seq![a, b],
        ) == seq![mk_sem(c, seq![a, b], cfg.max_tokens as nat)],
        elem_tokens(c, a) + elem_tokens(c, b) > cfg.max_tokens && cfg.overlap_tokens == 0 && (
        cfg.max_tokens < usize::MAX || elem_tokens(c, a) + elem_tokens(c, b) <= usize::MAX)
            ==> semantic_chunks(c, cfg, seq![a, b]) == seq![
            mk_sem(c, seq![a], cfg.max_tokens as nat),
            mk_sem(c, seq![b], cfg.max_tokens as nat),
        ],
{
    let es = seq![a, b];
    let max = cfg.max_tokens as nat;
    assert(es.drop_last() =~= seq![a]);
    assert(seq![a].drop_last() =~= Seq::<ElementView>::empty());
    let st0 = SemState { chunks: Seq::empty(), current: Seq::empty(), tokens: 0 };
    assert(sem_fold(c, cfg, Seq::<ElementView>::empty()) == st0);
    let ta = elem_tokens(c, a);
    let tb = elem_tokens(c, b);
    assert(sat_add(0, ta) == ta);
    let st1 = sem_step(c, cfg, st0, a);
    assert(st0.current.push(a) =~= seq![a]);
    assert(st1 == SemState { chunks: Seq::<SemanticChunkView>::empty(), current: seq![a], tokens: ta });
    assert(sem_fold(c, cfg, seq![a]) == st1);
    let st2 = sem_step(c, cfg, st1, b);
    assert(sem_fold(c, cfg, es) == st2);
    if ta + tb <= max {
        assert(sat_add(ta, tb) == ta + tb);
        assert(seq![a].push(b) =~= es);
        assert(st2.current == es);
        assert(st2.chunks == Seq::<SemanticChunkView>::empty());
    } else if cfg.overlap_tokens == 0 && (cfg.max_tokens < usize::MAX || ta + tb <= usize::MAX) {
        assert(sat_add(ta, tb) > max);
        let f = sem_flush(c, cfg, st1);
        assert(f.chunks == seq![mk_sem(c, seq![a], max)]);
        assert(f.current.push(b) =~= seq![b]);
        assert(st2.current == seq![b]);
        assert(seq![mk_sem(c, seq![a], max)].push(mk_sem(c, seq![b], max)) =~= seq![
            mk_sem(c, seq![a], max),
            mk_sem(c, seq![b], max),
        ]);
    }
}

} // verus!
