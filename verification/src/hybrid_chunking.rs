//! Hybrid chunking: adjacent inline elements are merged into chunks bounded
//! by a token budget, structural elements start chunks of their own, oversized
//! paragraphs are split at sentence boundaries, and each chunk carries the
//! heading context of its elements.

use vstd::prelude::*;
use crate::element::{
    displays, join_displays, lemma_displays_push, opt_view, views, Element, ElementData,
    ElementView,
};
use crate::element::{copy_opt_string, strings_view};
use crate::graph::{lemma_top_sections_in_range, top_sections, ElementGraph, GraphView};
use crate::objects::copy_string;
use crate::text::{
    append_str, chars_of, is_ws, join, lemma_join_push, push_char, string_of, trim,
    trim_chars, trim_string,
};
use crate::token_counter::{TokenCounter, WordProxyCounter};

verus! {

/// Which adjacent element types may be merged into one chunk.
#[derive(Debug, Clone, Copy, PartialEq, Eq, Structural)]
pub enum MergePolicy {
    /// Only paragraph with paragraph and list item with list item.
    SameTypeOnly,
    /// Any two inline elements (paragraphs, list items, key-value pairs);
    /// titles, tables, images and code blocks always start a new chunk.
    AnyInlineContent,
}

/// The format of a contextual prefix.
#[derive(Debug, Clone, Copy, PartialEq, Eq, Structural)]
#[non_exhaustive]
pub enum ContextFormat {
    /// Labeled lines: `Document: <title> — <author>` / `Section: <breadcrumb> (p. N–M)`.
    Labeled,
    /// One sentence: `This chunk is from "<title>" by <author>, section "<breadcrumb>" (p. N–M).`
    Prose,
}

/// How a chunk's embedding text is given context.
#[derive(Debug, Clone, Copy, PartialEq, Eq, Structural)]
pub enum ContextMode {
    /// No prefix: the embedding text is the chunk text.
    NoContext,
    /// The leaf heading, then a blank line, then the chunk text.
    Heading,
    /// A document and section prefix in the given format.
    Contextual(ContextFormat),
}

impl Default for ContextMode {
    /// The default mode, `Heading`.
    fn default() -> (m: ContextMode)
        ensures
            m == ContextMode::Heading,
    {
        ContextMode::Heading
    }
}

/// Configuration of the hybrid chunker.
#[derive(Debug, Clone, Copy)]
pub struct HybridChunkConfig {
    /// Token budget of a chunk.
    pub max_tokens: usize,
    /// Kept for compatibility; chunks never share elements, so it has no
    /// effect.
    pub overlap_tokens: usize,
    /// Whether adjacent mergeable elements are merged.
    pub merge_adjacent: bool,
    /// Whether chunks carry the `parent_heading` of their elements.
    pub propagate_headings: bool,
    /// Which element types merge.
    pub merge_policy: MergePolicy,
    /// How the embedding text of a chunk is given context.
    pub context_mode: ContextMode,
}

/// The default configuration: 512 tokens, 50 overlap tokens, merging and
/// heading propagation on, any inline content merging, heading context.
pub open spec fn default_config() -> HybridChunkConfig {
    HybridChunkConfig {
        max_tokens: 512,
        overlap_tokens: 50,
        merge_adjacent: true,
        propagate_headings: true,
        merge_policy: MergePolicy::AnyInlineContent,
        context_mode: ContextMode::Heading,
    }
}

impl Default for HybridChunkConfig {
    /// The default configuration.
    fn default() -> (c: HybridChunkConfig)
        ensures
            c == default_config(),
    {
        HybridChunkConfig {
            max_tokens: 512,
            overlap_tokens: 50,
            merge_adjacent: true,
            propagate_headings: true,
            merge_policy: MergePolicy::AnyInlineContent,
            context_mode: ContextMode::Heading,
        }
    }
}

/// The value of a chunk.
pub struct ChunkView {
    pub elements: Seq<ElementView>,
    pub heading: Option<Seq<char>>,
    pub oversized: bool,
    pub token_estimate: nat,
}

/// The text of a chunk made of `es`: their displayed texts, one per line.
pub open spec fn chunk_text(es: Seq<ElementView>) -> Seq<char> {
    join(displays(es), seq!['\n'])
}

/// The chunk of `es` with heading `h` and flag `oversized`, its token count
/// taken by `c` over its whole text.
pub open spec fn mk_chunk<C: TokenCounter>(
    c: C,
    es: Seq<ElementView>,
    h: Option<Seq<char>>,
    oversized: bool,
) -> ChunkView {
    ChunkView { elements: es, heading: h, oversized, token_estimate: c.spec_count(chunk_text(es)) }
}

/// Paragraphs, list items and key-value pairs.
pub open spec fn is_inline(e: ElementView) -> bool {
    e is Paragraph || e is ListItem || e is KeyValue
}

/// Paragraphs and list items: the elements whose text may be split at
/// sentence boundaries.
pub open spec fn is_splittable(e: ElementView) -> bool {
    e is Paragraph || e is ListItem
}

/// Whether `b` may join a chunk that ends with `a` under `policy`.
pub open spec fn can_merge(a: ElementView, b: ElementView, policy: MergePolicy) -> bool {
    match policy {
        MergePolicy::SameTypeOnly => (a is Paragraph && b is Paragraph) || (a is ListItem
            && b is ListItem),
        MergePolicy::AnyInlineContent => is_inline(a) && is_inline(b),
    }
}

/// A sentence delimiter.
pub open spec fn is_delim(c: char) -> bool {
    c == '.' || c == '!' || c == '?'
}

/// Adds `s` to `acc` unless it is empty.
pub open spec fn push_nonempty(acc: Seq<Seq<char>>, s: Seq<char>) -> Seq<Seq<char>> {
    if s.len() > 0 {
        acc.push(s)
    } else {
        acc
    }
}

/// The sentences of `t` from position `i` on, given the sentences `acc`
/// already found and the text `cur` of the sentence in progress. A sentence
/// ends at a delimiter followed by a space (the space is dropped) or at a
/// newline; each sentence is trimmed, and empty ones at newlines or at the
/// end are dropped.
pub open spec fn sentences_from(t: Seq<char>, i: int, cur: Seq<char>, acc: Seq<Seq<char>>) -> Seq<
    Seq<char>,
>
    decreases t.len() - i,
{
    if i < 0 || i >= t.len() {
        push_nonempty(acc, trim(cur))
    } else {
        let ch = t[i];
        let cur2 = cur.push(ch);
        if is_delim(ch) {
            if i + 1 < t.len() && t[i + 1] == ' ' {
                sentences_from(t, i + 2, Seq::empty(), acc.push(trim(cur2)))
            } else {
                sentences_from(t, i + 1, cur2, acc)
            }
        } else if ch == '\n' {
            sentences_from(t, i + 1, Seq::empty(), push_nonempty(acc, trim(cur2)))
        } else {
            sentences_from(t, i + 1, cur2, acc)
        }
    }
}

/// The sentences of `t`.
pub open spec fn sentences(t: Seq<char>) -> Seq<Seq<char>> {
    sentences_from(t, 0, Seq::empty(), Seq::empty())
}

/// One step of packing sentences into fragments: finished fragments and the
/// fragment in progress, after sentence `s`.
pub open spec fn frag_step<C: TokenCounter>(
    c: C,
    max: nat,
    st: (Seq<Seq<char>>, Seq<char>),
    s: Seq<char>,
) -> (Seq<Seq<char>>, Seq<char>) {
    let s2 = trim(s);
    if s2.len() == 0 {
        st
    } else if st.1.len() == 0 {
        (st.0, s2)
    } else if c.spec_count(st.1 + seq![' '] + s2) <= max {
        (st.0, st.1 + seq![' '] + s2)
    } else {
        (st.0.push(st.1), s2)
    }
}

/// The packing state after the sentences `ss`.
pub open spec fn frag_fold<C: TokenCounter>(c: C, max: nat, ss: Seq<Seq<char>>) -> (
    Seq<Seq<char>>,
    Seq<char>,
)
    decreases ss.len(),
{
    if ss.len() == 0 {
        (Seq::empty(), Seq::empty())
    } else {
        frag_step(c, max, frag_fold(c, max, ss.drop_last()), ss.last())
    }
}

/// The fragments of `t`: its sentences packed greedily, joined by single
/// spaces, into pieces of at most `max` tokens (a sentence longer than that
/// is a piece of its own); `t` itself if it has no sentence.
pub open spec fn sentence_fragments<C: TokenCounter>(c: C, t: Seq<char>, max: nat) -> Seq<Seq<char>> {
    let st = frag_fold(c, max, sentences(t));
    let f = push_nonempty(st.0, st.1);
    if f.len() == 0 {
        seq![t]
    } else {
        f
    }
}

/// Splits `text` into sentences: a sentence ends at `.`, `!` or `?`
/// followed by a space (which is dropped) or at a newline; sentences are
/// trimmed, and empty ones at newlines or at the end are dropped.
pub fn split_into_sentences(text: &str) -> (r: Vec<String>)
    ensures
        strings_view(r@) == sentences(text@),
{
    let t = chars_of(text);
    let n = t.len();
    let mut out: Vec<String> = Vec::new();
    let mut cur: Vec<char> = Vec::new();
    let mut i: usize = 0;
    assert(strings_view(out@) =~= Seq::<Seq<char>>::empty());
    assert(cur@ =~= Seq::<char>::empty());
    while i < n
        invariant
            n == t@.len(),
            t@ == text@,
            i <= n,
            sentences(text@) == sentences_from(t@, i as int, cur@, strings_view(out@)),
        decreases n - i,
    {
        let ghost cur0 = cur@;
        let ghost acc0 = strings_view(out@);
        let ch = t[i];
        cur.push(ch);
        if ch == '.' || ch == '!' || ch == '?' {
            if i + 1 < n && t[i + 1] == ' ' {
                let tr = trim_chars(cur.as_slice());
                let s = string_of(tr.as_slice());
                out.push(s);
                assert(strings_view(out@) =~= acc0.push(trim(cur0.push(ch))));
                cur = Vec::new();
                assert(cur@ =~= Seq::<char>::empty());
                i = i + 2;
            } else {
                i = i + 1;
            }
        } else if ch == '\n' {
            let tr = trim_chars(cur.as_slice());
            if tr.len() > 0 {
                let s = string_of(tr.as_slice());
                out.push(s);
                assert(strings_view(out@) =~= acc0.push(trim(cur0.push(ch))));
            } else {
                assert(strings_view(out@) =~= acc0);
            }
            cur = Vec::new();
            assert(cur@ =~= Seq::<char>::empty());
            i = i + 1;
        } else {
            i = i + 1;
        }
    }
    let ghost acc0 = strings_view(out@);
    let tr = trim_chars(cur.as_slice());
    if tr.len() > 0 {
        let s = string_of(tr.as_slice());
        out.push(s);
        assert(strings_view(out@) =~= acc0.push(trim(cur@)));
    }
    out
}

/// `a`, a space, then `b`.
fn join_space(a: &str, b: &str) -> (s: String)
    ensures
        s@ == a@ + seq![' '] + b@,
{
    let mut s = a.to_owned();
    push_char(&mut s, ' ');
    append_str(&mut s, b);
    s
}

/// A counter additive over a whitespace join counts `a + " " + b` as the
/// counts of `a` and `b` together.
proof fn lemma_space_join_count<C: TokenCounter>(c: C, a: Seq<char>, b: Seq<char>)
    requires
        forall|x: Seq<char>, sep: char, y: Seq<char>|
            is_ws(sep) ==> #[trigger] c.spec_count(x + seq![sep] + y) == c.spec_count(x)
                + c.spec_count(y),
    ensures
        c.spec_count(a + seq![' '] + b) == c.spec_count(a) + c.spec_count(b),
{
    assert(is_ws(' '));
}

/// Packs the sentences of `text` greedily into fragments of at most
/// `max_tokens` tokens under `counter`, sentences joined by single spaces; a
/// sentence longer than the budget is a fragment of its own. Never empty:
/// `text` itself when it has no sentence.
pub fn split_by_sentences<C: TokenCounter>(text: &str, counter: &C, max_tokens: usize) -> (r: Vec<
    String,
>)
    ensures
        strings_view(r@) == sentence_fragments(*counter, text@, max_tokens as nat),
        r@.len() > 0,
{
    let sentences = split_into_sentences(text);
    let ghost sv = strings_view(sentences@);
    let ghost max = max_tokens as nat;
    let additive = counter.is_additive_over_whitespace_join();
    let mut fragments: Vec<String> = Vec::new();
    let mut current = String::new();
    let mut current_tokens: usize = 0;
    for i in 0..sentences.len()
        invariant
            sv == strings_view(sentences@),
            sv == crate::hybrid_chunking::sentences(text@),
            max == max_tokens as nat,
            frag_fold(*counter, max, sv.take(i as int)) == (strings_view(fragments@), current@),
            additive && current@.len() > 0 ==> current_tokens == counter.spec_count(current@),
            additive ==> forall|x: Seq<char>, sep: char, y: Seq<char>|
                is_ws(sep) ==> #[trigger] counter.spec_count(x + seq![sep] + y)
                    == counter.spec_count(x) + counter.spec_count(y),
    {
        proof {
            assert(sv.take(i + 1).drop_last() =~= sv.take(i as int));
            assert(sv.take(i + 1).last() == sentences@[i as int]@);
        }
        let ghost f0 = strings_view(fragments@);
        let sentence = trim_string(sentences[i].as_str());
        if sentence.as_str().is_empty() {
        } else if current.as_str().is_empty() {
            current = sentence;
            current_tokens = if additive {
                counter.count(current.as_str())
            } else {
                0
            };
        } else {
            let sentence_tokens = counter.count(sentence.as_str());
            let mut candidate: Option<String> = None;
            let fits = if additive {
                proof {
                    lemma_space_join_count(*counter, current@, sentence@);
                }
                match current_tokens.checked_add(sentence_tokens) {
                    Some(total) => total <= max_tokens,
                    None => false,
                }
            } else {
                let joined = join_space(current.as_str(), sentence.as_str());
                let f = counter.count(joined.as_str()) <= max_tokens;
                candidate = Some(joined);
                f
            };
            assert(additive ==> candidate is None && fits == (current_tokens + sentence_tokens
                <= max_tokens));
            assert(!additive ==> candidate is Some);
            if fits {
                match candidate {
                    Some(joined) => {
                        current = joined;
                    },
                    None => {
                        current = join_space(current.as_str(), sentence.as_str());
                        current_tokens = current_tokens + sentence_tokens;
                    },
                }
            } else {
                let done = current;
                fragments.push(done);
                assert(strings_view(fragments@) =~= f0.push(done@));
                current = sentence;
                current_tokens = sentence_tokens;
            }
        }
    }
    assert(sv.take(sentences.len() as int) =~= sv);
    if !current.as_str().is_empty() {
        let ghost f0 = strings_view(fragments@);
        let ghost c0 = current@;
        fragments.push(current);
        assert(strings_view(fragments@) =~= f0.push(c0));
    }
    if fragments.len() == 0 {
        fragments.push(text.to_owned());
        assert(strings_view(fragments@) =~= seq![text@]);
    }
    fragments
}

/// A group of elements with their heading context: what a chunking
/// strategy yields before token counts are taken.
#[derive(Debug, Clone)]
pub struct ChunkGroup {
    pub elements: Vec<Element>,
    pub heading_context: Option<String>,
}

impl ChunkGroup {
    /// A group of `elements` under `heading_context`.
    pub fn new(elements: Vec<Element>, heading_context: Option<String>) -> (g: ChunkGroup)
        ensures
            g.elements@ == elements@,
            g.heading_context == heading_context,
    {
        ChunkGroup { elements, heading_context }
    }
}

/// A chunk: a group of elements with their heading context, whether it
/// exceeds the budget, and its token count.
#[derive(Debug, Clone)]
pub struct HybridChunk {
    elements: Vec<Element>,
    /// The heading context of the chunk.
    pub heading_context: Option<String>,
    oversized: bool,
    token_estimate: usize,
}

impl View for HybridChunk {
    type V = ChunkView;

    closed spec fn view(&self) -> ChunkView {
        ChunkView {
            elements: views(self.elements@),
            heading: opt_view(self.heading_context),
            oversized: self.oversized,
            token_estimate: self.token_estimate as nat,
        }
    }
}

/// The values of a list of chunks.
pub open spec fn chunk_views(cs: Seq<HybridChunk>) -> Seq<ChunkView> {
    cs.map_values(|c: HybridChunk| c@)
}

/// The chunk text of `elements`, built.
fn chunk_text_of(elements: &[Element]) -> (s: String)
    ensures
        s@ == chunk_text(views(elements@)),
{
    let nl = vec!['\n'];
    let v = join_displays(elements, nl.as_slice());
    assert(nl@ =~= seq!['\n']);
    string_of(v.as_slice())
}

impl HybridChunk {
    /// The elements of the chunk.
    pub fn elements(&self) -> (r: &[Element])
        ensures
            views(r@) == self@.elements,
    {
        self.elements.as_slice()
    }

    /// The displayed texts of the elements, one per line.
    pub fn text(&self) -> (s: String)
        ensures
            s@ == chunk_text(self@.elements),
    {
        chunk_text_of(self.elements.as_slice())
    }

    /// The text for embedding: the heading context, a blank line, then the
    /// chunk text; just the chunk text when there is no heading context.
    pub fn full_text(&self) -> (s: String)
        ensures
            s@ == match self@.heading {
                Some(h) => h + seq!['\n', '\n'] + chunk_text(self@.elements),
                None => chunk_text(self@.elements),
            },
    {
        match &self.heading_context {
            Some(h) => {
                let mut s = copy_string(h);
                push_char(&mut s, '\n');
                push_char(&mut s, '\n');
                let t = self.text();
                append_str(&mut s, t.as_str());
                assert(s@ =~= h@ + seq!['\n', '\n'] + t@);
                s
            },
            None => self.text(),
        }
    }

    /// The token count stamped when the chunk was made.
    pub fn token_estimate(&self) -> (n: usize)
        ensures
            n == self@.token_estimate,
    {
        self.token_estimate
    }

    /// The heading context of the chunk.
    pub fn heading(&self) -> (h: &Option<String>)
        ensures
            opt_view(*h) == self@.heading,
    {
        &self.heading_context
    }

    /// Whether the chunk exceeds the budget.
    pub fn is_oversized(&self) -> (b: bool)
        ensures
            b == self@.oversized,
    {
        self.oversized
    }

    /// The group of elements and heading context, without the counts.
    pub fn into_group(self) -> (g: ChunkGroup)
        ensures
            views(g.elements@) == self@.elements,
            opt_view(g.heading_context) == self@.heading,
    {
        ChunkGroup { elements: self.elements, heading_context: self.heading_context }
    }

    /// A chunk of a group, counted with the word proxy and flagged oversized
    /// when the count exceeds `max_tokens`.
    pub fn from_group(group: ChunkGroup, max_tokens: usize) -> (c: HybridChunk)
        ensures
            c@.elements == views(group.elements@),
            c@.heading == opt_view(group.heading_context),
            c@.token_estimate == WordProxyCounter.spec_count(chunk_text(views(group.elements@))),
            c@.oversized == (c@.token_estimate > max_tokens),
    {
        let text = chunk_text_of(group.elements.as_slice());
        let token_estimate = WordProxyCounter.count(text.as_str());
        let oversized = token_estimate > max_tokens;
        HybridChunk {
            elements: group.elements,
            heading_context: group.heading_context,
            oversized,
            token_estimate,
        }
    }
}

/// The chunker's state between elements: the chunks emitted so far, the
/// elements buffered for the next chunk and the buffer's heading.
pub struct ChunkState {
    pub chunks: Seq<ChunkView>,
    pub buffer: Seq<ElementView>,
    pub heading: Option<Seq<char>>,
}

/// The state before any element.
pub open spec fn chunk_init() -> ChunkState {
    ChunkState { chunks: Seq::empty(), buffer: Seq::empty(), heading: None }
}

/// The heading an element passes on to its chunk.
pub open spec fn heading_of(cfg: HybridChunkConfig, e: ElementView) -> Option<Seq<char>> {
    if cfg.propagate_headings {
        e.meta().parent_heading
    } else {
        None
    }
}

/// The paragraph that holds fragment `f` of `e`, with `e`'s metadata.
pub open spec fn fragment_element(e: ElementView, f: Seq<char>) -> ElementView {
    ElementView::Paragraph(f, e.meta())
}

/// The chunks an oversized splittable element becomes: one per fragment of
/// its text, each trimmed and flagged oversized when it still exceeds the
/// budget.
pub open spec fn fragment_chunks<C: TokenCounter>(
    c: C,
    cfg: HybridChunkConfig,
    e: ElementView,
) -> Seq<ChunkView> {
    sentence_fragments(c, e.display(), cfg.max_tokens as nat).map_values(
        |f: Seq<char>|
            mk_chunk(
                c,
                seq![fragment_element(e, trim(f))],
                heading_of(cfg, e),
                c.spec_count(trim(f)) > cfg.max_tokens,
            ),
    )
}

/// The token count of the buffer with `e` added: of the joined text.
pub open spec fn joined_count<C: TokenCounter>(
    c: C,
    buffer: Seq<ElementView>,
    e: ElementView,
) -> nat {
    if buffer.len() == 0 {
        c.spec_count(e.display())
    } else {
        c.spec_count(chunk_text(buffer.push(e)))
    }
}

/// Whether `e` joins the buffer: merging is on, the buffer is not empty, the
/// policy lets `e` follow the buffer's last element, and the joined text
/// fits the budget.
pub open spec fn merges<C: TokenCounter>(
    c: C,
    cfg: HybridChunkConfig,
    st: ChunkState,
    e: ElementView,
) -> bool {
    &&& cfg.merge_adjacent
    &&& st.buffer.len() > 0
    &&& can_merge(st.buffer.last(), e, cfg.merge_policy)
    &&& joined_count(c, st.buffer, e) <= cfg.max_tokens
}

/// The chunks emitted so far, with the buffer emitted as a chunk if it
/// holds anything.
pub open spec fn flushed<C: TokenCounter>(c: C, st: ChunkState) -> Seq<ChunkView> {
    if st.buffer.len() > 0 {
        st.chunks.push(mk_chunk(c, st.buffer, st.heading, false))
    } else {
        st.chunks
    }
}

/// The state after element `e`. If `e` joins the buffer, it is added.
/// Otherwise the buffer is emitted; then an element over the budget becomes
/// its fragment chunks (paragraphs, list items) or an oversized chunk of its
/// own (anything else), and an element within the budget starts a new
/// buffer.
pub open spec fn chunk_step<C: TokenCounter>(
    c: C,
    cfg: HybridChunkConfig,
    st: ChunkState,
    e: ElementView,
) -> ChunkState {
    if merges(c, cfg, st, e) {
        ChunkState { chunks: st.chunks, buffer: st.buffer.push(e), heading: st.heading }
    } else if c.spec_count(e.display()) > cfg.max_tokens {
        if is_splittable(e) {
            ChunkState {
                chunks: flushed(c, st) + fragment_chunks(c, cfg, e),
                buffer: Seq::empty(),
                heading: None,
            }
        } else {
            ChunkState {
                chunks: flushed(c, st).push(mk_chunk(c, seq![e], heading_of(cfg, e), true)),
                buffer: Seq::empty(),
                heading: None,
            }
        }
    } else {
        ChunkState { chunks: flushed(c, st), buffer: seq![e], heading: heading_of(cfg, e) }
    }
}

/// The state after the elements `es`.
pub open spec fn chunk_fold<C: TokenCounter>(
    c: C,
    cfg: HybridChunkConfig,
    es: Seq<ElementView>,
) -> ChunkState
    decreases es.len(),
{
    if es.len() == 0 {
        chunk_init()
    } else {
        chunk_step(c, cfg, chunk_fold(c, cfg, es.drop_last()), es.last())
    }
}

/// The chunks of `es`: the state after all of them, with the last buffer
/// emitted.
pub open spec fn hybrid_chunks<C: TokenCounter>(
    c: C,
    cfg: HybridChunkConfig,
    es: Seq<ElementView>,
) -> Seq<ChunkView> {
    flushed(c, chunk_fold(c, cfg, es))
}

/// The elements of the section of title `t`: the title, then its children.
pub open spec fn section_elements(es: Seq<ElementView>, g: GraphView, t: usize) -> Seq<ElementView> {
    seq![es[t as int]] + g.children[t as int].map_values(|j: usize| es[j as int])
}

/// The heading context of a section: its title's `parent_heading`, or else
/// the title's text.
pub open spec fn section_heading(title: ElementView) -> Option<Seq<char>> {
    match title.meta().parent_heading {
        Some(h) => Some(h),
        None => Some(title.text()),
    }
}

/// `cs` with heading `h` on every chunk.
pub open spec fn with_heading(cs: Seq<ChunkView>, h: Option<Seq<char>>) -> Seq<ChunkView> {
    cs.map_values(
        |ch: ChunkView|
            ChunkView {
                elements: ch.elements,
                heading: h,
                oversized: ch.oversized,
                token_estimate: ch.token_estimate,
            },
    )
}

/// The chunks of the section of title `t`: one chunk when the text of the
/// whole section fits the budget; otherwise its hybrid chunks, each given
/// the section's heading.
pub open spec fn section_chunks<C: TokenCounter>(
    c: C,
    cfg: HybridChunkConfig,
    es: Seq<ElementView>,
    g: GraphView,
    t: usize,
) -> Seq<ChunkView> {
    let sec = section_elements(es, g, t);
    let h = section_heading(es[t as int]);
    if c.spec_count(chunk_text(sec)) <= cfg.max_tokens {
        seq![mk_chunk(c, sec, h, false)]
    } else {
        with_heading(hybrid_chunks(c, cfg, sec), h)
    }
}

/// The chunks of the sections of the titles `tops`, in order.
pub open spec fn sections_chunks<C: TokenCounter>(
    c: C,
    cfg: HybridChunkConfig,
    es: Seq<ElementView>,
    g: GraphView,
    tops: Seq<usize>,
) -> Seq<ChunkView>
    decreases tops.len(),
{
    if tops.len() == 0 {
        Seq::empty()
    } else {
        sections_chunks(c, cfg, es, g, tops.drop_last()) + section_chunks(c, cfg, es, g, tops.last())
    }
}

/// The elements before the first top-level title (all of them when there is
/// none).
pub open spec fn preamble_len(es: Seq<ElementView>, tops: Seq<usize>) -> int {
    if tops.len() > 0 {
        tops[0] as int
    } else {
        es.len() as int
    }
}

/// Every top-level title of `g`, and every element of its section, is one of
/// the first `n` elements.
pub open spec fn sections_in_range(g: GraphView, n: int) -> bool {
    let tops = top_sections(g, g.parents.len() as int);
    &&& forall|k: int| 0 <= k < tops.len() ==> #[trigger] tops[k] < n
    &&& forall|k: int, j: int|
        0 <= k < tops.len() && 0 <= j < g.children[tops[k] as int].len()
            ==> #[trigger] g.children[tops[k] as int][j] < n
}

/// A well-formed graph of `n` nodes has its sections among the first `n`
/// elements; so the graph `ElementGraph::build` makes of a list of elements
/// fits that list.
pub proof fn lemma_graph_sections_in_range(graph: &ElementGraph, n: int)
    requires
        graph.wf(),
        graph.node_count() == n,
    ensures
        sections_in_range(graph.view(), n),
{
    graph.lemma_links_in_range();
    let g = graph.view();
    lemma_top_sections_in_range(g, g.parents.len() as int);
    let tops = top_sections(g, g.parents.len() as int);
    assert forall|k: int, j: int|
        0 <= k < tops.len() && 0 <= j < g.children[tops[k] as int].len() implies #[trigger] g.children[tops[k] as int][j]
        < n by {
        assert(tops[k] < n);
    }
}

/// Chunking by sections: the elements before the first top-level title are
/// chunked as usual, then each top-level section in turn.
pub open spec fn graph_chunks<C: TokenCounter>(
    c: C,
    cfg: HybridChunkConfig,
    es: Seq<ElementView>,
    g: GraphView,
) -> Seq<ChunkView> {
    if es.len() == 0 {
        Seq::empty()
    } else {
        let tops = top_sections(g, g.parents.len() as int);
        hybrid_chunks(c, cfg, es.take(preamble_len(es, tops))) + sections_chunks(c, cfg, es, g, tops)
    }
}

/// `buffered`, a newline, then `next`; just `next` when the buffer holds no
/// element. The budget decision and the emitted chunk measure text built
/// this same way.
fn append_element_text(buffered: &str, next: &str, buffer_is_empty: bool) -> (s: String)
    ensures
        s@ == if buffer_is_empty {
            next@
        } else {
            buffered@ + seq!['\n'] + next@
        },
{
    if buffer_is_empty {
        return next.to_owned();
    }
    let mut s = buffered.to_owned();
    push_char(&mut s, '\n');
    append_str(&mut s, next);
    s
}

/// Whether `b` may follow `a` in a chunk under `policy`.
fn can_merge_elements(a: &Element, b: &Element, policy: &MergePolicy) -> (r: bool)
    ensures
        r == can_merge(a.view(), b.view(), *policy),
{
    match policy {
        MergePolicy::SameTypeOnly => (matches!(a, Element::Paragraph(_)) && matches!(b, Element::Paragraph(_)))
            || (matches!(a, Element::ListItem(_)) && matches!(b, Element::ListItem(_))),
        MergePolicy::AnyInlineContent => is_inline_element(a) && is_inline_element(b),
    }
}

/// Paragraphs, list items and key-value pairs.
fn is_inline_element(e: &Element) -> (r: bool)
    ensures
        r == is_inline(e.view()),
{
    matches!(e, Element::Paragraph(_) | Element::ListItem(_) | Element::KeyValue(_))
}

/// Paragraphs and list items.
fn is_splittable_element(e: &Element) -> (r: bool)
    ensures
        r == is_splittable(e.view()),
{
    matches!(e, Element::Paragraph(_) | Element::ListItem(_))
}

/// A paragraph holding `fragment_text`, with the metadata of `source`.
fn make_text_fragment_element(source: &Element, fragment_text: &str) -> (r: Element)
    ensures
        r.view() == fragment_element(source.view(), fragment_text@),
{
    let metadata = source.metadata().copy();
    Element::Paragraph(ElementData { text: fragment_text.to_owned(), metadata })
}

/// Adding `e` to a non-empty buffer adds a newline and `e`'s text.
proof fn lemma_chunk_text_push(buffer: Seq<ElementView>, e: ElementView)
    requires
        buffer.len() > 0,
    ensures
        chunk_text(buffer.push(e)) == chunk_text(buffer) + seq!['\n'] + e.display(),
{
    lemma_displays_push(buffer, e);
    lemma_join_push(displays(buffer), seq!['\n'], e.display());
}

/// Under a counter additive over a whitespace join, the joined text of a
/// buffer and an element counts as their counts together.
pub proof fn lemma_joined_additive<C: TokenCounter>(c: C, buffer: Seq<ElementView>, e: ElementView)
    requires
        buffer.len() > 0,
        forall|x: Seq<char>, sep: char, y: Seq<char>|
            is_ws(sep) ==> #[trigger] c.spec_count(x + seq![sep] + y) == c.spec_count(x)
                + c.spec_count(y),
    ensures
        c.spec_count(chunk_text(buffer.push(e))) == c.spec_count(chunk_text(buffer))
            + c.spec_count(e.display()),
{
    lemma_chunk_text_push(buffer, e);
    assert(is_ws('\n'));
}

/// The hybrid chunker: merges adjacent inline elements into chunks bounded
/// by `max_tokens` under its token counter, starts a chunk at every
/// structural element, splits oversized paragraphs and list items at
/// sentence boundaries, and attaches heading context.
pub struct HybridChunker<C: TokenCounter> {
    config: HybridChunkConfig,
    counter: C,
}

impl Default for HybridChunker<WordProxyCounter> {
    /// A chunker with the default configuration and the word-proxy counter.
    fn default() -> (r: HybridChunker<WordProxyCounter>)
        ensures
            r.config_view() == default_config(),
            r.counter_view() == WordProxyCounter,
    {
        HybridChunker { config: HybridChunkConfig::default(), counter: WordProxyCounter }
    }
}

impl HybridChunker<WordProxyCounter> {
    /// A chunker with `config` and the word-proxy counter.
    pub fn new(config: HybridChunkConfig) -> (r: HybridChunker<WordProxyCounter>)
        ensures
            r.config_view() == config,
            r.counter_view() == WordProxyCounter,
    {
        HybridChunker { config, counter: WordProxyCounter }
    }

}

impl<C: TokenCounter> HybridChunker<C> {
    /// The configuration.
    pub closed spec fn config_view(&self) -> HybridChunkConfig {
        self.config
    }

    /// The token counter.
    pub closed spec fn counter_view(&self) -> C {
        self.counter
    }

    /// The same chunker with `counter` governing split and oversize decisions
    /// and the stamped counts.
    pub fn with_token_counter<D: TokenCounter>(self, counter: D) -> (r: HybridChunker<D>)
        ensures
            r.config_view() == self.config_view(),
            r.counter_view() == counter,
    {
        HybridChunker { config: self.config, counter }
    }

    /// A chunk of `elements`, its token count taken once over its whole text.
    fn make_chunk(&self, elements: Vec<Element>, heading_context: Option<String>, oversized: bool) -> (r:
        HybridChunk)
        ensures
            r@ == mk_chunk(self.counter, views(elements@), opt_view(heading_context), oversized),
    {
        let text = chunk_text_of(elements.as_slice());
        let token_estimate = self.counter.count(text.as_str());
        HybridChunk { elements, heading_context, oversized, token_estimate }
    }

    /// Chunks `elements`, in order, as `hybrid_chunks` describes.
    pub fn chunk(&self, elements: &[Element]) -> (r: Vec<HybridChunk>)
        ensures
            chunk_views(r@) == hybrid_chunks(self.counter_view(), self.config_view(), views(elements@)),
    {
        if elements.len() == 0 {
            let r: Vec<HybridChunk> = Vec::new();
            assert(chunk_views(r@) =~= Seq::<ChunkView>::empty());
            return r;
        }
        let additive = self.counter.is_additive_over_whitespace_join();
        let ghost ev = views(elements@);
        let ghost c = self.counter;
        let ghost cfg = self.config;
        let max_tokens = self.config.max_tokens;
        let mut chunks: Vec<HybridChunk> = Vec::new();
        let mut buffer: Vec<Element> = Vec::new();
        let mut buffer_text = String::new();
        let mut buffer_tokens: usize = 0;
        let mut buffer_heading: Option<String> = None;
        assert(chunk_views(chunks@) =~= Seq::<ChunkView>::empty());
        assert(views(buffer@) =~= Seq::<ElementView>::empty());
        for i in 0..elements.len()
            invariant
                ev == views(elements@),
                c == self.counter,
                cfg == self.config,
                max_tokens == cfg.max_tokens,
                chunk_views(chunks@) == chunk_fold(c, cfg, ev.take(i as int)).chunks,
                views(buffer@) == chunk_fold(c, cfg, ev.take(i as int)).buffer,
                opt_view(buffer_heading) == chunk_fold(c, cfg, ev.take(i as int)).heading,
                buffer@.len() == 0 ==> buffer_heading is None,
                buffer@.len() > 0 ==> buffer_tokens == c.spec_count(chunk_text(views(buffer@))),
                !additive && buffer@.len() > 0 ==> buffer_text@ == chunk_text(views(buffer@)),
                additive ==> forall|x: Seq<char>, sep: char, y: Seq<char>|
                    is_ws(sep) ==> #[trigger] c.spec_count(x + seq![sep] + y) == c.spec_count(x)
                        + c.spec_count(y),
        {
            let ghost st = chunk_fold(c, cfg, ev.take(i as int));
            let ghost e = ev[i as int];
            proof {
                assert(ev.take(i + 1).drop_last() =~= ev.take(i as int));
                assert(ev.take(i + 1).last() == e);
            }
            let element = &elements[i];
            assert(element.view() == e);
            let elem_text = element.display_text();
            let elem_tokens = self.counter.count(elem_text.as_str());
            let elem_heading = if self.config.propagate_headings {
                copy_opt_string(&element.metadata().parent_heading)
            } else {
                None
            };
            let joined_text: Option<String> = if buffer.len() > 0 && !additive {
                Some(append_element_text(buffer_text.as_str(), elem_text.as_str(), false))
            } else {
                None
            };
            // The joined cost and whether it fits the budget; a sum that
            // overflows does not fit.
            let (joined_tokens, fits): (usize, bool) = match &joined_text {
                Some(joined) => {
                    let t = self.counter.count(joined.as_str());
                    (t, t <= max_tokens)
                },
                None => if buffer.len() == 0 {
                    (elem_tokens, elem_tokens <= max_tokens)
                } else {
                    match buffer_tokens.checked_add(elem_tokens) {
                        Some(t) => (t, t <= max_tokens),
                        None => (0, false),
                    }
                },
            };
            proof {
                if buffer@.len() > 0 {
                    lemma_chunk_text_push(st.buffer, e);
                    if additive {
                        lemma_joined_additive(c, st.buffer, e);
                    }
                }
                assert(fits <==> joined_count(c, st.buffer, e) <= max_tokens);
                assert(fits ==> joined_tokens == joined_count(c, st.buffer, e));
            }
            let can_merge = self.config.merge_adjacent && buffer.len() > 0 && can_merge_elements(
                &buffer[buffer.len() - 1],
                element,
                &self.config.merge_policy,
            ) && fits;
            assert(can_merge == merges(c, cfg, st, e));
            if can_merge {
                match joined_text {
                    Some(joined) => {
                        buffer_text = joined;
                    },
                    None => {},
                }
                let ghost b0 = buffer@;
                buffer.push(element.copy());
                assert(views(buffer@) =~= views(b0).push(e));
                buffer_tokens = joined_tokens;
            } else {
                // Not merging. The flush condition (over budget, types that do
                // not merge, or merging off) is exactly the negation of the
                // merge condition, so a non-empty buffer is always emitted here
                // and the buffer is empty below.
                if buffer.len() > 0 {
                    self.flush_buffer(
                        &mut chunks,
                        &mut buffer,
                        &mut buffer_text,
                        &mut buffer_tokens,
                        &mut buffer_heading,
                    );
                }
                assert(chunk_views(chunks@) == flushed(c, st));
                if elem_tokens > max_tokens {
                    if is_splittable_element(element) {
                        self.push_fragment_chunks(&mut chunks, element, &elem_heading);
                    } else {
                        let ghost cs0 = chunks@;
                        let mut group: Vec<Element> = Vec::new();
                        group.push(element.copy());
                        assert(views(group@) =~= seq![e]);
                        let chunk = self.make_chunk(group, elem_heading, true);
                        chunks.push(chunk);
                        assert(chunk_views(chunks@) =~= chunk_views(cs0).push(chunk@));
                    }
                    assert(views(buffer@) =~= Seq::<ElementView>::empty());
                } else {
                    buffer_heading = elem_heading;
                    if !additive {
                        buffer_text = elem_text;
                    }
                    buffer_tokens = elem_tokens;
                    buffer.push(element.copy());
                    assert(views(buffer@) =~= seq![e]);
                    assert(chunk_text(seq![e]) == e.display());
                }
            }
        }
        assert(ev.take(elements.len() as int) =~= ev);
        if buffer.len() > 0 {
            let ghost cs0 = chunks@;
            let chunk = self.make_chunk(buffer, buffer_heading, false);
            chunks.push(chunk);
            assert(chunk_views(chunks@) =~= chunk_views(cs0).push(chunk@));
        }
        chunks
    }

    /// Chunks `elements` section by section, as `graph_chunks` describes:
    /// the elements before the first top-level title are chunked as usual;
    /// then each top-level section (its title and its children) becomes one
    /// chunk when its text fits the budget, or else its hybrid chunks, each
    /// given the section's heading.
    pub fn chunk_with_graph(&self, elements: &[Element], graph: &ElementGraph) -> (r: Vec<
        HybridChunk,
    >)
        requires
            graph.wf(),
            sections_in_range(graph.view(), elements@.len() as int),
        ensures
            chunk_views(r@) == graph_chunks(
                self.counter_view(),
                self.config_view(),
                views(elements@),
                graph.view(),
            ),
    {
        if elements.len() == 0 {
            let r: Vec<HybridChunk> = Vec::new();
            assert(chunk_views(r@) =~= Seq::<ChunkView>::empty());
            return r;
        }
        let ghost ev = views(elements@);
        let ghost g = graph.view();
        proof {
            graph.lemma_links_in_range();
            lemma_top_sections_in_range(g, g.parents.len() as int);
        }
        let top_sections = graph.top_level_sections();
        let first_title_idx = if top_sections.len() > 0 {
            top_sections[0]
        } else {
            elements.len()
        };
        let mut chunks: Vec<HybridChunk> = Vec::new();
        let preamble = copy_prefix(elements, first_title_idx);
        if first_title_idx > 0 {
            chunks = self.chunk(preamble.as_slice());
        } else {
            assert(views(preamble@) =~= Seq::<ElementView>::empty());
            assert(chunk_fold(self.counter, self.config, views(preamble@)) == chunk_init());
            assert(chunk_views(chunks@) =~= Seq::<ChunkView>::empty());
        }
        let ghost pre = chunk_views(chunks@);
        assert(sections_chunks(self.counter, self.config, ev, g, top_sections@.take(0))
            =~= Seq::<ChunkView>::empty());
        assert(pre + Seq::<ChunkView>::empty() =~= pre);
        for k in 0..top_sections.len()
            invariant
                ev == views(elements@),
                g == graph.view(),
                graph.wf(),
                top_sections@ == crate::graph::top_sections(g, g.parents.len() as int),
                g.parents.len() == graph.node_count(),
                g.children.len() == graph.node_count(),
                sections_in_range(g, elements@.len() as int),
                forall|q: int| 0 <= q < top_sections@.len() ==> #[trigger] top_sections@[q] < graph.node_count(),
                chunk_views(chunks@) == pre + sections_chunks(
                    self.counter,
                    self.config,
                    ev,
                    g,
                    top_sections@.take(k as int),
                ),
        {
            let title_idx = top_sections[k];
            let ghost c0 = chunk_views(chunks@);
            assert(top_sections@[k as int] < elements@.len());
            assert(forall|j: int| 0 <= j < g.children[title_idx as int].len()
                ==> #[trigger] g.children[title_idx as int][j] < elements@.len()) by {
                assert forall|j: int| 0 <= j < g.children[title_idx as int].len()
                    implies #[trigger] g.children[title_idx as int][j] < elements@.len() by {
                    assert(g.children[top_sections@[k as int] as int][j] < elements@.len());
                }
            }
            let sub = self.section_chunks_of(elements, graph, title_idx);
            let mut sub = sub;
            chunks.append(&mut sub);
            proof {
                let tk = top_sections@.take(k + 1);
                assert(tk.drop_last() =~= top_sections@.take(k as int));
                assert(tk.last() == title_idx);
                assert(chunk_views(chunks@) =~= c0 + section_chunks(self.counter, self.config, ev, g, title_idx));
            }
        }
        assert(top_sections@.take(top_sections.len() as int) =~= top_sections@);
        chunks
    }

    /// The chunks of the section of title `title_idx`.
    fn section_chunks_of(&self, elements: &[Element], graph: &ElementGraph, title_idx: usize) -> (r: Vec<
        HybridChunk,
    >)
        requires
            graph.wf(),
            title_idx < graph.node_count(),
            title_idx < elements@.len(),
            forall|j: int| 0 <= j < graph.view().children[title_idx as int].len()
                ==> #[trigger] graph.view().children[title_idx as int][j] < elements@.len(),
        ensures
            chunk_views(r@) == section_chunks(
                self.counter,
                self.config,
                views(elements@),
                graph.view(),
                title_idx,
            ),
    {
        let ghost ev = views(elements@);
        let ghost g = graph.view();
        proof {
            graph.lemma_links_in_range();
        }
        let title = &elements[title_idx];
        let title_heading: Option<String> = match &title.metadata().parent_heading {
            Some(h) => Some(copy_string(h)),
            None => Some(title.text().to_owned()),
        };
        let child_indices = graph.elements_in_section(title_idx);
        let ghost kids = g.children[title_idx as int];
        let mut section_elements: Vec<Element> = Vec::new();
        section_elements.push(title.copy());
        assert(views(section_elements@) =~= seq![ev[title_idx as int]] + kids.map_values(
            |j: usize| ev[j as int],
        ).take(0));
        for q in 0..child_indices.len()
            invariant
                ev == views(elements@),
                child_indices@ == kids,
                forall|j: int| 0 <= j < kids.len() ==> #[trigger] kids[j] < elements@.len(),
                views(section_elements@) == seq![ev[title_idx as int]] + kids.map_values(
                    |j: usize| ev[j as int],
                ).take(q as int),
        {
            let ghost s0 = views(section_elements@);
            let ci = child_indices[q];
            assert(kids[q as int] == ci);
            section_elements.push(elements[ci].copy());
            proof {
                assert(views(section_elements@) =~= s0.push(ev[ci as int]));
                assert(kids.map_values(|j: usize| ev[j as int]).take(q + 1) =~= kids.map_values(
                    |j: usize| ev[j as int],
                ).take(q as int).push(ev[ci as int]));
            }
        }
        assert(kids.map_values(|j: usize| ev[j as int]).take(child_indices.len() as int)
            =~= kids.map_values(|j: usize| ev[j as int]));
        let ghost sec = views(section_elements@);
        assert(sec == crate::hybrid_chunking::section_elements(ev, g, title_idx));
        let section_text = chunk_text_of(section_elements.as_slice());
        let section_tokens = self.counter.count(section_text.as_str());
        let ghost h = section_heading(ev[title_idx as int]);
        assert(opt_view(title_heading) == h);
        if section_tokens <= self.config.max_tokens {
            let chunk = self.make_chunk(section_elements, title_heading, false);
            let mut r: Vec<HybridChunk> = Vec::new();
            r.push(chunk);
            assert(chunk_views(r@) =~= seq![chunk@]);
            r
        } else {
            let mut sub_chunks = self.chunk(section_elements.as_slice());
            let ghost hc = chunk_views(sub_chunks@);
            let n = sub_chunks.len();
            for j in 0..n
                invariant
                    n == hc.len(),
                    sub_chunks@.len() == hc.len(),
                    forall|q: int| 0 <= q < hc.len() ==> #[trigger] chunk_views(sub_chunks@)[q] == if q < j {
                        with_heading(hc, h)[q]
                    } else {
                        hc[q]
                    },
                    opt_view(title_heading) == h,
            {
                let ghost before = sub_chunks@;
                sub_chunks[j].heading_context = copy_opt_string(&title_heading);
                proof {
                    assert forall|q: int| 0 <= q < hc.len() implies #[trigger] chunk_views(sub_chunks@)[q] == if q < j + 1 {
                        with_heading(hc, h)[q]
                    } else {
                        hc[q]
                    } by {
                        assert(chunk_views(before)[q] == before[q]@);
                        if q != j {
                            assert(sub_chunks@[q] == before[q]);
                            assert(chunk_views(before)[q] == chunk_views(sub_chunks@)[q]);
                        } else {
                            assert(chunk_views(before)[q] == hc[q]);
                            assert(sub_chunks@[q].elements == before[q].elements);
                            assert(chunk_views(sub_chunks@)[q] == sub_chunks@[q]@);
                        }
                    }
                }
            }
            assert(chunk_views(sub_chunks@) =~= with_heading(hc, h));
            sub_chunks
        }
    }

    /// Emits the buffer as a chunk and resets the buffer state.
    fn flush_buffer(
        &self,
        chunks: &mut Vec<HybridChunk>,
        buffer: &mut Vec<Element>,
        buffer_text: &mut String,
        buffer_tokens: &mut usize,
        buffer_heading: &mut Option<String>,
    )
        ensures
            chunk_views(final(chunks)@) == chunk_views(old(chunks)@).push(
                mk_chunk(self.counter, views(old(buffer)@), opt_view(*old(buffer_heading)), false),
            ),
            final(buffer)@.len() == 0,
            final(buffer_text)@.len() == 0,
            *final(buffer_tokens) == 0,
            *final(buffer_heading) is None,
    {
        let mut flushed: Vec<Element> = Vec::new();
        std::mem::swap(&mut flushed, buffer);
        let mut heading: Option<String> = None;
        std::mem::swap(&mut heading, buffer_heading);
        *buffer_text = String::new();
        *buffer_tokens = 0;
        let ghost c0 = chunks@;
        let c = self.make_chunk(flushed, heading, false);
        chunks.push(c);
        assert(chunk_views(chunks@) =~= chunk_views(c0).push(c@));
    }

    /// Emits the fragment chunks of the oversized splittable `element`.
    fn push_fragment_chunks(
        &self,
        chunks: &mut Vec<HybridChunk>,
        element: &Element,
        elem_heading: &Option<String>,
    )
        requires
            opt_view(*elem_heading) == heading_of(self.config, element.view()),
        ensures
            chunk_views(final(chunks)@) == chunk_views(old(chunks)@) + fragment_chunks(
                self.counter,
                self.config,
                element.view(),
            ),
    {
        let ghost e = element.view();
        let ghost fc = fragment_chunks(self.counter, self.config, e);
        let ghost c0 = chunk_views(chunks@);
        let text = element.display_text();
        let fragments = split_by_sentences(text.as_str(), &self.counter, self.config.max_tokens);
        assert(c0 + fc.take(0) =~= c0);
        for j in 0..fragments.len()
            invariant
                strings_view(fragments@) == sentence_fragments(
                    self.counter,
                    e.display(),
                    self.config.max_tokens as nat,
                ),
                fc == fragment_chunks(self.counter, self.config, e),
                fc.len() == fragments@.len(),
                e == element.view(),
                opt_view(*elem_heading) == heading_of(self.config, e),
                chunk_views(chunks@) == c0 + fc.take(j as int),
        {
            let fragment = trim_string(fragments[j].as_str());
            let over = self.counter.count(fragment.as_str()) > self.config.max_tokens;
            let piece = make_text_fragment_element(element, fragment.as_str());
            let ghost fev = piece.view();
            let ghost cs0 = chunks@;
            let mut group: Vec<Element> = Vec::new();
            group.push(piece);
            let c = self.make_chunk(group, copy_opt_string(elem_heading), over);
            chunks.push(c);
            proof {
                assert(views(group@) =~= seq![fev]);
                assert(fev == fragment_element(e, trim(fragments@[j as int]@)));
                assert(opt_view(*elem_heading) == heading_of(self.config, e));
                assert(strings_view(fragments@)[j as int] == fragments@[j as int]@);
                assert(c@ == fc[j as int]);
                assert(chunk_views(chunks@) =~= chunk_views(cs0).push(c@));
                assert(fc.take(j + 1) =~= fc.take(j as int).push(fc[j as int]));
            }
        }
        assert(fc.take(fragments.len() as int) =~= fc);
    }
}

/// Copies of the first `n` elements.
fn copy_prefix(elements: &[Element], n: usize) -> (r: Vec<Element>)
    requires
        n <= elements@.len(),
    ensures
        views(r@) == views(elements@).take(n as int),
{
    let mut r: Vec<Element> = Vec::new();
    for i in 0..n
        invariant
            n <= elements@.len(),
            views(r@) == views(elements@).take(i as int),
    {
        let ghost r0 = r@;
        let e = elements[i].copy();
        r.push(e);
        assert(views(r@) =~= views(r0).push(e.view()));
        assert(views(elements@).take(i + 1) =~= views(elements@).take(i as int).push(
            elements@[i as int].view(),
        ));
    }
    r
}

} // verus!
