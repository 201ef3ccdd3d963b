//! What holds of every output of the hybrid chunker: each chunk is within
//! its budget exactly when not flagged, its stamped count measures its own text, its
//! heading is that of its elements, and the chunks together hold the input
//! elements in order, each whole or as its sentence fragments, so that the
//! words of the chunk texts are the words of the input. Section chunking
//! keeps the budget too, and neither reads the overlap budget.

use vstd::prelude::*;
use crate::element::ElementView;
use crate::hybrid_chunking::{
    chunk_fold, chunk_init, chunk_step, chunk_text, flushed, frag_fold, fragment_chunks,
    fragment_element, graph_chunks, heading_of, hybrid_chunks, section_chunks, sections_chunks,
    with_heading, is_delim, is_splittable, joined_count, merges,
    mk_chunk, push_nonempty, sentence_fragments, sentences, sentences_from, ChunkState, ChunkView,
    HybridChunkConfig, HybridChunker, MergePolicy, can_merge,
};
use crate::element::displays;
use crate::text::{
    is_ws, lemma_words_join, lemma_words_of_all_append, lemma_words_of_join, lemma_words_trim,
    lemma_words_ws_ends, trim, words, words_of_all,
};
use crate::graph::GraphView;
use crate::token_counter::{TokenCounter, WordProxyCounter};

verus! {

/// What every chunk satisfies: it holds at least one element; its stamped
/// count is the count of its own text; it is flagged oversized exactly when
/// that count exceeds the budget; an oversized chunk holds a single element;
/// its heading is the one its first element passes on.
pub open spec fn chunk_ok<C: TokenCounter>(c: C, cfg: HybridChunkConfig, ch: ChunkView) -> bool {
    &&& ch.elements.len() > 0
    &&& ch.token_estimate == c.spec_count(chunk_text(ch.elements))
    &&& ch.oversized <==> ch.token_estimate > cfg.max_tokens
    &&& ch.oversized ==> ch.elements.len() == 1
    &&& ch.heading == heading_of(cfg, ch.elements[0])
}

/// The elements of the chunks `cs`, in order.
pub open spec fn flatten_elements(cs: Seq<ChunkView>) -> Seq<ElementView>
    decreases cs.len(),
{
    if cs.len() == 0 {
        Seq::empty()
    } else {
        flatten_elements(cs.drop_last()) + cs.last().elements
    }
}

/// The paragraphs that the sentence fragments of `e` become.
pub open spec fn fragment_elements<C: TokenCounter>(
    c: C,
    cfg: HybridChunkConfig,
    e: ElementView,
) -> Seq<ElementView> {
    sentence_fragments(c, e.display(), cfg.max_tokens as nat).map_values(
        |f: Seq<char>| fragment_element(e, trim(f)),
    )
}

/// The elements `es` with each one whose flag is set replaced by its
/// fragments.
pub open spec fn expand_with<C: TokenCounter>(
    c: C,
    cfg: HybridChunkConfig,
    es: Seq<ElementView>,
    flags: Seq<bool>,
) -> Seq<ElementView>
    decreases es.len(),
{
    if es.len() == 0 {
        Seq::empty()
    } else {
        expand_with(c, cfg, es.drop_last(), flags.drop_last()) + if flags.last() {
            fragment_elements(c, cfg, es.last())
        } else {
            seq![es.last()]
        }
    }
}

/// Whether the chunker splits `e` in state `st`: it does not join the
/// buffer, exceeds the budget, and is a paragraph or a list item.
pub open spec fn splits<C: TokenCounter>(
    c: C,
    cfg: HybridChunkConfig,
    st: ChunkState,
    e: ElementView,
) -> bool {
    !merges(c, cfg, st, e) && c.spec_count(e.display()) > cfg.max_tokens && is_splittable(e)
}

/// For each element of `es`, whether the chunker splits it.
pub open spec fn split_flags<C: TokenCounter>(
    c: C,
    cfg: HybridChunkConfig,
    es: Seq<ElementView>,
) -> Seq<bool>
    decreases es.len(),
{
    if es.len() == 0 {
        Seq::empty()
    } else {
        split_flags(c, cfg, es.drop_last()).push(
            splits(c, cfg, chunk_fold(c, cfg, es.drop_last()), es.last()),
        )
    }
}

/// Whether `e` is split by a chunker whose counter is additive: it exceeds
/// the budget and is a paragraph or a list item.
pub open spec fn over_budget_splittable<C: TokenCounter>(
    c: C,
    cfg: HybridChunkConfig,
    e: ElementView,
) -> bool {
    c.spec_count(e.display()) > cfg.max_tokens && is_splittable(e)
}

/// The chunker's invariant after the elements `es`: every emitted chunk is
/// sound, the emitted elements followed by the buffer are the input so far
/// (each element whole or as its fragments), and a non-empty buffer fits the
/// budget and carries its first element's heading.
pub open spec fn state_ok<C: TokenCounter>(
    c: C,
    cfg: HybridChunkConfig,
    st: ChunkState,
    es: Seq<ElementView>,
) -> bool {
    &&& forall|k: int| 0 <= k < st.chunks.len() ==> chunk_ok(c, cfg, #[trigger] st.chunks[k])
    &&& flatten_elements(st.chunks) + st.buffer == expand_with(c, cfg, es, split_flags(c, cfg, es))
    &&& st.buffer.len() > 0 ==> st.heading == heading_of(cfg, st.buffer[0])
        && c.spec_count(chunk_text(st.buffer)) <= cfg.max_tokens
}

proof fn lemma_flatten_append(a: Seq<ChunkView>, b: Seq<ChunkView>)
    ensures
        flatten_elements(a + b) == flatten_elements(a) + flatten_elements(b),
    decreases b.len(),
{
    if b.len() == 0 {
        assert(a + b =~= a);
        assert(flatten_elements(a) + flatten_elements(b) =~= flatten_elements(a));
    } else {
        assert((a + b).drop_last() =~= a + b.drop_last());
        lemma_flatten_append(a, b.drop_last());
        assert(flatten_elements(a + b) =~= flatten_elements(a) + flatten_elements(b));
    }
}

proof fn lemma_flatten_push(a: Seq<ChunkView>, ch: ChunkView)
    ensures
        flatten_elements(a.push(ch)) == flatten_elements(a) + ch.elements,
{
    assert(a.push(ch).drop_last() =~= a);
}

/// The fragment chunks of `e` are sound and hold its fragment elements.
proof fn lemma_fragment_chunks<C: TokenCounter>(c: C, cfg: HybridChunkConfig, e: ElementView)
    requires
        is_splittable(e),
    ensures
        flatten_elements(fragment_chunks(c, cfg, e)) == fragment_elements(c, cfg, e),
        forall|k: int|
            0 <= k < fragment_chunks(c, cfg, e).len() ==> chunk_ok(
                c,
                cfg,
                #[trigger] fragment_chunks(c, cfg, e)[k],
            ),
        fragment_elements(c, cfg, e).len() > 0,
{
    let fs = sentence_fragments(c, e.display(), cfg.max_tokens as nat);
    lemma_fragment_prefix(c, cfg, e, fs.len() as int);
    assert(fragment_chunks(c, cfg, e).take(fs.len() as int) =~= fragment_chunks(c, cfg, e));
    assert(fragment_elements(c, cfg, e).take(fs.len() as int) =~= fragment_elements(c, cfg, e));
    assert forall|k: int| 0 <= k < fragment_chunks(c, cfg, e).len() implies chunk_ok(
        c,
        cfg,
        #[trigger] fragment_chunks(c, cfg, e)[k],
    ) by {
        let t = trim(fs[k]);
        let x = fragment_element(e, t);
        assert(fragment_chunks(c, cfg, e)[k] == mk_chunk(
            c,
            seq![x],
            heading_of(cfg, e),
            c.spec_count(t) > cfg.max_tokens,
        ));
        assert(crate::element::displays(seq![x]) =~= seq![t]);
        assert(chunk_text(seq![x]) == t);
    }
}

proof fn lemma_fragment_prefix<C: TokenCounter>(
    c: C,
    cfg: HybridChunkConfig,
    e: ElementView,
    n: int,
)
    requires
        0 <= n <= sentence_fragments(c, e.display(), cfg.max_tokens as nat).len(),
    ensures
        flatten_elements(fragment_chunks(c, cfg, e).take(n)) == fragment_elements(c, cfg, e).take(
            n,
        ),
    decreases n,
{
    let fc = fragment_chunks(c, cfg, e);
    let fe = fragment_elements(c, cfg, e);
    if n == 0 {
        assert(fc.take(0) =~= Seq::<ChunkView>::empty());
        assert(fe.take(0) =~= Seq::<ElementView>::empty());
    } else {
        lemma_fragment_prefix(c, cfg, e, n - 1);
        assert(fc.take(n).drop_last() =~= fc.take(n - 1));
        assert(fe.take(n) =~= fe.take(n - 1).push(fe[n - 1]));
        assert(fc[n - 1].elements =~= seq![fe[n - 1]]);
    }
}

/// The chunker's invariant holds after any elements.
pub proof fn lemma_fold_ok<C: TokenCounter>(c: C, cfg: HybridChunkConfig, es: Seq<ElementView>)
    ensures
        state_ok(c, cfg, chunk_fold(c, cfg, es), es),
        split_flags(c, cfg, es).len() == es.len(),
    decreases es.len(),
{
    if es.len() == 0 {
        assert(flatten_elements(Seq::<ChunkView>::empty()) + Seq::<ElementView>::empty()
            =~= Seq::<ElementView>::empty());
    } else {
        let prev = es.drop_last();
        let e = es.last();
        lemma_fold_ok(c, cfg, prev);
        let st = chunk_fold(c, cfg, prev);
        let nst = chunk_step(c, cfg, st, e);
        assert(chunk_fold(c, cfg, es) == nst);
        let flags = split_flags(c, cfg, es);
        assert(flags.drop_last() =~= split_flags(c, cfg, prev));
        let before = expand_with(c, cfg, prev, split_flags(c, cfg, prev));
        assert(flatten_elements(st.chunks) + st.buffer == before);
        let fl = flushed(c, st);
        lemma_flushed_ok(c, cfg, st, prev);
        if merges(c, cfg, st, e) {
            assert(!flags.last());
            assert(flatten_elements(nst.chunks) + nst.buffer =~= before + seq![e]);
            assert(nst.buffer[0] == st.buffer[0]);
            assert(joined_count(c, st.buffer, e) == c.spec_count(chunk_text(st.buffer.push(e))));
        } else if c.spec_count(e.display()) > cfg.max_tokens {
            if is_splittable(e) {
                assert(flags.last());
                lemma_fragment_chunks(c, cfg, e);
                let fc = fragment_chunks(c, cfg, e);
                lemma_flatten_append(fl, fc);
                assert(nst.buffer =~= Seq::<ElementView>::empty());
                assert(flatten_elements(nst.chunks) + nst.buffer =~= before + fragment_elements(
                    c,
                    cfg,
                    e,
                ));
                assert forall|k: int| 0 <= k < nst.chunks.len() implies chunk_ok(
                    c,
                    cfg,
                    #[trigger] nst.chunks[k],
                ) by {
                    if k < fl.len() {
                        assert(nst.chunks[k] == fl[k]);
                    } else {
                        assert(nst.chunks[k] == fc[k - fl.len()]);
                    }
                }
            } else {
                assert(!flags.last());
                let ch = mk_chunk(c, seq![e], heading_of(cfg, e), true);
                assert(crate::element::displays(seq![e]) =~= seq![e.display()]);
                assert(chunk_text(seq![e]) == e.display());
                lemma_flatten_push(fl, ch);
                assert(nst.buffer =~= Seq::<ElementView>::empty());
                assert(flatten_elements(nst.chunks) + nst.buffer =~= before + seq![e]);
                assert forall|k: int| 0 <= k < nst.chunks.len() implies chunk_ok(
                    c,
                    cfg,
                    #[trigger] nst.chunks[k],
                ) by {
                    if k < fl.len() {
                        assert(nst.chunks[k] == fl[k]);
                    }
                }
            }
        } else {
            assert(!flags.last());
            assert(crate::element::displays(seq![e]) =~= seq![e.display()]);
            assert(chunk_text(seq![e]) == e.display());
            assert(flatten_elements(nst.chunks) + nst.buffer =~= before + seq![e]);
        }
        assert(expand_with(c, cfg, es, flags) == before + if flags.last() {
            fragment_elements(c, cfg, e)
        } else {
            seq![e]
        });
    }
}

/// Emitting the buffer of a sound state yields sound chunks that hold the
/// emitted elements followed by the buffer.
proof fn lemma_flushed_ok<C: TokenCounter>(
    c: C,
    cfg: HybridChunkConfig,
    st: ChunkState,
    es: Seq<ElementView>,
)
    requires
        state_ok(c, cfg, st, es),
    ensures
        forall|k: int| 0 <= k < flushed(c, st).len() ==> chunk_ok(c, cfg, #[trigger] flushed(c, st)[k]),
        flatten_elements(flushed(c, st)) == flatten_elements(st.chunks) + st.buffer,
{
    let fl = flushed(c, st);
    if st.buffer.len() > 0 {
        lemma_flatten_push(st.chunks, mk_chunk(c, st.buffer, st.heading, false));
        assert forall|k: int| 0 <= k < fl.len() implies chunk_ok(c, cfg, #[trigger] fl[k]) by {
            if k < st.chunks.len() {
                assert(fl[k] == st.chunks[k]);
            }
        }
    } else {
        assert(st.buffer =~= Seq::<ElementView>::empty());
        assert(flatten_elements(st.chunks) + st.buffer =~= flatten_elements(st.chunks));
    }
}

/// A set flag marks an element over the budget that is a paragraph or a
/// list item.
proof fn lemma_split_flags_justified<C: TokenCounter>(
    c: C,
    cfg: HybridChunkConfig,
    es: Seq<ElementView>,
)
    ensures
        split_flags(c, cfg, es).len() == es.len(),
        forall|i: int|
            0 <= i < es.len() && #[trigger] split_flags(c, cfg, es)[i] ==> over_budget_splittable(
                c,
                cfg,
                es[i],
            ),
    decreases es.len(),
{
    if es.len() > 0 {
        lemma_split_flags_justified(c, cfg, es.drop_last());
        assert forall|i: int|
            0 <= i < es.len() && #[trigger] split_flags(c, cfg, es)[i] implies over_budget_splittable(
            c,
            cfg,
            es[i],
        ) by {
            if i < es.len() - 1 {
                assert(split_flags(c, cfg, es)[i] == split_flags(c, cfg, es.drop_last())[i]);
                assert(es[i] == es.drop_last()[i]);
            }
        }
    }
}

/// Expanding with flags that are all unset gives the elements back.
proof fn lemma_expand_unflagged<C: TokenCounter>(
    c: C,
    cfg: HybridChunkConfig,
    es: Seq<ElementView>,
    flags: Seq<bool>,
)
    requires
        flags.len() == es.len(),
        forall|i: int| 0 <= i < flags.len() ==> !#[trigger] flags[i],
    ensures
        expand_with(c, cfg, es, flags) == es,
    decreases es.len(),
{
    if es.len() > 0 {
        lemma_expand_unflagged(c, cfg, es.drop_last(), flags.drop_last());
        assert(!flags[flags.len() - 1]);
        assert(es.drop_last() + seq![es.last()] =~= es);
    }
}

/// Expanding a non-empty list of elements gives a non-empty list.
proof fn lemma_expand_nonempty<C: TokenCounter>(
    c: C,
    cfg: HybridChunkConfig,
    es: Seq<ElementView>,
)
    requires
        es.len() > 0,
    ensures
        expand_with(c, cfg, es, split_flags(c, cfg, es)).len() > 0,
{
    lemma_split_flags_justified(c, cfg, es);
    let flags = split_flags(c, cfg, es);
    if flags.last() {
        assert(flags[es.len() - 1]);
        lemma_fragment_chunks(c, cfg, es.last());
    }
    assert(flags.drop_last() =~= split_flags(c, cfg, es.drop_last()));
}

/// Soundness and conservation of hybrid chunking, for every counter and
/// configuration.
///
/// Every chunk holds at least one element, its stamped count is the count
/// of its own text under the counter that made it, it is flagged oversized
/// exactly when that count exceeds the budget, an oversized chunk holds one element, and
/// its heading is the one its first element passes on. Taken in order, the
/// chunks hold the input elements in order, each exactly once: whole, or
/// (only when it is a paragraph or list item over the budget) as the
/// paragraphs of its sentence fragments. There are no chunks exactly when
/// there are no elements.
pub proof fn lemma_hybrid_chunks_sound<C: TokenCounter>(
    c: C,
    cfg: HybridChunkConfig,
    es: Seq<ElementView>,
)
    ensures
        forall|k: int|
            0 <= k < hybrid_chunks(c, cfg, es).len() ==> chunk_ok(
                c,
                cfg,
                #[trigger] hybrid_chunks(c, cfg, es)[k],
            ),
        flatten_elements(hybrid_chunks(c, cfg, es)) == expand_with(
            c,
            cfg,
            es,
            split_flags(c, cfg, es),
        ),
        split_flags(c, cfg, es).len() == es.len(),
        forall|i: int|
            0 <= i < es.len() && #[trigger] split_flags(c, cfg, es)[i] ==> over_budget_splittable(
                c,
                cfg,
                es[i],
            ),
        hybrid_chunks(c, cfg, es).len() == 0 <==> es.len() == 0,
{
    lemma_fold_ok(c, cfg, es);
    let st = chunk_fold(c, cfg, es);
    lemma_flushed_ok(c, cfg, st, es);
    lemma_split_flags_justified(c, cfg, es);
    if es.len() > 0 {
        lemma_expand_nonempty(c, cfg, es);
        if hybrid_chunks(c, cfg, es).len() == 0 {
            assert(flatten_elements(hybrid_chunks(c, cfg, es)).len() == 0);
        }
    } else {
        assert(st == chunk_init());
    }
}

/// Chunking keeps every element whole when none is a paragraph or list item
/// over the budget: the chunks, taken in order, hold exactly the input
/// elements in order.
pub proof fn lemma_hybrid_chunks_keep_elements<C: TokenCounter>(
    c: C,
    cfg: HybridChunkConfig,
    es: Seq<ElementView>,
)
    requires
        forall|i: int| 0 <= i < es.len() ==> !over_budget_splittable(c, cfg, #[trigger] es[i]),
    ensures
        flatten_elements(hybrid_chunks(c, cfg, es)) == es,
{
    lemma_hybrid_chunks_sound(c, cfg, es);
    let flags = split_flags(c, cfg, es);
    assert forall|i: int| 0 <= i < flags.len() implies !#[trigger] flags[i] by {
        if flags[i] {
            assert(over_budget_splittable(c, cfg, es[i]));
        }
    }
    lemma_expand_unflagged(c, cfg, es, flags);
}

/// Under a counter additive over a whitespace join (such as the word
/// proxy), exactly the paragraphs and list items over the budget are split.
pub proof fn lemma_additive_splits_exactly_oversized<C: TokenCounter>(
    c: C,
    cfg: HybridChunkConfig,
    es: Seq<ElementView>,
)
    requires
        forall|x: Seq<char>, sep: char, y: Seq<char>|
            crate::text::is_ws(sep) ==> #[trigger] c.spec_count(x + seq![sep] + y) == c.spec_count(
                x,
            ) + c.spec_count(y),
    ensures
        split_flags(c, cfg, es) == es.map_values(
            |e: ElementView| over_budget_splittable(c, cfg, e),
        ),
    decreases es.len(),
{
    if es.len() > 0 {
        lemma_additive_splits_exactly_oversized(c, cfg, es.drop_last());
        let st = chunk_fold(c, cfg, es.drop_last());
        let e = es.last();
        if merges(c, cfg, st, e) {
            crate::hybrid_chunking::lemma_joined_additive(c, st.buffer, e);
        }
        assert(split_flags(c, cfg, es) =~= es.map_values(
            |e: ElementView| over_budget_splittable(c, cfg, e),
        ));
    } else {
        assert(split_flags(c, cfg, es) =~= es.map_values(
            |e: ElementView| over_budget_splittable(c, cfg, e),
        ));
    }
}

/// Splitting into sentences keeps the words of the text: those of the
/// sentences found, then those of the text in progress and the rest.
proof fn lemma_sentences_from_words(t: Seq<char>, i: int, cur: Seq<char>, acc: Seq<Seq<char>>)
    requires
        0 <= i <= t.len(),
    ensures
        words_of_all(sentences_from(t, i, cur, acc)) == words_of_all(acc) + words(
            cur + t.skip(i),
        ),
    decreases t.len() - i,
{
    if i >= t.len() {
        assert(cur + t.skip(i) =~= cur);
        lemma_words_trim(cur);
        let tc = trim(cur);
        if tc.len() == 0 {
            assert(words(tc) =~= Seq::<Seq<char>>::empty()) by {
                crate::text::lemma_words_empty();
            }
            assert(words_of_all(acc) + words(cur) =~= words_of_all(acc));
        } else {
            assert(acc.push(tc).drop_last() =~= acc);
        }
    } else {
        let ch = t[i];
        let cur2 = cur.push(ch);
        assert(cur + t.skip(i) =~= cur2 + t.skip(i + 1));
        if is_delim(ch) {
            if i + 1 < t.len() && t[i + 1] == ' ' {
                lemma_sentences_from_words(t, i + 2, Seq::empty(), acc.push(trim(cur2)));
                assert(acc.push(trim(cur2)).drop_last() =~= acc);
                lemma_words_trim(cur2);
                assert(Seq::<char>::empty() + t.skip(i + 2) =~= t.skip(i + 2));
                assert(t.skip(i + 1) =~= seq![' '] + t.skip(i + 2));
                assert(cur2 + t.skip(i + 1) =~= cur2 + seq![' '] + t.skip(i + 2));
                assert(is_ws(' '));
                lemma_words_join(cur2, ' ', t.skip(i + 2));
                assert(words_of_all(acc) + words(trim(cur2)) + words(t.skip(i + 2))
                    =~= words_of_all(acc) + (words(cur2) + words(t.skip(i + 2))));
            } else {
                lemma_sentences_from_words(t, i + 1, cur2, acc);
            }
        } else if ch == '\n' {
            let acc2 = push_nonempty(acc, trim(cur2));
            lemma_sentences_from_words(t, i + 1, Seq::empty(), acc2);
            assert(Seq::<char>::empty() + t.skip(i + 1) =~= t.skip(i + 1));
            lemma_words_trim(cur2);
            assert(is_ws('\n'));
            lemma_words_ws_ends('\n', cur);
            lemma_words_join(cur, '\n', t.skip(i + 1));
            assert(cur2 + t.skip(i + 1) =~= cur + seq!['\n'] + t.skip(i + 1));
            assert(cur2 =~= cur + seq!['\n']);
            if trim(cur2).len() > 0 {
                assert(acc2.drop_last() =~= acc);
            } else {
                crate::text::lemma_words_empty();
                assert(words(cur) =~= Seq::<Seq<char>>::empty());
            }
            assert(words_of_all(acc2) == words_of_all(acc) + words(cur));
            assert(words_of_all(acc2) + words(t.skip(i + 1)) =~= words_of_all(acc) + (words(cur)
                + words(t.skip(i + 1))));
        } else {
            lemma_sentences_from_words(t, i + 1, cur2, acc);
        }
    }
}

/// The sentences of a text hold its words, in order.
pub proof fn lemma_sentences_words(t: Seq<char>)
    ensures
        words_of_all(sentences(t)) == words(t),
{
    lemma_sentences_from_words(t, 0, Seq::empty(), Seq::empty());
    assert(Seq::<char>::empty() + t.skip(0) =~= t);
    assert(words_of_all(Seq::<Seq<char>>::empty()) + words(t) =~= words(t));
}

/// The trimmed texts of `ss`.
pub open spec fn trimmed(ss: Seq<Seq<char>>) -> Seq<Seq<char>> {
    ss.map_values(|s: Seq<char>| trim(s))
}

/// Packing sentences into fragments keeps their words: those of the
/// fragments finished and of the one in progress are the words of the
/// sentences read.
proof fn lemma_frag_fold_words<C: TokenCounter>(c: C, max: nat, ss: Seq<Seq<char>>)
    ensures
        words_of_all(frag_fold(c, max, ss).0) + words(frag_fold(c, max, ss).1) == words_of_all(ss),
    decreases ss.len(),
{
    crate::text::lemma_words_empty();
    if ss.len() == 0 {
        assert(Seq::<Seq<char>>::empty() + Seq::<Seq<char>>::empty() =~= Seq::<Seq<char>>::empty());
    } else {
        lemma_frag_fold_words(c, max, ss.drop_last());
        let st = frag_fold(c, max, ss.drop_last());
        let s = ss.last();
        let s2 = trim(s);
        lemma_words_trim(s);
        assert(is_ws(' '));
        if s2.len() == 0 {
            assert(words(s) =~= Seq::<Seq<char>>::empty());
        } else if st.1.len() == 0 {
            assert(words(st.1) =~= Seq::<Seq<char>>::empty());
        } else if c.spec_count(st.1 + seq![' '] + s2) <= max {
            lemma_words_join(st.1, ' ', s2);
        } else {
            assert(st.0.push(st.1).drop_last() =~= st.0);
        }
        let nst = frag_fold(c, max, ss);
        assert(words_of_all(nst.0) + words(nst.1) =~= words_of_all(st.0) + words(st.1) + words(s));
    }
}

/// The fragments of a text hold its words, in order.
pub proof fn lemma_fragments_words<C: TokenCounter>(c: C, t: Seq<char>, max: nat)
    ensures
        words_of_all(trimmed(sentence_fragments(c, t, max))) == words(t),
{
    let ss = sentences(t);
    lemma_sentences_words(t);
    lemma_frag_fold_words(c, max, ss);
    let st = frag_fold(c, max, ss);
    let f = push_nonempty(st.0, st.1);
    crate::text::lemma_words_empty();
    if st.1.len() > 0 {
        assert(f.drop_last() =~= st.0);
    } else {
        assert(words(st.1) =~= Seq::<Seq<char>>::empty());
        assert(words_of_all(st.0) + words(st.1) =~= words_of_all(st.0));
    }
    assert(words_of_all(f) == words(t));
    let fr = sentence_fragments(c, t, max);
    lemma_trimmed_words(fr);
    if f.len() == 0 {
        assert(fr == seq![t]);
        assert(seq![t].drop_last() =~= Seq::<Seq<char>>::empty());
        assert(Seq::<Seq<char>>::empty() + words(t) =~= words(t));
        assert(words_of_all(Seq::<Seq<char>>::empty()) == Seq::<Seq<char>>::empty());
        assert(seq![t].last() == t);
        assert(words_of_all(fr) == words_of_all(fr.drop_last()) + words(fr.last()));
        assert(words_of_all(fr) == words(t));
    } else {
        assert(fr == f);
    }
}

/// Trimming each part keeps the words of all of them.
proof fn lemma_trimmed_words(ss: Seq<Seq<char>>)
    ensures
        words_of_all(trimmed(ss)) == words_of_all(ss),
    decreases ss.len(),
{
    if ss.len() > 0 {
        lemma_trimmed_words(ss.drop_last());
        assert(trimmed(ss).drop_last() =~= trimmed(ss.drop_last()));
        lemma_words_trim(ss.last());
    }
}

/// The words of the displayed texts of `es`, element after element.
pub open spec fn element_words(es: Seq<ElementView>) -> Seq<Seq<char>> {
    words_of_all(displays(es))
}

/// The words of the texts of the chunks `cs`, chunk after chunk.
pub open spec fn chunk_words(cs: Seq<ChunkView>) -> Seq<Seq<char>>
    decreases cs.len(),
{
    if cs.len() == 0 {
        Seq::empty()
    } else {
        chunk_words(cs.drop_last()) + words(chunk_text(cs.last().elements))
    }
}

proof fn lemma_element_words_append(a: Seq<ElementView>, b: Seq<ElementView>)
    ensures
        element_words(a + b) == element_words(a) + element_words(b),
{
    assert(displays(a + b) =~= displays(a) + displays(b));
    lemma_words_of_all_append(displays(a), displays(b));
}

proof fn lemma_chunk_words_flatten(cs: Seq<ChunkView>)
    ensures
        chunk_words(cs) == element_words(flatten_elements(cs)),
    decreases cs.len(),
{
    if cs.len() == 0 {
        assert(displays(Seq::<ElementView>::empty()) =~= Seq::<Seq<char>>::empty());
    } else {
        lemma_chunk_words_flatten(cs.drop_last());
        assert(is_ws('\n'));
        lemma_words_of_join(displays(cs.last().elements), '\n');
        lemma_element_words_append(flatten_elements(cs.drop_last()), cs.last().elements);
    }
}

proof fn lemma_fragment_elements_words<C: TokenCounter>(c: C, cfg: HybridChunkConfig, e: ElementView)
    ensures
        element_words(fragment_elements(c, cfg, e)) == words(e.display()),
{
    let fs = sentence_fragments(c, e.display(), cfg.max_tokens as nat);
    assert(displays(fragment_elements(c, cfg, e)) =~= trimmed(fs));
    lemma_fragments_words(c, e.display(), cfg.max_tokens as nat);
}

proof fn lemma_expand_words<C: TokenCounter>(
    c: C,
    cfg: HybridChunkConfig,
    es: Seq<ElementView>,
    flags: Seq<bool>,
)
    requires
        flags.len() == es.len(),
    ensures
        element_words(expand_with(c, cfg, es, flags)) == element_words(es),
    decreases es.len(),
{
    if es.len() == 0 {
        assert(displays(Seq::<ElementView>::empty()) =~= Seq::<Seq<char>>::empty());
    } else {
        lemma_expand_words(c, cfg, es.drop_last(), flags.drop_last());
        let last_part = if flags.last() {
            fragment_elements(c, cfg, es.last())
        } else {
            seq![es.last()]
        };
        lemma_element_words_append(expand_with(c, cfg, es.drop_last(), flags.drop_last()), last_part);
        if flags.last() {
            lemma_fragment_elements_words(c, cfg, es.last());
        } else {
            assert(displays(seq![es.last()]) =~= seq![es.last().display()]);
            assert(seq![es.last().display()].drop_last() =~= Seq::<Seq<char>>::empty());
            assert(words_of_all(Seq::<Seq<char>>::empty()) == Seq::<Seq<char>>::empty());
            assert(Seq::<Seq<char>>::empty() + words(es.last().display()) =~= words(es.last().display()));
        }
        assert(es.drop_last() + seq![es.last()] =~= es);
        lemma_element_words_append(es.drop_last(), seq![es.last()]);
        assert(displays(seq![es.last()]) =~= seq![es.last().display()]);
        assert(seq![es.last().display()].drop_last() =~= Seq::<Seq<char>>::empty());
        assert(words_of_all(Seq::<Seq<char>>::empty()) == Seq::<Seq<char>>::empty());
        assert(Seq::<Seq<char>>::empty() + words(es.last().display()) =~= words(es.last().display()));
    }
}

/// Hybrid chunking conserves the words of the input, in order, for every
/// counter and configuration: the words of the chunk texts, chunk after
/// chunk, are the words of the elements' displayed texts, element after
/// element. Splitting an oversized paragraph re-flows its whitespace but
/// never drops, duplicates or reorders a word.
pub proof fn lemma_hybrid_chunks_conserve_words<C: TokenCounter>(
    c: C,
    cfg: HybridChunkConfig,
    es: Seq<ElementView>,
)
    ensures
        chunk_words(hybrid_chunks(c, cfg, es)) == element_words(es),
{
    lemma_hybrid_chunks_sound(c, cfg, es);
    lemma_chunk_words_flatten(hybrid_chunks(c, cfg, es));
    lemma_expand_words(c, cfg, es, split_flags(c, cfg, es));
}

/// What every chunk of section chunking satisfies: it holds at least one
/// element, its stamped count is the count of its own text, and it is
/// flagged oversized exactly when that count exceeds the budget.
pub open spec fn chunk_fits<C: TokenCounter>(c: C, cfg: HybridChunkConfig, ch: ChunkView) -> bool {
    &&& ch.elements.len() > 0
    &&& ch.token_estimate == c.spec_count(chunk_text(ch.elements))
    &&& ch.oversized <==> ch.token_estimate > cfg.max_tokens
}

/// The hybrid chunks of `es` fit, whatever heading they are given.
proof fn lemma_hybrid_chunks_fit<C: TokenCounter>(
    c: C,
    cfg: HybridChunkConfig,
    es: Seq<ElementView>,
    h: Option<Seq<char>>,
)
    ensures
        forall|k: int|
            0 <= k < hybrid_chunks(c, cfg, es).len() ==> chunk_fits(
                c,
                cfg,
                #[trigger] hybrid_chunks(c, cfg, es)[k],
            ),
        forall|k: int|
            0 <= k < with_heading(hybrid_chunks(c, cfg, es), h).len() ==> chunk_fits(
                c,
                cfg,
                #[trigger] with_heading(hybrid_chunks(c, cfg, es), h)[k],
            ),
{
    lemma_hybrid_chunks_sound(c, cfg, es);
    let hc = hybrid_chunks(c, cfg, es);
    assert forall|k: int| 0 <= k < hc.len() implies chunk_fits(c, cfg, #[trigger] hc[k]) by {
        assert(chunk_ok(c, cfg, hc[k]));
    }
    assert forall|k: int| 0 <= k < with_heading(hc, h).len() implies chunk_fits(
        c,
        cfg,
        #[trigger] with_heading(hc, h)[k],
    ) by {
        assert(chunk_ok(c, cfg, hc[k]));
    }
}

/// The chunks of the sections of the titles `tops` fit.
proof fn lemma_sections_chunks_fit<C: TokenCounter>(
    c: C,
    cfg: HybridChunkConfig,
    es: Seq<ElementView>,
    g: GraphView,
    tops: Seq<usize>,
)
    ensures
        forall|k: int|
            0 <= k < sections_chunks(c, cfg, es, g, tops).len() ==> chunk_fits(
                c,
                cfg,
                #[trigger] sections_chunks(c, cfg, es, g, tops)[k],
            ),
    decreases tops.len(),
{
    if tops.len() > 0 {
        lemma_sections_chunks_fit(c, cfg, es, g, tops.drop_last());
        let a = sections_chunks(c, cfg, es, g, tops.drop_last());
        let b = section_chunks(c, cfg, es, g, tops.last());
        let t = tops.last();
        let sec = crate::hybrid_chunking::section_elements(es, g, t);
        lemma_hybrid_chunks_fit(c, cfg, sec, crate::hybrid_chunking::section_heading(es[t as int]));
        assert forall|k: int| 0 <= k < (a + b).len() implies chunk_fits(c, cfg, #[trigger] (a + b)[k]) by {
            if k >= a.len() {
                assert((a + b)[k] == b[k - a.len()]);
            } else {
                assert((a + b)[k] == a[k]);
            }
        }
    }
}

/// Section chunking keeps the budget: every chunk holds at least one
/// element, its stamped count is the count of its own text under the
/// counter that made it, and it is flagged oversized exactly when that count
/// exceeds the budget. This holds for every counter, additive or not: a section
/// becomes a single unflagged chunk only when its whole text fits.
pub proof fn lemma_graph_chunks_fit<C: TokenCounter>(
    c: C,
    cfg: HybridChunkConfig,
    es: Seq<ElementView>,
    g: GraphView,
)
    ensures
        forall|k: int|
            0 <= k < graph_chunks(c, cfg, es, g).len() ==> chunk_fits(
                c,
                cfg,
                #[trigger] graph_chunks(c, cfg, es, g)[k],
            ),
{
    if es.len() > 0 {
        let tops = crate::graph::top_sections(g, g.parents.len() as int);
        let pre = es.take(crate::hybrid_chunking::preamble_len(es, tops));
        lemma_hybrid_chunks_fit(c, cfg, pre, None);
        lemma_sections_chunks_fit(c, cfg, es, g, tops);
        let a = hybrid_chunks(c, cfg, pre);
        let b = sections_chunks(c, cfg, es, g, tops);
        assert forall|k: int| 0 <= k < (a + b).len() implies chunk_fits(c, cfg, #[trigger] (a + b)[k]) by {
            if k >= a.len() {
                assert((a + b)[k] == b[k - a.len()]);
            } else {
                assert((a + b)[k] == a[k]);
            }
        }
    }
}

/// Whether `a` and `b` agree in every setting but the overlap budget.
pub open spec fn same_but_overlap(a: HybridChunkConfig, b: HybridChunkConfig) -> bool {
    &&& a.max_tokens == b.max_tokens
    &&& a.merge_adjacent == b.merge_adjacent
    &&& a.propagate_headings == b.propagate_headings
    &&& a.merge_policy == b.merge_policy
    &&& a.context_mode == b.context_mode
}

/// One step of the chunker does not read the overlap budget.
proof fn lemma_step_ignores_overlap<C: TokenCounter>(
    c: C,
    a: HybridChunkConfig,
    b: HybridChunkConfig,
    st: ChunkState,
    e: ElementView,
)
    requires
        same_but_overlap(a, b),
    ensures
        chunk_step(c, a, st, e) == chunk_step(c, b, st, e),
{
    assert(heading_of(a, e) == heading_of(b, e));
    assert(fragment_chunks(c, a, e) =~= fragment_chunks(c, b, e));
}

/// The chunker's state does not depend on the overlap budget.
proof fn lemma_fold_ignores_overlap<C: TokenCounter>(
    c: C,
    a: HybridChunkConfig,
    b: HybridChunkConfig,
    es: Seq<ElementView>,
)
    requires
        same_but_overlap(a, b),
    ensures
        chunk_fold(c, a, es) == chunk_fold(c, b, es),
    decreases es.len(),
{
    if es.len() > 0 {
        lemma_fold_ignores_overlap(c, a, b, es.drop_last());
        lemma_step_ignores_overlap(c, a, b, chunk_fold(c, a, es.drop_last()), es.last());
    }
}

/// The overlap budget of the hybrid chunker is kept for compatibility only:
/// two configurations that differ in nothing else give the same chunks, with
/// the same elements, headings, counts and flags. Chunks never share
/// elements.
pub proof fn lemma_hybrid_chunks_ignore_overlap<C: TokenCounter>(
    c: C,
    a: HybridChunkConfig,
    b: HybridChunkConfig,
    es: Seq<ElementView>,
)
    requires
        same_but_overlap(a, b),
    ensures
        hybrid_chunks(c, a, es) == hybrid_chunks(c, b, es),
{
    lemma_fold_ignores_overlap(c, a, b, es);
}

/// The section chunks do not depend on the overlap budget.
proof fn lemma_sections_ignore_overlap<C: TokenCounter>(
    c: C,
    a: HybridChunkConfig,
    b: HybridChunkConfig,
    es: Seq<ElementView>,
    g: GraphView,
    tops: Seq<usize>,
)
    requires
        same_but_overlap(a, b),
    ensures
        sections_chunks(c, a, es, g, tops) == sections_chunks(c, b, es, g, tops),
    decreases tops.len(),
{
    if tops.len() > 0 {
        lemma_sections_ignore_overlap(c, a, b, es, g, tops.drop_last());
        let t = tops.last();
        lemma_hybrid_chunks_ignore_overlap(
            c,
            a,
            b,
            crate::hybrid_chunking::section_elements(es, g, t),
        );
    }
}

/// Section chunking ignores the overlap budget as well: two configurations
/// that differ in nothing else give the same chunks.
pub proof fn lemma_graph_chunks_ignore_overlap<C: TokenCounter>(
    c: C,
    a: HybridChunkConfig,
    b: HybridChunkConfig,
    es: Seq<ElementView>,
    g: GraphView,
)
    requires
        same_but_overlap(a, b),
    ensures
        graph_chunks(c, a, es, g) == graph_chunks(c, b, es, g),
{
    if es.len() > 0 {
        let tops = crate::graph::top_sections(g, g.parents.len() as int);
        lemma_hybrid_chunks_ignore_overlap(
            c,
            a,
            b,
            es.take(crate::hybrid_chunking::preamble_len(es, tops)),
        );
        lemma_sections_ignore_overlap(c, a, b, es, g, tops);
    }
}

/// Handing a chunker the word proxy explicitly changes nothing: two
/// word-proxy chunkers with the same configuration give the same chunks of
/// any elements, by plain and by section chunking. In particular
/// `HybridChunker::new(config)` and
/// `HybridChunker::new(config).with_token_counter(WordProxyCounter)` agree
/// chunk by chunk.
pub proof fn lemma_word_proxy_explicit(
    a: HybridChunker<WordProxyCounter>,
    b: HybridChunker<WordProxyCounter>,
    es: Seq<ElementView>,
    g: GraphView,
)
    requires
        a.config_view() == b.config_view(),
    ensures
        hybrid_chunks(a.counter_view(), a.config_view(), es) == hybrid_chunks(
            b.counter_view(),
            b.config_view(),
            es,
        ),
        graph_chunks(a.counter_view(), a.config_view(), es, g) == graph_chunks(
            b.counter_view(),
            b.config_view(),
            es,
            g,
        ),
{
    assert(a.counter_view() == b.counter_view());
}

/// Under any-inline-content merging, paragraphs, list items and key-value
/// pairs merge with one another in any combination; a title, table, header,
/// footer, image or code block merges with nothing.
pub proof fn lemma_any_inline_merges(a: ElementView, b: ElementView)
    ensures
        can_merge(a, b, MergePolicy::AnyInlineContent) <==> ((a is Paragraph || a is ListItem
            || a is KeyValue) && (b is Paragraph || b is ListItem || b is KeyValue)),
{
}

/// Under same-type merging, only a paragraph after a paragraph and a list
/// item after a list item merge.
pub proof fn lemma_same_type_merges(a: ElementView, b: ElementView)
    ensures
        can_merge(a, b, MergePolicy::SameTypeOnly) <==> ((a is Paragraph && b is Paragraph) || (
        a is ListItem && b is ListItem)),
{
}

/// Two elements that carry text, each within the budget together, become a
/// single chunk under any-inline-content merging: for instance a paragraph
/// followed by a key-value pair gives one chunk holding both, whose text is
/// the paragraph, a newline, and `key: value`.
pub proof fn lemma_text_pair_one_chunk<C: TokenCounter>(
    c: C,
    cfg: HybridChunkConfig,
    a: ElementView,
    b: ElementView,
)
    requires
        cfg.merge_adjacent,
        cfg.merge_policy == MergePolicy::AnyInlineContent,
        a is Paragraph || a is ListItem || a is KeyValue,
        b is Paragraph || b is ListItem || b is KeyValue,
        c.spec_count(a.display()) <= cfg.max_tokens,
        c.spec_count(chunk_text(seq![a, b])) <= cfg.max_tokens,
    ensures
        hybrid_chunks(c, cfg, seq![a, b]).len() == 1,
        hybrid_chunks(c, cfg, seq![a, b])[0].elements == seq![a, b],
        hybrid_chunks(c, cfg, seq![a, b])[0].heading == heading_of(cfg, a),
        !hybrid_chunks(c, cfg, seq![a, b])[0].oversized,
{
    let es = seq![a, b];
    assert(es.drop_last() =~= seq![a]);
    assert(seq![a].drop_last() =~= Seq::<ElementView>::empty());
    let st0 = chunk_init();
    assert(chunk_fold(c, cfg, Seq::<ElementView>::empty()) == st0);
    assert(!merges(c, cfg, st0, a));
    let st1 = chunk_step(c, cfg, st0, a);
    assert(chunk_fold(c, cfg, seq![a]) == st1);
    assert(flushed(c, st0) == Seq::<ChunkView>::empty());
    assert(st1.buffer == seq![a]);
    assert(st1.chunks == Seq::<ChunkView>::empty());
    assert(seq![a].push(b) =~= es);
    assert(can_merge(a, b, MergePolicy::AnyInlineContent));
    assert(joined_count(c, st1.buffer, b) == c.spec_count(chunk_text(es)));
    assert(merges(c, cfg, st1, b));
    let st2 = chunk_step(c, cfg, st1, b);
    assert(chunk_fold(c, cfg, es) == st2);
    assert(st2.buffer == es);
    assert(hybrid_chunks(c, cfg, es) == seq![mk_chunk(c, es, heading_of(cfg, a), false)]);
}

/// Which elements the hybrid chunker cuts at sentence ends: paragraphs and
/// list items, and nothing else; sentences end at `.`, `!` and `?`; a chunk
/// carries its first element's `parent_heading` when headings propagate,
/// and no heading otherwise.
pub proof fn lemma_hybrid_classes(e: ElementView, ch: char, cfg: HybridChunkConfig)
    ensures
        is_splittable(e) <==> (e is Paragraph || e is ListItem),
        is_delim(ch) <==> (ch == '.' || ch == '!' || ch == '?'),
        heading_of(cfg, e) == if cfg.propagate_headings {
            e.meta().parent_heading
        } else {
            None
        },
{
}

/// The state after `es` with merging off: every chunk emitted holds one
/// element, and the buffer holds at most one.
proof fn lemma_fold_no_merge<C: TokenCounter>(c: C, cfg: HybridChunkConfig, es: Seq<ElementView>)
    requires
        !cfg.merge_adjacent,
    ensures
        forall|k: int|
            0 <= k < chunk_fold(c, cfg, es).chunks.len() ==> (#[trigger] chunk_fold(
                c,
                cfg,
                es,
            ).chunks[k]).elements.len() == 1,
        chunk_fold(c, cfg, es).buffer.len() <= 1,
    decreases es.len(),
{
    if es.len() > 0 {
        lemma_fold_no_merge(c, cfg, es.drop_last());
        let st = chunk_fold(c, cfg, es.drop_last());
        let e = es.last();
        let nst = chunk_fold(c, cfg, es);
        let fl = flushed(c, st);
        assert(forall|k: int| 0 <= k < fl.len() ==> (#[trigger] fl[k]).elements.len() == 1) by {
            assert forall|k: int| 0 <= k < fl.len() implies (#[trigger] fl[k]).elements.len() == 1 by {
                if k < st.chunks.len() {
                    assert(fl[k] == st.chunks[k]);
                }
            }
        }
        let fc = fragment_chunks(c, cfg, e);
        assert forall|k: int| 0 <= k < nst.chunks.len() implies (#[trigger] nst.chunks[k]).elements.len()
            == 1 by {
            if c.spec_count(e.display()) > cfg.max_tokens && is_splittable(e) {
                if k >= fl.len() {
                    assert(nst.chunks[k] == fc[k - fl.len()]);
                } else {
                    assert(nst.chunks[k] == fl[k]);
                }
            } else if c.spec_count(e.display()) > cfg.max_tokens {
                if k < fl.len() {
                    assert(nst.chunks[k] == fl[k]);
                }
            } else {
                assert(nst.chunks[k] == fl[k]);
            }
        }
    }
}

/// With merging off, no two elements share a chunk: every chunk holds
/// exactly one element (a whole element, or one sentence fragment of an
/// oversized paragraph or list item).
pub proof fn lemma_no_merge_one_element_per_chunk<C: TokenCounter>(
    c: C,
    cfg: HybridChunkConfig,
    es: Seq<ElementView>,
)
    requires
        !cfg.merge_adjacent,
    ensures
        forall|k: int|
            0 <= k < hybrid_chunks(c, cfg, es).len() ==> (#[trigger] hybrid_chunks(c, cfg, es)[k]).elements.len()
                == 1,
{
    lemma_fold_no_merge(c, cfg, es);
    lemma_hybrid_chunks_sound(c, cfg, es);
    let st = chunk_fold(c, cfg, es);
    let r = hybrid_chunks(c, cfg, es);
    assert forall|k: int| 0 <= k < r.len() implies (#[trigger] r[k]).elements.len() == 1 by {
        if k < st.chunks.len() {
            assert(r[k] == st.chunks[k]);
        } else {
            assert(chunk_ok(c, cfg, r[k]));
        }
    }
}

} // verus!
