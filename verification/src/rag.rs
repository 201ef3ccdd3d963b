//! RAG chunks: a hybrid chunk with the metadata a vector store needs, and
//! its embedding text contextualized with a deterministic document and
//! section prefix.

use vstd::prelude::*;
use crate::element::{
    copy_opt_string, copy_strings, has_page, opt_view, sorted_pages, strictly_increasing,
    strings_view, views, Element, ElementView,
};
use crate::hybrid_chunking::{chunk_text, ContextFormat, ContextMode, HybridChunk};
use crate::objects::copy_string;
use crate::text::{append_str, dec, dec_chars, join, join_strings, push_char, string_of};
use crate::token_counter::{TokenCounter, WordProxyCounter};

verus! {

/// Where a document came from: its title, author, file name and content
/// hash, each when known.
#[derive(Debug, Clone)]
pub struct DocumentSource {
    pub title: Option<String>,
    pub author: Option<String>,
    pub filename: Option<String>,
    pub doc_hash: Option<String>,
}

/// The value of a document source.
pub struct SourceView {
    pub title: Option<Seq<char>>,
    pub author: Option<Seq<char>>,
    pub filename: Option<Seq<char>>,
    pub doc_hash: Option<Seq<char>>,
}

impl Default for DocumentSource {
    /// A source with nothing known.
    fn default() -> (s: DocumentSource)
        ensures
            s.title is None,
            s.author is None,
            s.filename is None,
            s.doc_hash is None,
    {
        DocumentSource { title: None, author: None, filename: None, doc_hash: None }
    }
}

impl DocumentSource {
    /// The value of the source.
    pub open spec fn view(&self) -> SourceView {
        SourceView {
            title: opt_view(self.title),
            author: opt_view(self.author),
            filename: opt_view(self.filename),
            doc_hash: opt_view(self.doc_hash),
        }
    }


    /// A source known by its file name and content hash.
    pub fn with_file(filename: Option<String>, doc_hash: Option<String>) -> (s: DocumentSource)
        ensures
            s.title is None,
            s.author is None,
            s.filename == filename,
            s.doc_hash == doc_hash,
    {
        DocumentSource { title: None, author: None, filename, doc_hash }
    }

    /// A copy of the source.
    pub fn copy(&self) -> (r: DocumentSource)
        ensures
            r.view() == self.view(),
    {
        DocumentSource {
            title: copy_opt_string(&self.title),
            author: copy_opt_string(&self.author),
            filename: copy_opt_string(&self.filename),
            doc_hash: copy_opt_string(&self.doc_hash),
        }
    }
}

/// Per-chunk metadata: the chunk's id, the heading breadcrumb of its first
/// element, its element count, and the document source when stamped.
#[derive(Debug, Clone)]
pub struct ChunkMetadata {
    pub chunk_id: String,
    pub heading_path: Vec<String>,
    pub element_count: usize,
    pub source: Option<DocumentSource>,
}

/// A chunk ready for a vector store.
#[derive(Debug, Clone)]
pub struct RagChunk {
    /// Position of the chunk in the document, from 0.
    pub chunk_index: usize,
    /// The chunk text: the displayed texts of its elements, one per line.
    pub text: String,
    /// The text for embedding, contextualized per the context mode.
    pub full_text: String,
    /// The pages of the chunk's elements, in increasing order, each once.
    pub page_numbers: Vec<u32>,
    /// The type name of each element.
    pub element_types: Vec<String>,
    /// The heading context of the chunk.
    pub heading_context: Option<String>,
    /// The token count of the embedding text.
    pub token_estimate: usize,
    /// Whether the chunk exceeds the budget.
    pub is_oversized: bool,
    /// Id, breadcrumb, element count and source.
    pub metadata: ChunkMetadata,
}

/// `p. N` for one page, `p. N–M` (en dash) for a range.
pub open spec fn render_page_spec(span: (u32, u32)) -> Seq<char> {
    if span.0 == span.1 {
        "p. "@ + dec(span.0 as nat)
    } else {
        "p. "@ + dec(span.0 as nat) + "\u{2013}"@ + dec(span.1 as nat)
    }
}

/// The document name: the title, or else the file name.
pub open spec fn doc_name(source: Option<SourceView>) -> Option<Seq<char>> {
    match source {
        Some(s) => match s.title {
            Some(t) => Some(t),
            None => s.filename,
        },
        None => None,
    }
}

/// The author, when a source is given.
pub open spec fn author_of(source: Option<SourceView>) -> Option<Seq<char>> {
    match source {
        Some(s) => s.author,
        None => None,
    }
}

/// The section breadcrumb: the headings joined by ` › `; none when the
/// path is empty.
pub open spec fn section_of(heading_path: Seq<Seq<char>>) -> Option<Seq<char>> {
    if heading_path.len() > 0 {
        Some(join(heading_path, " \u{203A} "@))
    } else {
        None
    }
}

/// The labeled prefix: a `Document: <name>` line (with ` — <author>` when
/// there is one) when the document has a name, a `Section: <breadcrumb>`
/// line when there is a section, the page span in parentheses at the end of
/// the last line, lines joined by newlines.
pub open spec fn labeled_prefix(
    name: Option<Seq<char>>,
    author: Option<Seq<char>>,
    section: Option<Seq<char>>,
    page: Option<Seq<char>>,
) -> Seq<char> {
    let l1: Seq<Seq<char>> = match name {
        Some(n) => seq![
            match author {
                Some(a) => "Document: "@ + n + " \u{2014} "@ + a,
                None => "Document: "@ + n,
            },
        ],
        None => Seq::empty(),
    };
    let l2 = match section {
        Some(sec) => l1.push("Section: "@ + sec),
        None => l1,
    };
    let l3 = match page {
        Some(pg) => if l2.len() > 0 {
            l2.update(l2.len() - 1, l2.last() + " ("@ + pg + ")"@)
        } else {
            l2
        },
        None => l2,
    };
    join(l3, seq!['\n'])
}

/// ` by <author>` when there is an author.
pub open spec fn by_author(author: Option<Seq<char>>) -> Seq<char> {
    match author {
        Some(a) => " by "@ + a,
        None => Seq::empty(),
    }
}

/// `<lead>"<breadcrumb>"` when there is a section.
pub open spec fn quoted_section(lead: Seq<char>, section: Option<Seq<char>>) -> Seq<char> {
    match section {
        Some(sec) => lead + "\""@ + sec + "\""@,
        None => Seq::empty(),
    }
}

/// ` (<page>)` when there is a page.
pub open spec fn page_suffix(page: Option<Seq<char>>) -> Seq<char> {
    match page {
        Some(pg) => " ("@ + pg + ")"@,
        None => Seq::empty(),
    }
}

/// What the prose prefix says the chunk is from: `"<name>" by <author>,
/// section "<breadcrumb>"`, or without a name `section "<breadcrumb>"`, each
/// part present only when known.
pub open spec fn prose_body(
    name: Option<Seq<char>>,
    author: Option<Seq<char>>,
    section: Option<Seq<char>>,
) -> Seq<char> {
    match name {
        Some(n) => "\""@ + n + "\""@ + by_author(author) + quoted_section(", section "@, section),
        None => quoted_section("section "@, section),
    }
}

/// The prose prefix: `This chunk is from <body> (<page>).`
pub open spec fn prose_prefix(
    name: Option<Seq<char>>,
    author: Option<Seq<char>>,
    section: Option<Seq<char>>,
    page: Option<Seq<char>>,
) -> Seq<char> {
    "This chunk is from "@ + prose_body(name, author, section) + page_suffix(page) + "."@
}

/// The context prefix of a chunk: none when there is neither a document
/// name nor a section (a page alone is not enough context); otherwise the
/// labeled or the prose prefix.
pub open spec fn context_prefix(
    format: ContextFormat,
    source: Option<SourceView>,
    heading_path: Seq<Seq<char>>,
    page_span: Option<(u32, u32)>,
) -> Option<Seq<char>> {
    let name = doc_name(source);
    let author = author_of(source);
    let section = section_of(heading_path);
    let page = match page_span {
        Some(sp) => Some(render_page_spec(sp)),
        None => None,
    };
    if name is None && section is None {
        None
    } else {
        match format {
            ContextFormat::Labeled => Some(labeled_prefix(name, author, section, page)),
            ContextFormat::Prose => Some(prose_prefix(name, author, section, page)),
        }
    }
}

/// Renders a page span.
fn render_page(span: (u32, u32)) -> (s: String)
    ensures
        s@ == render_page_spec(span),
{
    let mut s = "p. ".to_owned();
    let a = dec_chars(span.0 as u64);
    let a = string_of(a.as_slice());
    append_str(&mut s, a.as_str());
    if span.0 != span.1 {
        append_str(&mut s, "\u{2013}");
        let b = dec_chars(span.1 as u64);
        let b = string_of(b.as_slice());
        append_str(&mut s, b.as_str());
    }
    s
}

/// The name, author and section of a prefix, built.
fn prefix_parts(source: Option<&DocumentSource>, heading_path: &[String]) -> (r: (
    Option<String>,
    Option<String>,
    Option<String>,
))
    ensures
        opt_view(r.0) == doc_name(
            match source {
                Some(s) => Some(s.view()),
                None => None,
            },
        ),
        opt_view(r.1) == author_of(
            match source {
                Some(s) => Some(s.view()),
                None => None,
            },
        ),
        opt_view(r.2) == section_of(strings_view(heading_path@)),
{
    let doc_name = match source {
        Some(s) => match &s.title {
            Some(t) => Some(copy_string(t)),
            None => copy_opt_string(&s.filename),
        },
        None => None,
    };
    let author = match source {
        Some(s) => copy_opt_string(&s.author),
        None => None,
    };
    let section = if heading_path.len() > 0 {
        Some(join_strings(heading_path, " \u{203A} "))
    } else {
        None
    };
    (doc_name, author, section)
}

/// The labeled prefix, built.
fn labeled_text(
    doc_name: &Option<String>,
    author: &Option<String>,
    section: &Option<String>,
    page: &Option<String>,
) -> (r: String)
    ensures
        r@ == labeled_prefix(opt_view(*doc_name), opt_view(*author), opt_view(*section), opt_view(*page)),
{
    let ghost nv = opt_view(*doc_name);
    let ghost av = opt_view(*author);
    let ghost sv = opt_view(*section);
    let ghost pv = opt_view(*page);
    let mut lines: Vec<String> = Vec::new();
    match doc_name {
        Some(name) => {
            let mut l = "Document: ".to_owned();
            append_str(&mut l, name.as_str());
            match author {
                Some(a) => {
                    append_str(&mut l, " \u{2014} ");
                    append_str(&mut l, a.as_str());
                },
                None => {},
            }
            lines.push(l);
        },
        None => {},
    }
    let ghost l1: Seq<Seq<char>> = match nv {
        Some(n) => seq![
            match av {
                Some(a) => "Document: "@ + n + " \u{2014} "@ + a,
                None => "Document: "@ + n,
            },
        ],
        None => Seq::empty(),
    };
    assert(strings_view(lines@) =~= l1);
    match section {
        Some(sec) => {
            let mut l = "Section: ".to_owned();
            append_str(&mut l, sec.as_str());
            lines.push(l);
        },
        None => {},
    }
    let ghost l2 = strings_view(lines@);
    assert(l2 =~= match sv {
        Some(sec) => l1.push("Section: "@ + sec),
        None => l1,
    });
    match page {
        Some(pg) => {
            if lines.len() > 0 {
                let last = lines.len() - 1;
                let mut l = String::new();
                std::mem::swap(&mut l, &mut lines[last]);
                append_str(&mut l, " (");
                append_str(&mut l, pg.as_str());
                append_str(&mut l, ")");
                let ghost lv = l@;
                lines.set(last, l);
                assert(strings_view(lines@) =~= l2.update(last as int, lv));
            }
        },
        None => {},
    }
    let nl = "\n";
    proof {
        reveal_strlit("\n");
    }
    let joined = join_strings(lines.as_slice(), nl);
    assert(nl@ =~= seq!['\n']);
    assert(joined@ == labeled_prefix(nv, av, sv, pv));
    joined
}

/// `lead`, then the section in double quotes, when there is a section.
fn quoted_section_text(lead: &str, section: &Option<String>) -> (r: String)
    ensures
        r@ == quoted_section(lead@, opt_view(*section)),
{
    match section {
        Some(sec) => {
            let mut s = lead.to_owned();
            append_str(&mut s, "\"");
            append_str(&mut s, sec.as_str());
            append_str(&mut s, "\"");
            s
        },
        None => String::new(),
    }
}

/// The body of the prose prefix, built.
fn prose_body_text(doc_name: &Option<String>, author: &Option<String>, section: &Option<String>) -> (r:
    String)
    ensures
        r@ == prose_body(opt_view(*doc_name), opt_view(*author), opt_view(*section)),
{
    match doc_name {
        Some(name) => {
            let mut s = "\"".to_owned();
            append_str(&mut s, name.as_str());
            append_str(&mut s, "\"");
            match author {
                Some(a) => {
                    append_str(&mut s, " by ");
                    append_str(&mut s, a.as_str());
                },
                None => {},
            }
            let ghost s1 = s@;
            assert(s1 =~= "\""@ + name@ + "\""@ + by_author(opt_view(*author)));
            let q = quoted_section_text(", section ", section);
            append_str(&mut s, q.as_str());
            s
        },
        None => quoted_section_text("section ", section),
    }
}

/// The prose prefix, built.
fn prose_text(
    doc_name: &Option<String>,
    author: &Option<String>,
    section: &Option<String>,
    page: &Option<String>,
) -> (r: String)
    ensures
        r@ == prose_prefix(opt_view(*doc_name), opt_view(*author), opt_view(*section), opt_view(*page)),
{
    let mut s = "This chunk is from ".to_owned();
    let body = prose_body_text(doc_name, author, section);
    append_str(&mut s, body.as_str());
    match page {
        Some(pg) => {
            append_str(&mut s, " (");
            append_str(&mut s, pg.as_str());
            append_str(&mut s, ")");
        },
        None => {},
    }
    let ghost s2 = s@;
    assert(s2 =~= "This chunk is from "@ + body@ + page_suffix(opt_view(*page)));
    append_str(&mut s, ".");
    s
}

/// The deterministic context prefix of a chunk, as `context_prefix`
/// describes; `None` when there is neither a document name nor a section.
pub fn build_context_prefix(
    format: ContextFormat,
    source: Option<&DocumentSource>,
    heading_path: &[String],
    page_span: Option<(u32, u32)>,
) -> (r: Option<String>)
    ensures
        opt_view(r) == context_prefix(
            format,
            match source {
                Some(s) => Some(s.view()),
                None => None,
            },
            strings_view(heading_path@),
            page_span,
        ),
{
    let (doc_name, author, section) = prefix_parts(source, heading_path);
    let page: Option<String> = match page_span {
        Some(sp) => Some(render_page(sp)),
        None => None,
    };
    if doc_name.is_none() && section.is_none() {
        return None;
    }
    let ghost nv = opt_view(doc_name);
    let ghost av = opt_view(author);
    let ghost sv = opt_view(section);
    let ghost pv = opt_view(page);
    let prefix = match format {
        ContextFormat::Labeled => labeled_text(&doc_name, &author, &section, &page),
        ContextFormat::Prose => prose_text(&doc_name, &author, &section, &page),
    };
    Some(prefix)
}

/// The heading breadcrumb of the first of `es`; empty when there is none.
pub open spec fn first_heading_path(es: Seq<ElementView>) -> Seq<Seq<char>> {
    if es.len() > 0 {
        es[0].meta().heading_path
    } else {
        Seq::empty()
    }
}

/// The first and last of `pages`, when there are any.
pub open spec fn page_span_of(pages: Seq<u32>) -> Option<(u32, u32)> {
    if pages.len() > 0 {
        Some((pages[0], pages.last()))
    } else {
        None
    }
}

/// The embedding text of a chunk under `mode`: the chunk text (no context);
/// the heading, a blank line and the chunk text (heading context, when the
/// chunk has a heading); or the context prefix, a blank line and the chunk
/// text (contextual, when there is a prefix).
pub open spec fn rag_full_text(
    mode: ContextMode,
    ch: crate::hybrid_chunking::ChunkView,
    source: Option<SourceView>,
    pages: Seq<u32>,
) -> Seq<char> {
    let text = chunk_text(ch.elements);
    match mode {
        ContextMode::NoContext => text,
        ContextMode::Heading => match ch.heading {
            Some(h) => h + seq!['\n', '\n'] + text,
            None => text,
        },
        ContextMode::Contextual(f) => match context_prefix(
            f,
            source,
            first_heading_path(ch.elements),
            page_span_of(pages),
        ) {
            Some(prefix) => prefix + seq!['\n', '\n'] + text,
            None => text,
        },
    }
}

/// The id of chunk `index`: the document hash (or `chunk` when there is
/// none), a hyphen, and the index in decimal.
pub open spec fn chunk_id_spec(index: usize, doc_hash: Option<Seq<char>>) -> Seq<char> {
    match doc_hash {
        Some(h) => h + "-"@ + dec(index as nat),
        None => "chunk-"@ + dec(index as nat),
    }
}

/// The document hash of an optional source.
pub open spec fn hash_of(source: Option<SourceView>) -> Option<Seq<char>> {
    match source {
        Some(s) => s.doc_hash,
        None => None,
    }
}

/// What a RAG chunk built from chunk `ch` at position `index` holds, its
/// token count taken by `c` over its embedding text.
pub open spec fn rag_chunk_of<C: TokenCounter>(
    r: RagChunk,
    index: usize,
    ch: crate::hybrid_chunking::ChunkView,
    source: Option<SourceView>,
    mode: ContextMode,
    c: C,
) -> bool {
    &&& r.chunk_index == index
    &&& r.text@ == chunk_text(ch.elements)
    &&& strictly_increasing(r.page_numbers@)
    &&& forall|p: u32| r.page_numbers@.contains(p) <==> has_page(ch.elements, p)
    &&& strings_view(r.element_types@) == ch.elements.map_values(|e: ElementView| e.type_label())
    &&& opt_view(r.heading_context) == ch.heading
    &&& r.is_oversized == ch.oversized
    &&& r.full_text@ == rag_full_text(mode, ch, source, r.page_numbers@)
    &&& r.token_estimate == c.spec_count(r.full_text@)
    &&& r.metadata.chunk_id@ == chunk_id_spec(index, hash_of(source))
    &&& strings_view(r.metadata.heading_path@) == first_heading_path(ch.elements)
    &&& r.metadata.element_count == ch.elements.len()
}

/// The optional source, as a value.
pub open spec fn source_view(source: Option<&DocumentSource>) -> Option<SourceView> {
    match source {
        Some(s) => Some(s.view()),
        None => None,
    }
}

/// The pages of `elements`, in increasing order, each once.
fn collect_pages(elements: &[Element]) -> (r: Vec<u32>)
    ensures
        strictly_increasing(r@),
        forall|p: u32| r@.contains(p) <==> has_page(views(elements@), p),
{
    if elements.len() == 0 {
        let r: Vec<u32> = Vec::new();
        assert forall|p: u32| r@.contains(p) <==> has_page(views(elements@), p) by {
            assert(views(elements@).len() == 0);
        }
        return r;
    }
    // All elements on one page (the common case).
    let first_page = elements[0].page();
    let mut same = true;
    for i in 0..elements.len()
        invariant
            same ==> forall|k: int| 0 <= k < i ==> (#[trigger] views(elements@)[k]).meta().page == first_page,
    {
        if elements[i].page() != first_page {
            same = false;
        }
    }
    if same {
        let mut r: Vec<u32> = Vec::new();
        r.push(first_page);
        proof {
            assert forall|p: u32| r@.contains(p) <==> has_page(views(elements@), p) by {
                if r@.contains(p) {
                    assert(r@[0] == p);
                    assert(views(elements@)[0].meta().page == p);
                }
                if has_page(views(elements@), p) {
                    let k = choose|k: int| 0 <= k < views(elements@).len() && (#[trigger] views(elements@)[k]).meta().page == p;
                    assert(r@[0] == p);
                }
            }
        }
        return r;
    }
    sorted_pages(elements)
}

/// The decimal digits of `n`, as a string.
fn dec_string(n: usize) -> (s: String)
    ensures
        s@ == dec(n as nat),
{
    let v = dec_chars(n as u64);
    string_of(v.as_slice())
}

impl RagChunk {
    /// A RAG chunk from `chunk` at position `chunk_index`, with heading
    /// context in its embedding text, counted by the word proxy.
    pub fn from_hybrid_chunk(chunk_index: usize, chunk: &HybridChunk) -> (r: RagChunk)
        ensures
            rag_chunk_of(r, chunk_index, chunk@, None, ContextMode::Heading, WordProxyCounter),
            r.metadata.source is None,
    {
        Self::from_hybrid_chunk_inner(chunk_index, chunk, None, ContextMode::Heading, &WordProxyCounter)
    }

    /// A RAG chunk stamped with `source`, with heading context in its
    /// embedding text, counted by the word proxy.
    pub fn from_hybrid_chunk_with_source(
        chunk_index: usize,
        chunk: &HybridChunk,
        source: &DocumentSource,
    ) -> (r: RagChunk)
        ensures
            rag_chunk_of(
                r,
                chunk_index,
                chunk@,
                Some(source.view()),
                ContextMode::Heading,
                WordProxyCounter,
            ),
            r.metadata.source matches Some(s) && s.view() == source.view(),
    {
        Self::from_hybrid_chunk_with_source_and_mode(chunk_index, chunk, source, ContextMode::Heading)
    }

    /// A RAG chunk with its embedding text contextualized per
    /// `context_mode`, counted by the word proxy; with no source, a
    /// contextual prefix carries the section only.
    pub fn from_hybrid_chunk_with_mode(
        chunk_index: usize,
        chunk: &HybridChunk,
        context_mode: ContextMode,
    ) -> (r: RagChunk)
        ensures
            rag_chunk_of(r, chunk_index, chunk@, None, context_mode, WordProxyCounter),
            r.metadata.source is None,
    {
        Self::from_hybrid_chunk_inner(chunk_index, chunk, None, context_mode, &WordProxyCounter)
    }

    /// A RAG chunk stamped with `source`, its embedding text contextualized
    /// per `context_mode` with the document name and author from `source`,
    /// counted by the word proxy.
    pub fn from_hybrid_chunk_with_source_and_mode(
        chunk_index: usize,
        chunk: &HybridChunk,
        source: &DocumentSource,
        context_mode: ContextMode,
    ) -> (r: RagChunk)
        ensures
            rag_chunk_of(r, chunk_index, chunk@, Some(source.view()), context_mode, WordProxyCounter),
            r.metadata.source matches Some(s) && s.view() == source.view(),
    {
        Self::from_hybrid_chunk_with_counter(
            chunk_index,
            chunk,
            Some(source),
            context_mode,
            &WordProxyCounter,
        )
    }

    /// A RAG chunk whose token count is taken by `counter` over its
    /// embedding text: the counter the chunks were made with, when it is
    /// not the word proxy. `source`, when given, stamps the chunk and
    /// supplies the document name, author and hash.
    pub fn from_hybrid_chunk_with_counter<C: TokenCounter>(
        chunk_index: usize,
        chunk: &HybridChunk,
        source: Option<&DocumentSource>,
        context_mode: ContextMode,
        counter: &C,
    ) -> (r: RagChunk)
        ensures
            rag_chunk_of(r, chunk_index, chunk@, source_view(source), context_mode, *counter),
            match source {
                Some(src) => r.metadata.source matches Some(s) && s.view() == src.view(),
                None => r.metadata.source is None,
            },
    {
        let mut c = Self::from_hybrid_chunk_inner(chunk_index, chunk, source, context_mode, counter);
        match source {
            Some(src) => {
                c.metadata.source = Some(src.copy());
            },
            None => {},
        }
        c
    }

    /// The shared constructor; `source`, when given, supplies the document
    /// name, author and hash.
    fn from_hybrid_chunk_inner<C: TokenCounter>(
        chunk_index: usize,
        chunk: &HybridChunk,
        source: Option<&DocumentSource>,
        context_mode: ContextMode,
        counter: &C,
    ) -> (r: RagChunk)
        ensures
            rag_chunk_of(r, chunk_index, chunk@, source_view(source), context_mode, *counter),
            r.metadata.source is None,
    {
        let elements = chunk.elements();
        let ghost es = chunk@.elements;
        let page_numbers = collect_pages(elements);
        let mut element_types: Vec<String> = Vec::new();
        for i in 0..elements.len()
            invariant
                views(elements@) == es,
                strings_view(element_types@) == es.take(i as int).map_values(
                    |e: ElementView| e.type_label(),
                ),
        {
            let ghost t0 = element_types@;
            let t = elements[i].type_label().to_owned();
            element_types.push(t);
            proof {
                assert(strings_view(element_types@) =~= strings_view(t0).push(t@));
                assert(es.take(i + 1).map_values(|e: ElementView| e.type_label()) =~= es.take(
                    i as int,
                ).map_values(|e: ElementView| e.type_label()).push(es[i as int].type_label()));
            }
        }
        assert(es.take(elements.len() as int) =~= es);
        let text = chunk.text();
        let heading_path: Vec<String> = if elements.len() > 0 {
            copy_strings(&elements[0].metadata().heading_path)
        } else {
            Vec::new()
        };
        assert(strings_view(heading_path@) =~= first_heading_path(es));
        let full_text = match context_mode {
            ContextMode::NoContext => copy_string(&text),
            ContextMode::Heading => chunk.full_text(),
            ContextMode::Contextual(format) => {
                let page_span: Option<(u32, u32)> = if page_numbers.len() > 0 {
                    Some((page_numbers[0], page_numbers[page_numbers.len() - 1]))
                } else {
                    None
                };
                match build_context_prefix(format, source, heading_path.as_slice(), page_span) {
                    Some(prefix) => {
                        let mut s = prefix;
                        push_char(&mut s, '\n');
                        push_char(&mut s, '\n');
                        append_str(&mut s, text.as_str());
                        s
                    },
                    None => copy_string(&text),
                }
            },
        };
        let chunk_id = match source {
            Some(src) => match &src.doc_hash {
                Some(h) => {
                    let mut id = copy_string(h);
                    append_str(&mut id, "-");
                    let d = dec_string(chunk_index);
                    append_str(&mut id, d.as_str());
                    id
                },
                None => {
                    let mut id = "chunk-".to_owned();
                    let d = dec_string(chunk_index);
                    append_str(&mut id, d.as_str());
                    id
                },
            },
            None => {
                let mut id = "chunk-".to_owned();
                let d = dec_string(chunk_index);
                append_str(&mut id, d.as_str());
                id
            },
        };
        assert(full_text@ == rag_full_text(context_mode, chunk@, source_view(source), page_numbers@));
        assert(chunk_id@ == chunk_id_spec(chunk_index, hash_of(source_view(source))));
        let token_estimate = counter.count(full_text.as_str());
        let metadata = ChunkMetadata {
            chunk_id,
            heading_path,
            element_count: elements.len(),
            source: None,
        };
        RagChunk {
            chunk_index,
            text,
            full_text,
            page_numbers,
            element_types,
            heading_context: copy_opt_string(chunk.heading()),
            token_estimate,
            is_oversized: chunk.is_oversized(),
            metadata,
        }
    }
}

/// The embedding text of a chunk ends with its display text, whatever the
/// mode, and is exactly the display text when no context is asked for.
pub proof fn lemma_full_text_ends_with_text(
    mode: ContextMode,
    ch: crate::hybrid_chunking::ChunkView,
    source: Option<SourceView>,
    pages: Seq<u32>,
)
    ensures
        ({
            let full = rag_full_text(mode, ch, source, pages);
            let text = chunk_text(ch.elements);
            &&& full.len() >= text.len()
            &&& full.skip(full.len() - text.len()) == text
            &&& mode == ContextMode::NoContext ==> full == text
        }),
{
    let full = rag_full_text(mode, ch, source, pages);
    let text = chunk_text(ch.elements);
    assert(full.skip(full.len() - text.len()) =~= text);
}

/// Whether `r1` and `r2` hold the same values in every field but the
/// stamped source.
pub open spec fn same_rag_chunk(r1: RagChunk, r2: RagChunk) -> bool {
    &&& r1.chunk_index == r2.chunk_index
    &&& r1.text@ == r2.text@
    &&& r1.full_text@ == r2.full_text@
    &&& r1.page_numbers@ == r2.page_numbers@
    &&& strings_view(r1.element_types@) == strings_view(r2.element_types@)
    &&& opt_view(r1.heading_context) == opt_view(r2.heading_context)
    &&& r1.token_estimate == r2.token_estimate
    &&& r1.is_oversized == r2.is_oversized
    &&& r1.metadata.chunk_id@ == r2.metadata.chunk_id@
    &&& strings_view(r1.metadata.heading_path@) == strings_view(r2.metadata.heading_path@)
    &&& r1.metadata.element_count == r2.metadata.element_count
}

/// Two increasing lists of pages with the same members are the same list.
proof fn lemma_increasing_unique(a: Seq<u32>, b: Seq<u32>)
    requires
        strictly_increasing(a),
        strictly_increasing(b),
        forall|p: u32| a.contains(p) <==> b.contains(p),
    ensures
        a == b,
    decreases a.len(),
{
    if a.len() == 0 {
        if b.len() > 0 {
            assert(b.contains(b[0]));
        }
        assert(a =~= b);
    } else {
        if b.len() == 0 {
            assert(a.contains(a[0]));
        }
        assert(a.contains(a[0]));
        assert(b.contains(b[0]));
        let j = choose|j: int| 0 <= j < b.len() && b[j] == a[0];
        let i = choose|i: int| 0 <= i < a.len() && a[i] == b[0];
        if i > 0 {
            assert(a[0] < a[i]);
        }
        if j > 0 {
            assert(b[0] < b[j]);
        }
        assert(a[0] == b[0]);
        let a1 = a.drop_first();
        let b1 = b.drop_first();
        assert forall|p: u32| a1.contains(p) <==> b1.contains(p) by {
            if a1.contains(p) {
                let k = choose|k: int| 0 <= k < a1.len() && a1[k] == p;
                assert(a[k + 1] == p && a[0] < a[k + 1]);
                assert(a.contains(p));
                let m = choose|m: int| 0 <= m < b.len() && b[m] == p;
                assert(m != 0);
                assert(b1[m - 1] == p);
            }
            if b1.contains(p) {
                let k = choose|k: int| 0 <= k < b1.len() && b1[k] == p;
                assert(b[k + 1] == p && b[0] < b[k + 1]);
                assert(b.contains(p));
                let m = choose|m: int| 0 <= m < a.len() && a[m] == p;
                assert(m != 0);
                assert(a1[m - 1] == p);
            }
        }
        lemma_increasing_unique(a1, b1);
        assert forall|k: int| 0 <= k < a.len() implies a[k] == b[k] by {
            if k > 0 {
                assert(a[k] == a1[k - 1]);
                assert(b[k] == b1[k - 1]);
            }
        }
        assert(a =~= b);
    }
}

/// A RAG chunk is determined by what it is built from: two RAG chunks built
/// from the same chunk at the same position, with the same source, context
/// mode and counter, agree in every field. In particular
/// `from_hybrid_chunk_with_source` gives what
/// `from_hybrid_chunk_with_source_and_mode` gives in heading mode, down to
/// the embedding text.
pub proof fn lemma_rag_chunk_determined<C: TokenCounter>(
    r1: RagChunk,
    r2: RagChunk,
    index: usize,
    ch: crate::hybrid_chunking::ChunkView,
    source: Option<SourceView>,
    mode: ContextMode,
    c: C,
)
    requires
        rag_chunk_of(r1, index, ch, source, mode, c),
        rag_chunk_of(r2, index, ch, source, mode, c),
    ensures
        same_rag_chunk(r1, r2),
{
    assert forall|p: u32| r1.page_numbers@.contains(p) <==> r2.page_numbers@.contains(p) by {
        assert(r1.page_numbers@.contains(p) <==> has_page(ch.elements, p));
        assert(r2.page_numbers@.contains(p) <==> has_page(ch.elements, p));
    }
    lemma_increasing_unique(r1.page_numbers@, r2.page_numbers@);
}

/// The page part of a prefix, spelled out: ` (p. N)` or ` (p. N–M)`, or
/// nothing without a page span.
pub open spec fn page_text(span: Option<(u32, u32)>) -> Seq<char> {
    match span {
        Some(sp) => if sp.0 == sp.1 {
            " (p. "@ + dec(sp.0 as nat) + ")"@
        } else {
            " (p. "@ + dec(sp.0 as nat) + "\u{2013}"@ + dec(sp.1 as nat) + ")"@
        },
        None => Seq::empty(),
    }
}

proof fn lemma_page_text(span: Option<(u32, u32)>)
    ensures
        page_suffix(
            match span {
                Some(sp) => Some(render_page_spec(sp)),
                None => None,
            },
        ) == page_text(span),
{
    reveal_strlit(" (");
    reveal_strlit(")");
    reveal_strlit("p. ");
    reveal_strlit(" (p. ");
    match span {
        Some(sp) => {
            if sp.0 == sp.1 {
                assert(" ("@ + ("p. "@ + dec(sp.0 as nat)) + ")"@ =~= " (p. "@ + dec(sp.0 as nat)
                    + ")"@);
            } else {
                assert(" ("@ + ("p. "@ + dec(sp.0 as nat) + "\u{2013}"@ + dec(sp.1 as nat)) + ")"@
                    =~= " (p. "@ + dec(sp.0 as nat) + "\u{2013}"@ + dec(sp.1 as nat) + ")"@);
            }
        },
        None => {},
    }
}

/// The labeled prefix, line by line. When the chunk has a section (a
/// non-empty heading path), the prefix always carries the line `Section: `
/// and the headings joined by ` › `, as its last line, with the page part at
/// its end; before it stands `Document: <name>` (with ` — <author>` when the
/// source has an author) when the source names the document (its title, or
/// else its file name). Without a section the prefix is the document line
/// with the page part, or nothing when the document has no name either.
pub proof fn lemma_labeled_prefix_lines(
    source: Option<SourceView>,
    heading_path: Seq<Seq<char>>,
    page_span: Option<(u32, u32)>,
)
    ensures
        ({
            let name: Option<Seq<char>> = match source {
                Some(s) => if s.title is Some {
                    s.title
                } else {
                    s.filename
                },
                None => None,
            };
            let doc_line = match name {
                Some(n) => "Document: "@ + n + match source {
                    Some(s) => match s.author {
                        Some(a) => " \u{2014} "@ + a,
                        None => Seq::<char>::empty(),
                    },
                    None => Seq::<char>::empty(),
                },
                None => Seq::<char>::empty(),
            };
            let section_line = "Section: "@ + join(heading_path, " \u{203A} "@);
            let r = context_prefix(ContextFormat::Labeled, source, heading_path, page_span);
            &&& heading_path.len() > 0 && name is Some ==> r == Some(
                doc_line + "\n"@ + section_line + page_text(page_span),
            )
            &&& heading_path.len() > 0 && name is None ==> r == Some(
                section_line + page_text(page_span),
            )
            &&& heading_path.len() == 0 && name is Some ==> r == Some(doc_line + page_text(page_span))
            &&& heading_path.len() == 0 && name is None ==> r is None
        }),
{
    lemma_page_text(page_span);
    let name = doc_name(source);
    let author = author_of(source);
    let section = section_of(heading_path);
    let page = match page_span {
        Some(sp) => Some(render_page_spec(sp)),
        None => None,
    };
    let ps = page_suffix(page);
    let nl = seq!['\n'];
    assert("\n"@ =~= nl) by {
        reveal_strlit("\n");
    }
    let lp = labeled_prefix(name, author, section, page);
    match name {
        Some(n) => {
            let d = match author {
                Some(a) => "Document: "@ + n + " \u{2014} "@ + a,
                None => "Document: "@ + n,
            };
            let d2 = "Document: "@ + n + match author {
                Some(a) => " \u{2014} "@ + a,
                None => Seq::<char>::empty(),
            };
            assert(d =~= d2);
            match section {
                Some(sec) => {
                    let sl = "Section: "@ + sec;
                    let l2 = seq![d, sl];
                    assert(seq![d].push(sl) =~= l2);
                    assert(l2.drop_last() =~= seq![d]);
                    match page {
                        Some(pg) => {
                            let l3 = l2.update(1, sl + " ("@ + pg + ")"@);
                            assert(l3.drop_last() =~= seq![d]);
                            assert(join(l3, nl) == join(seq![d], nl) + nl + l3.last());
                            assert(join(seq![d], nl) == d);
                            assert(lp =~= d + nl + sl + ps);
                        },
                        None => {
                            assert(join(l2, nl) == join(seq![d], nl) + nl + l2.last());
                            assert(join(seq![d], nl) == d);
                            assert(lp =~= d + nl + sl + ps);
                        },
                    }
                },
                None => {
                    match page {
                        Some(pg) => {
                            let l3 = seq![d].update(0, d + " ("@ + pg + ")"@);
                            assert(l3 =~= seq![d + " ("@ + pg + ")"@]);
                            assert(lp =~= d + ps);
                        },
                        None => {
                            assert(lp =~= d + ps);
                        },
                    }
                },
            }
        },
        None => {
            match section {
                Some(sec) => {
                    let sl = "Section: "@ + sec;
                    assert(Seq::<Seq<char>>::empty().push(sl) =~= seq![sl]);
                    match page {
                        Some(pg) => {
                            let l3 = seq![sl].update(0, sl + " ("@ + pg + ")"@);
                            assert(l3 =~= seq![sl + " ("@ + pg + ")"@]);
                            assert(lp =~= sl + ps);
                        },
                        None => {
                            assert(lp =~= sl + ps);
                        },
                    }
                },
                None => {},
            }
        },
    }
}

/// The prose prefix, spelled out: `This chunk is from `, then `"<name>"`
/// (with ` by <author>` when the source has an author) when the source names
/// the document, then the section in quotes (after `, section ` when a name
/// precedes it, after `section ` alone otherwise) when the heading path is
/// not empty, then the page part, then a full stop; nothing when there is
/// neither a name nor a section.
pub proof fn lemma_prose_prefix_text(
    source: Option<SourceView>,
    heading_path: Seq<Seq<char>>,
    page_span: Option<(u32, u32)>,
)
    ensures
        ({
            let name: Option<Seq<char>> = match source {
                Some(s) => if s.title is Some {
                    s.title
                } else {
                    s.filename
                },
                None => None,
            };
            let by = match source {
                Some(s) => match s.author {
                    Some(a) => " by "@ + a,
                    None => Seq::<char>::empty(),
                },
                None => Seq::<char>::empty(),
            };
            let sec = join(heading_path, " \u{203A} "@);
            let body = match name {
                Some(n) => "\""@ + n + "\""@ + by + if heading_path.len() > 0 {
                    ", section \""@ + sec + "\""@
                } else {
                    Seq::<char>::empty()
                },
                None => "section \""@ + sec + "\""@,
            };
            let r = context_prefix(ContextFormat::Prose, source, heading_path, page_span);
            &&& (name is Some || heading_path.len() > 0) ==> r == Some(
                "This chunk is from "@ + body + page_text(page_span) + "."@,
            )
            &&& (name is None && heading_path.len() == 0) ==> r is None
        }),
{
    lemma_page_text(page_span);
    let name = doc_name(source);
    let author = author_of(source);
    let section = section_of(heading_path);
    let page = match page_span {
        Some(sp) => Some(render_page_spec(sp)),
        None => None,
    };
    let sec = join(heading_path, " \u{203A} "@);
    let pp = prose_prefix(name, author, section, page);
    let head = "This chunk is from "@;
    match name {
        Some(n) => {
            let q = "\""@ + n + "\""@ + by_author(author) + quoted_section(", section "@, section);
            let q2 = "\""@ + n + "\""@ + by_author(author) + if heading_path.len() > 0 {
                ", section \""@ + sec + "\""@
            } else {
                Seq::<char>::empty()
            };
            if heading_path.len() > 0 {
                reveal_strlit(", section ");
                reveal_strlit("\"");
                reveal_strlit(", section \"");
                assert(quoted_section(", section "@, section) =~= ", section \""@ + sec + "\""@);
            }
            assert(q =~= q2);
            assert(pp =~= head + q2 + page_suffix(page) + "."@);
        },
        None => {
            if heading_path.len() > 0 {
                reveal_strlit("section ");
                reveal_strlit("\"");
                reveal_strlit("section \"");
                assert(quoted_section("section "@, section) =~= "section \""@ + sec + "\""@);
                assert(pp =~= head + ("section \""@ + sec + "\""@) + page_suffix(page) + "."@);
            }
        },
    }
}

} // verus!
