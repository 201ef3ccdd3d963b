//! Element-aware Markdown export.

use vstd::prelude::*;
use crate::element::{
    rows_view, strings_view, structure_view, Element, ElementView, StructureView,
    TableElementData,
};
use crate::text::{append_str, join, join_strings, trim, trim_string};

verus! {

/// Configuration of the Markdown export.
#[derive(Debug, Clone, Copy)]
pub struct ExportConfig {
    /// Whether header and footer elements are exported.
    pub include_headers_footers: bool,
}

impl Default for ExportConfig {
    /// Headers and footers left out.
    fn default() -> (c: ExportConfig)
        ensures
            !c.include_headers_footers,
    {
        ExportConfig { include_headers_footers: false }
    }
}

/// Exports elements to Markdown.
#[derive(Debug, Clone, Copy)]
pub struct ElementMarkdownExporter {
    pub config: ExportConfig,
}

/// A table row: `| a | b |`.
pub open spec fn row_line(cells: Seq<Seq<char>>) -> Seq<char> {
    "| "@ + join(cells, " | "@) + " |"@
}

/// `n` separator cells `---`.
pub open spec fn dashes(n: nat) -> Seq<Seq<char>> {
    Seq::new(n, |i: int| "---"@)
}

/// The lines of a table: its first row as header, a separator line with one
/// `---` per header cell, then the other rows.
pub open spec fn table_lines(header: Seq<Seq<char>>, ncols: nat, body: Seq<Seq<Seq<char>>>) -> Seq<
    Seq<char>,
> {
    seq![row_line(header), row_line(dashes(ncols))] + body.map_values(
        |r: Seq<Seq<char>>| row_line(r),
    )
}

/// GFM table of flat rows: the first row is the header; empty when there
/// are no rows.
pub open spec fn table_md(rows: Seq<Seq<Seq<char>>>) -> Seq<char> {
    if rows.len() == 0 {
        Seq::empty()
    } else {
        join(table_lines(rows[0], rows[0].len(), rows.skip(1)), seq!['\n'])
    }
}

/// The cell in column `c` of `row`, or empty when the row is shorter.
pub open spec fn cell_or_empty(row: Seq<Seq<char>>, c: int) -> Seq<char> {
    if 0 <= c < row.len() {
        row[c]
    } else {
        Seq::empty()
    }
}

/// The header texts of column `c` in `rows`, top to bottom, without empty
/// ones and without repeating the one just before.
pub open spec fn header_parts(rows: Seq<Seq<Seq<char>>>, c: int) -> Seq<Seq<char>>
    decreases rows.len(),
{
    if rows.len() == 0 {
        Seq::empty()
    } else {
        let parts = header_parts(rows.drop_last(), c);
        let cell = cell_or_empty(rows.last(), c);
        if cell.len() > 0 && (parts.len() == 0 || parts.last() != cell) {
            parts.push(cell)
        } else {
            parts
        }
    }
}

/// The flattened header of a multi-level header: for each of `ncols`
/// columns, its header parts joined by ` › `.
pub open spec fn flat_header(rows: Seq<Seq<Seq<char>>>, ncols: nat) -> Seq<Seq<char>> {
    Seq::new(ncols, |c: int| join(header_parts(rows, c), " \u{203A} "@))
}

/// GFM table of a table element. With a structure of more than one header
/// row (and at least one row), the first header rows (at most all rows)
/// collapse into one header row as `flat_header` describes, with one
/// separator per structure column, followed by the remaining rows; otherwise
/// the table of its flat rows.
pub open spec fn table_md_data(rows: Seq<Seq<Seq<char>>>, structure: Option<StructureView>) -> Seq<
    char,
> {
    match structure {
        Some(st) => if st.header_rows > 1 && rows.len() > 0 {
            let hr: int = if st.header_rows < rows.len() {
                st.header_rows as int
            } else {
                rows.len() as int
            };
            join(
                table_lines(
                    flat_header(rows.take(hr), st.num_cols as nat),
                    st.num_cols as nat,
                    rows.skip(hr),
                ),
                seq!['\n'],
            )
        } else {
            table_md(rows)
        },
        None => table_md(rows),
    }
}

/// The Markdown of one element: `# title`, the paragraph, `- item`,
/// `**key**: value`, a fenced code block, `![alt]()`, a GFM table; headers
/// and footers as their text when included, else nothing. Texts are trimmed.
pub open spec fn element_md(cfg: ExportConfig, e: ElementView) -> Option<Seq<char>> {
    match e {
        ElementView::Title(t, _) => Some("# "@ + trim(t)),
        ElementView::Paragraph(t, _) => Some(trim(t)),
        ElementView::ListItem(t, _) => Some("- "@ + trim(t)),
        ElementView::KeyValue(k, v, _) => Some("**"@ + trim(k) + "**: "@ + trim(v)),
        ElementView::CodeBlock(t, _) => Some("```\n"@ + trim(t) + "\n```"@),
        ElementView::Image(alt, _) => Some(
            "!["@ + match alt {
                Some(a) => a,
                None => Seq::empty(),
            } + "]()"@,
        ),
        ElementView::Table(rows, st, _) => Some(table_md_data(rows, st)),
        _ => if cfg.include_headers_footers {
            Some(e.display())
        } else {
            None
        },
    }
}

/// The Markdown of each element that has one, in order.
pub open spec fn md_parts(cfg: ExportConfig, es: Seq<ElementView>) -> Seq<Seq<char>>
    decreases es.len(),
{
    if es.len() == 0 {
        Seq::empty()
    } else {
        match element_md(cfg, es.last()) {
            Some(md) => md_parts(cfg, es.drop_last()).push(md),
            None => md_parts(cfg, es.drop_last()),
        }
    }
}

/// The Markdown of a document: the Markdown of its elements, separated by
/// blank lines.
pub open spec fn export_md(cfg: ExportConfig, es: Seq<ElementView>) -> Seq<char> {
    join(md_parts(cfg, es), "\n\n"@)
}

/// A table row, built.
fn row_line_text(cells: &Vec<String>) -> (s: String)
    ensures
        s@ == row_line(strings_view(cells@)),
{
    let mut s = "| ".to_owned();
    let j = join_strings(cells.as_slice(), " | ");
    append_str(&mut s, j.as_str());
    append_str(&mut s, " |");
    s
}

/// The separator line of a table of `n` columns.
fn dash_line(n: usize) -> (s: String)
    ensures
        s@ == row_line(dashes(n as nat)),
{
    let mut v: Vec<String> = Vec::new();
    for i in 0..n
        invariant
            strings_view(v@) == dashes(i as nat),
    {
        let ghost v0 = strings_view(v@);
        let d = "---".to_owned();
        let ghost dv = d@;
        v.push(d);
        assert(strings_view(v@) =~= v0.push(dv));
        assert(strings_view(v@) =~= dashes((i + 1) as nat));
    }
    row_line_text(&v)
}

/// A table: the header line, the separator line for `ncols` columns, then
/// the lines of `rows[from..]`, joined by newlines.
fn table_text(header_line: String, ncols: usize, rows: &[Vec<String>], from: usize) -> (s: String)
    requires
        from <= rows@.len(),
    ensures
        s@ == join(
            seq![header_line@, row_line(dashes(ncols as nat))] + rows_view(rows@).skip(
                from as int,
            ).map_values(|r: Seq<Seq<char>>| row_line(r)),
            seq!['\n'],
        ),
{
    let ghost body = rows_view(rows@).skip(from as int).map_values(|r: Seq<Seq<char>>| row_line(r));
    let mut lines: Vec<String> = Vec::new();
    let ghost l0 = seq![header_line@, row_line(dashes(ncols as nat))];
    lines.push(header_line);
    lines.push(dash_line(ncols));
    assert(strings_view(lines@) =~= l0 + body.take(0));
    let mut i = from;
    while i < rows.len()
        invariant
            from <= i <= rows@.len(),
            body == rows_view(rows@).skip(from as int).map_values(|r: Seq<Seq<char>>| row_line(r)),
            strings_view(lines@) == l0 + body.take(i - from),
        decreases rows@.len() - i,
    {
        let ghost v0 = strings_view(lines@);
        let line = row_line_text(&rows[i]);
        lines.push(line);
        proof {
            assert(strings_view(lines@) =~= v0.push(line@));
            assert(body[i - from] == row_line(rows_view(rows@)[i as int]));
            assert(body.take(i + 1 - from) =~= body.take(i - from).push(body[i - from]));
        }
        i += 1;
    }
    assert(body.take(rows@.len() - from) =~= body);
    let nl = "\n";
    proof {
        reveal_strlit("\n");
    }
    let r = join_strings(lines.as_slice(), nl);
    assert(nl@ =~= seq!['\n']);
    r
}

/// GFM table of flat rows, as `table_md` describes.
pub fn table_to_markdown(rows: &[Vec<String>]) -> (s: String)
    ensures
        s@ == table_md(rows_view(rows@)),
{
    if rows.len() == 0 {
        return String::new();
    }
    let header = row_line_text(&rows[0]);
    let n = rows[0].len();
    let r = table_text(header, n, rows, 1);
    assert(table_lines(rows_view(rows@)[0], rows_view(rows@)[0].len(), rows_view(rows@).skip(1))
        =~= seq![row_line(strings_view(rows@[0]@)), row_line(dashes(n as nat))] + rows_view(
        rows@,
    ).skip(1).map_values(|r: Seq<Seq<char>>| row_line(r)));
    r
}

/// The header parts of column `c` in `rows[..hr]`, as `header_parts`
/// describes.
fn header_parts_of(rows: &[Vec<String>], hr: usize, c: usize) -> (r: Vec<String>)
    requires
        hr <= rows@.len(),
    ensures
        strings_view(r@) == header_parts(rows_view(rows@).take(hr as int), c as int),
{
    let ghost rv = rows_view(rows@);
    let mut parts: Vec<String> = Vec::new();
    assert(strings_view(parts@) =~= header_parts(rv.take(0), c as int));
    for i in 0..hr
        invariant
            hr <= rows@.len(),
            rv == rows_view(rows@),
            strings_view(parts@) == header_parts(rv.take(i as int), c as int),
    {
        proof {
            assert(rv.take(i + 1).drop_last() =~= rv.take(i as int));
            assert(rv.take(i + 1).last() == rv[i as int]);
        }
        let row = &rows[i];
        let ghost cell_v = cell_or_empty(rv[i as int], c as int);
        let cell: &str = if c < row.len() {
            row[c].as_str()
        } else {
            proof {
                reveal_strlit("");
            }
            ""
        };
        assert(cell@ == cell_v);
        let is_new = if parts.len() == 0 {
            true
        } else {
            !crate::text::str_eq(parts[parts.len() - 1].as_str(), cell)
        };
        if !cell.is_empty() && is_new {
            let ghost p0 = strings_view(parts@);
            parts.push(cell.to_owned());
            assert(strings_view(parts@) =~= p0.push(cell_v));
        }
    }
    assert(rv.take(hr as int) =~= rows_view(rows@).take(hr as int));
    parts
}

/// GFM table of a table element, as `table_md_data` describes: a
/// multi-level header collapses into one header row.
pub fn table_to_markdown_data(data: &TableElementData) -> (s: String)
    ensures
        s@ == table_md_data(
            rows_view(data.rows@),
            match data.structure {
                Some(st) => Some(structure_view(st)),
                None => None,
            },
        ),
{
    match &data.structure {
        Some(st) => {
            if st.header_rows > 1 && data.rows.len() > 0 {
                let ncols = st.num_cols;
                let header_rows = if st.header_rows < data.rows.len() {
                    st.header_rows
                } else {
                    data.rows.len()
                };
                let ghost rv = rows_view(data.rows@);
                let mut header: Vec<String> = Vec::new();
                for c in 0..ncols
                    invariant
                        header_rows <= data.rows@.len(),
                        rv == rows_view(data.rows@),
                        strings_view(header@) == flat_header(rv.take(header_rows as int), ncols as nat).take(
                            c as int,
                        ),
                {
                    let parts = header_parts_of(data.rows.as_slice(), header_rows, c);
                    let sep = " \u{203A} ";
                    let h = join_strings(parts.as_slice(), sep);
                    let ghost h0 = strings_view(header@);
                    let ghost hv = h@;
                    header.push(h);
                    proof {
                        assert(strings_view(header@) =~= h0.push(hv));
                        assert(flat_header(rv.take(header_rows as int), ncols as nat).take(c + 1)
                            =~= flat_header(rv.take(header_rows as int), ncols as nat).take(
                            c as int,
                        ).push(hv));
                    }
                }
                assert(flat_header(rv.take(header_rows as int), ncols as nat).take(ncols as int)
                    =~= flat_header(rv.take(header_rows as int), ncols as nat));
                let header_line = row_line_text(&header);
                table_text(header_line, ncols, data.rows.as_slice(), header_rows)
            } else {
                table_to_markdown(data.rows.as_slice())
            }
        },
        None => table_to_markdown(data.rows.as_slice()),
    }
}

impl Default for ElementMarkdownExporter {
    /// An exporter with the default configuration.
    fn default() -> (e: ElementMarkdownExporter)
        ensures
            !e.config.include_headers_footers,
    {
        ElementMarkdownExporter { config: ExportConfig::default() }
    }
}

impl ElementMarkdownExporter {
    /// An exporter with `config`.
    pub fn new(config: ExportConfig) -> (e: ElementMarkdownExporter)
        ensures
            e.config == config,
    {
        ElementMarkdownExporter { config }
    }


    /// The Markdown of `elements`, as `export_md` describes.
    pub fn export(&self, elements: &[Element]) -> (s: String)
        ensures
            s@ == export_md(self.config, crate::element::views(elements@)),
    {
        let ghost ev = crate::element::views(elements@);
        if elements.len() == 0 {
            assert(md_parts(self.config, ev) =~= Seq::<Seq<char>>::empty());
            return String::new();
        }
        let mut parts: Vec<String> = Vec::new();
        assert(strings_view(parts@) =~= md_parts(self.config, ev.take(0)));
        for i in 0..elements.len()
            invariant
                ev == crate::element::views(elements@),
                strings_view(parts@) == md_parts(self.config, ev.take(i as int)),
        {
            proof {
                assert(ev.take(i + 1).drop_last() =~= ev.take(i as int));
                assert(ev.take(i + 1).last() == ev[i as int]);
            }
            match self.element_to_markdown(&elements[i]) {
                Some(md) => {
                    let ghost p0 = strings_view(parts@);
                    let ghost mv = md@;
                    parts.push(md);
                    assert(strings_view(parts@) =~= p0.push(mv));
                },
                None => {},
            }
        }
        assert(ev.take(elements.len() as int) =~= ev);
        join_strings(parts.as_slice(), "\n\n")
    }

    /// The Markdown of one element, as `element_md` describes.
    fn element_to_markdown(&self, element: &Element) -> (r: Option<String>)
        ensures
            crate::element::opt_view(r) == element_md(self.config, element.view()),
    {
        match element {
            Element::Title(d) => {
                let mut s = "# ".to_owned();
                let t = trim_string(d.text.as_str());
                append_str(&mut s, t.as_str());
                Some(s)
            },
            Element::Paragraph(d) => Some(trim_string(d.text.as_str())),
            Element::ListItem(d) => {
                let mut s = "- ".to_owned();
                let t = trim_string(d.text.as_str());
                append_str(&mut s, t.as_str());
                Some(s)
            },
            Element::KeyValue(kv) => {
                let mut s = "**".to_owned();
                let k = trim_string(kv.key.as_str());
                append_str(&mut s, k.as_str());
                append_str(&mut s, "**: ");
                let v = trim_string(kv.value.as_str());
                append_str(&mut s, v.as_str());
                Some(s)
            },
            Element::CodeBlock(d) => {
                let mut s = "```\n".to_owned();
                let t = trim_string(d.text.as_str());
                append_str(&mut s, t.as_str());
                append_str(&mut s, "\n```");
                Some(s)
            },
            Element::Image(img) => {
                let mut s = "![".to_owned();
                match &img.alt_text {
                    Some(a) => append_str(&mut s, a.as_str()),
                    None => {},
                }
                append_str(&mut s, "]()");
                Some(s)
            },
            Element::Table(t) => Some(table_to_markdown_data(t)),
            Element::Header(_) | Element::Footer(_) => {
                if self.config.include_headers_footers {
                    Some(element.display_text())
                } else {
                    None
                }
            },
        }
    }
}

/// A table without structure, or whose structure has at most one header
/// row, renders exactly as its flat rows do.
pub proof fn lemma_single_header_unchanged(rows: Seq<Seq<Seq<char>>>, structure: Option<StructureView>)
    requires
        structure matches Some(st) ==> st.header_rows <= 1,
    ensures
        table_md_data(rows, structure) == table_md(rows),
{
}

/// The parts of a flattened header column are never empty and never repeat
/// the part just before, so a merged cell repeated across header rows shows
/// once.
pub proof fn lemma_header_parts_distinct_neighbours(rows: Seq<Seq<Seq<char>>>, c: int)
    ensures
        forall|i: int| 0 <= i < header_parts(rows, c).len() ==> (#[trigger] header_parts(rows, c)[i]).len() > 0,
        forall|i: int|
            0 <= i < header_parts(rows, c).len() - 1 ==> #[trigger] header_parts(rows, c)[i]
                != header_parts(rows, c)[i + 1],
    decreases rows.len(),
{
    if rows.len() > 0 {
        lemma_header_parts_distinct_neighbours(rows.drop_last(), c);
        let p0 = header_parts(rows.drop_last(), c);
        let p = header_parts(rows, c);
        assert forall|i: int| 0 <= i < p.len() implies (#[trigger] p[i]).len() > 0 by {
            if i < p0.len() {
                assert(p[i] == p0[i]);
            }
        }
        assert forall|i: int| 0 <= i < p.len() - 1 implies #[trigger] p[i] != p[i + 1] by {
            if i + 1 < p0.len() {
                assert(p[i] == p0[i]);
                assert(p[i + 1] == p0[i + 1]);
            } else {
                assert(p[i] == p0[i]);
                assert(p0[i] == p0.last());
            }
        }
    }
}

/// How each kind of element is marked up, spelled out: a title as a level-1
/// heading `# `, a list item as a bullet `- `, a key-value pair with its key
/// in bold followed by `: ` and the value, a code block fenced by three
/// backticks on lines of their own, a paragraph as its text, all trimmed;
/// an image as `![alt]()`; headers and footers only when the configuration
/// includes them, then as their text.
pub proof fn lemma_element_markup(cfg: ExportConfig, e: ElementView)
    ensures
        e matches ElementView::Title(t, _) ==> element_md(cfg, e) == Some(seq!['#', ' '] + trim(t)),
        e matches ElementView::ListItem(t, _) ==> element_md(cfg, e) == Some(seq!['-', ' '] + trim(t)),
        e matches ElementView::Paragraph(t, _) ==> element_md(cfg, e) == Some(trim(t)),
        e matches ElementView::KeyValue(k, v, _) ==> element_md(cfg, e) == Some(
            seq!['*', '*'] + trim(k) + seq!['*', '*', ':', ' '] + trim(v),
        ),
        e matches ElementView::CodeBlock(t, _) ==> element_md(cfg, e) == Some(
            seq!['`', '`', '`', '\n'] + trim(t) + seq!['\n', '`', '`', '`'],
        ),
        e matches ElementView::Image(alt, _) ==> element_md(cfg, e) == Some(
            seq!['!', '['] + match alt {
                Some(a) => a,
                None => Seq::<char>::empty(),
            } + seq![']', '(', ')'],
        ),
        (e is Header || e is Footer) ==> (element_md(cfg, e) is Some <==> cfg.include_headers_footers),
        (e is Header || e is Footer) && cfg.include_headers_footers ==> element_md(cfg, e) == Some(
            e.text(),
        ),
{
    reveal_strlit("# ");
    reveal_strlit("- ");
    reveal_strlit("**");
    reveal_strlit("**: ");
    reveal_strlit("```\n");
    reveal_strlit("\n```");
    reveal_strlit("![");
    reveal_strlit("]()");
    assert("# "@ =~= seq!['#', ' ']);
    assert("- "@ =~= seq!['-', ' ']);
    assert("**"@ =~= seq!['*', '*']);
    assert("**: "@ =~= seq!['*', '*', ':', ' ']);
    assert("```\n"@ =~= seq!['`', '`', '`', '\n']);
    assert("\n```"@ =~= seq!['\n', '`', '`', '`']);
    assert("!["@ =~= seq!['!', '[']);
    assert("]()"@ =~= seq![']', '(', ')']);
}

} // verus!
