//! Document elements: the typed blocks of text that the partitioner yields
//! and the chunkers and the exporter consume.

use vstd::prelude::*;
use crate::objects::copy_string;
use crate::text::{chars_of, extend_chars, join, join_chars, string_of};

verus! {

/// Metadata shared by every element: page, heading context, breadcrumb.
/// (Bounding boxes are not represented.)
#[derive(Debug, Clone, PartialEq)]
pub struct ElementMetadata {
    /// Page number.
    pub page: u32,
    /// The nearest heading above the element.
    pub parent_heading: Option<String>,
    /// The breadcrumb of headings from the top of the document down to the
    /// element's section.
    pub heading_path: Vec<String>,
}

/// The value of element metadata.
pub struct MetadataView {
    pub page: u32,
    pub parent_heading: Option<Seq<char>>,
    pub heading_path: Seq<Seq<char>>,
}

/// The characters of an optional string.
pub open spec fn opt_view(s: Option<String>) -> Option<Seq<char>> {
    match s {
        Some(x) => Some(x@),
        None => None,
    }
}

/// The characters of each string.
pub open spec fn strings_view(v: Seq<String>) -> Seq<Seq<char>> {
    v.map_values(|s: String| s@)
}

impl Default for ElementMetadata {
    /// Metadata for page 0 with no heading context.
    fn default() -> (m: ElementMetadata)
        ensures
            m.page == 0,
            m.parent_heading is None,
            m.heading_path@.len() == 0,
    {
        ElementMetadata { page: 0, parent_heading: None, heading_path: Vec::new() }
    }
}

impl ElementMetadata {
    /// The value of the metadata.
    pub open spec fn view(&self) -> MetadataView {
        MetadataView {
            page: self.page,
            parent_heading: opt_view(self.parent_heading),
            heading_path: strings_view(self.heading_path@),
        }
    }


    /// A copy with the same value.
    pub fn copy(&self) -> (r: ElementMetadata)
        ensures
            r.view() == self.view(),
    {
        ElementMetadata {
            page: self.page,
            parent_heading: copy_opt_string(&self.parent_heading),
            heading_path: copy_strings(&self.heading_path),
        }
    }
}

/// A copy of an optional string.
pub fn copy_opt_string(s: &Option<String>) -> (r: Option<String>)
    ensures
        r == *s,
{
    match s {
        Some(x) => Some(copy_string(x)),
        None => None,
    }
}

/// A copy of a list of strings.
pub fn copy_strings(v: &Vec<String>) -> (r: Vec<String>)
    ensures
        r@ == v@,
{
    let mut r: Vec<String> = Vec::new();
    for i in 0..v.len()
        invariant
            r@ == v@.take(i as int),
    {
        r.push(copy_string(&v[i]));
        assert(v@.take(i + 1) =~= v@.take(i as int).push(v@[i as int]));
    }
    assert(v@.take(v.len() as int) =~= v@);
    r
}

/// A copy of a table's rows.
pub fn copy_rows(rows: &Vec<Vec<String>>) -> (r: Vec<Vec<String>>)
    ensures
        rows_view(r@) == rows_view(rows@),
{
    let mut r: Vec<Vec<String>> = Vec::new();
    for i in 0..rows.len()
        invariant
            rows_view(r@) == rows_view(rows@).take(i as int),
    {
        let ghost r0 = r@;
        let row = copy_strings(&rows[i]);
        r.push(row);
        proof {
            assert(r@ =~= r0.push(row));
            assert(rows_view(r@) =~= rows_view(r0).push(strings_view(row@)));
            assert(rows_view(rows@).take(i + 1) =~= rows_view(rows@).take(i as int).push(
                rows_view(rows@)[i as int],
            ));
        }
    }
    assert(rows_view(rows@).take(rows.len() as int) =~= rows_view(rows@));
    r
}

/// The text and metadata of a text-like element.
#[derive(Debug, Clone, PartialEq)]
pub struct ElementData {
    pub text: String,
    pub metadata: ElementMetadata,
}

/// A key-value pair (a form field).
#[derive(Debug, Clone, PartialEq)]
pub struct KeyValueElementData {
    pub key: String,
    pub value: String,
    pub metadata: ElementMetadata,
}

/// An image, with its alternative text if any.
#[derive(Debug, Clone, PartialEq)]
pub struct ImageElementData {
    pub alt_text: Option<String>,
    pub metadata: ElementMetadata,
}

/// One cell of a table's structure: its position, spans and text.
#[derive(Debug, Clone, PartialEq)]
pub struct RichCell {
    pub row: usize,
    pub col: usize,
    pub row_span: usize,
    pub col_span: usize,
    pub text: String,
    pub is_header: bool,
}

/// The structure of a table: dimensions, number of header rows, cells.
#[derive(Debug, Clone, PartialEq)]
pub struct TableStructure {
    pub num_rows: usize,
    pub num_cols: usize,
    pub header_rows: usize,
    pub cells: Vec<RichCell>,
}

/// A table: its flat rows of cell texts and, when known, its structure.
#[derive(Debug, Clone, PartialEq)]
pub struct TableElementData {
    pub rows: Vec<Vec<String>>,
    pub structure: Option<TableStructure>,
    pub metadata: ElementMetadata,
}

/// The value of a table cell.
pub struct CellView {
    pub row: usize,
    pub col: usize,
    pub row_span: usize,
    pub col_span: usize,
    pub text: Seq<char>,
    pub is_header: bool,
}

/// The value of a table structure.
pub struct StructureView {
    pub num_rows: usize,
    pub num_cols: usize,
    pub header_rows: usize,
    pub cells: Seq<CellView>,
}

/// The value of a table cell.
pub open spec fn cell_view(c: RichCell) -> CellView {
    CellView {
        row: c.row,
        col: c.col,
        row_span: c.row_span,
        col_span: c.col_span,
        text: c.text@,
        is_header: c.is_header,
    }
}

/// The value of a table structure.
pub open spec fn structure_view(s: TableStructure) -> StructureView {
    StructureView {
        num_rows: s.num_rows,
        num_cols: s.num_cols,
        header_rows: s.header_rows,
        cells: s.cells@.map_values(|c: RichCell| cell_view(c)),
    }
}

/// The cell texts of each row.
pub open spec fn rows_view(rows: Seq<Vec<String>>) -> Seq<Seq<Seq<char>>> {
    rows.map_values(|r: Vec<String>| strings_view(r@))
}

/// A typed document element.
#[derive(Debug, Clone, PartialEq)]
pub enum Element {
    Title(ElementData),
    Paragraph(ElementData),
    Table(TableElementData),
    Header(ElementData),
    Footer(ElementData),
    ListItem(ElementData),
    Image(ImageElementData),
    CodeBlock(ElementData),
    KeyValue(KeyValueElementData),
}

/// The value of an element.
pub enum ElementView {
    Title(Seq<char>, MetadataView),
    Paragraph(Seq<char>, MetadataView),
    Table(Seq<Seq<Seq<char>>>, Option<StructureView>, MetadataView),
    Header(Seq<char>, MetadataView),
    Footer(Seq<char>, MetadataView),
    ListItem(Seq<char>, MetadataView),
    Image(Option<Seq<char>>, MetadataView),
    CodeBlock(Seq<char>, MetadataView),
    KeyValue(Seq<char>, Seq<char>, MetadataView),
}

/// `": "`
pub open spec fn colon_space() -> Seq<char> {
    seq![':', ' ']
}

/// `" | "`
pub open spec fn pipe_sep() -> Seq<char> {
    seq![' ', '|', ' ']
}

impl ElementView {
    /// The metadata of the element.
    pub open spec fn meta(self) -> MetadataView {
        match self {
            ElementView::Title(_, m) => m,
            ElementView::Paragraph(_, m) => m,
            ElementView::Table(_, _, m) => m,
            ElementView::Header(_, m) => m,
            ElementView::Footer(_, m) => m,
            ElementView::ListItem(_, m) => m,
            ElementView::Image(_, m) => m,
            ElementView::CodeBlock(_, m) => m,
            ElementView::KeyValue(_, _, m) => m,
        }
    }

    /// The element's own text: the text of a text-like element, the key of
    /// a key-value pair, the alternative text of an image, nothing for a
    /// table.
    pub open spec fn text(self) -> Seq<char> {
        match self {
            ElementView::Title(t, _) => t,
            ElementView::Paragraph(t, _) => t,
            ElementView::Table(_, _, _) => Seq::empty(),
            ElementView::Header(t, _) => t,
            ElementView::Footer(t, _) => t,
            ElementView::ListItem(t, _) => t,
            ElementView::Image(alt, _) => match alt {
                Some(a) => a,
                None => Seq::empty(),
            },
            ElementView::CodeBlock(t, _) => t,
            ElementView::KeyValue(k, _, _) => k,
        }
    }

    /// The text shown for the element: `key: value` for a key-value pair,
    /// the rows (cells joined by ` | `) joined by newlines for a table, the
    /// element's own text otherwise.
    pub open spec fn display(self) -> Seq<char> {
        match self {
            ElementView::Table(rows, _, _) => join(rows.map_values(|r: Seq<Seq<char>>| join(r, pipe_sep())), seq!['\n']),
            ElementView::KeyValue(k, v, _) => k + colon_space() + v,
            _ => self.text(),
        }
    }
}

impl Element {
    /// The value of the element.
    pub open spec fn view(&self) -> ElementView {
        match self {
            Element::Title(d) => ElementView::Title(d.text@, d.metadata.view()),
            Element::Paragraph(d) => ElementView::Paragraph(d.text@, d.metadata.view()),
            Element::Table(t) => ElementView::Table(
                rows_view(t.rows@),
                match t.structure {
                    Some(s) => Some(structure_view(s)),
                    None => None,
                },
                t.metadata.view(),
            ),
            Element::Header(d) => ElementView::Header(d.text@, d.metadata.view()),
            Element::Footer(d) => ElementView::Footer(d.text@, d.metadata.view()),
            Element::ListItem(d) => ElementView::ListItem(d.text@, d.metadata.view()),
            Element::Image(i) => ElementView::Image(opt_view(i.alt_text), i.metadata.view()),
            Element::CodeBlock(d) => ElementView::CodeBlock(d.text@, d.metadata.view()),
            Element::KeyValue(kv) => ElementView::KeyValue(kv.key@, kv.value@, kv.metadata.view()),
        }
    }

    /// The element's metadata.
    pub fn metadata(&self) -> (m: &ElementMetadata)
        ensures
            m.view() == self.view().meta(),
    {
        match self {
            Element::Title(d) => &d.metadata,
            Element::Paragraph(d) => &d.metadata,
            Element::Table(t) => &t.metadata,
            Element::Header(d) => &d.metadata,
            Element::Footer(d) => &d.metadata,
            Element::ListItem(d) => &d.metadata,
            Element::Image(i) => &i.metadata,
            Element::CodeBlock(d) => &d.metadata,
            Element::KeyValue(kv) => &kv.metadata,
        }
    }

    /// The page the element is on.
    pub fn page(&self) -> (p: u32)
        ensures
            p == self.view().meta().page,
    {
        self.metadata().page
    }

    /// The element's own text.
    pub fn text(&self) -> (t: &str)
        ensures
            t@ == self.view().text(),
    {
        match self {
            Element::Title(d) => d.text.as_str(),
            Element::Paragraph(d) => d.text.as_str(),
            Element::Table(_) => {
                proof {
                    reveal_strlit("");
                }
                ""
            },
            Element::Header(d) => d.text.as_str(),
            Element::Footer(d) => d.text.as_str(),
            Element::ListItem(d) => d.text.as_str(),
            Element::Image(i) => match &i.alt_text {
                Some(a) => a.as_str(),
                None => {
                    proof {
                        reveal_strlit("");
                    }
                    ""
                },
            },
            Element::CodeBlock(d) => d.text.as_str(),
            Element::KeyValue(kv) => kv.key.as_str(),
        }
    }

    /// The characters of the text shown for the element.
    pub fn display_chars(&self) -> (r: Vec<char>)
        ensures
            r@ == self.view().display(),
    {
        match self {
            Element::Table(t) => {
                let mut lines: Vec<Vec<char>> = Vec::new();
                let sep = vec![' ', '|', ' '];
                for i in 0..t.rows.len()
                    invariant
                        sep@ == pipe_sep(),
                        lines@.map_values(|l: Vec<char>| l@) == rows_view(t.rows@).take(i as int).map_values(
                            |r: Seq<Seq<char>>| join(r, pipe_sep()),
                        ),
                {
                    let mut cells: Vec<Vec<char>> = Vec::new();
                    let row = &t.rows[i];
                    for j in 0..row.len()
                        invariant
                            cells@.map_values(|c: Vec<char>| c@) == strings_view(row@).take(j as int),
                    {
                        let ghost c0 = cells@.map_values(|c: Vec<char>| c@);
                        cells.push(chars_of(row[j].as_str()));
                        proof {
                            assert(cells@.map_values(|c: Vec<char>| c@) =~= c0.push(row@[j as int]@));
                            assert(strings_view(row@).take(j + 1) =~= strings_view(row@).take(j as int).push(row@[j as int]@));
                        }
                    }
                    assert(strings_view(row@).take(row.len() as int) =~= strings_view(row@));
                    let line = join_chars(&cells, sep.as_slice());
                    let ghost l0 = lines@.map_values(|l: Vec<char>| l@);
                    lines.push(line);
                    proof {
                        assert(cells@.map_values(|c: Vec<char>| c@) =~= strings_view(row@));
                        assert(lines@.map_values(|l: Vec<char>| l@) =~= l0.push(join(strings_view(row@), pipe_sep())));
                        assert(rows_view(t.rows@)[i as int] == strings_view(row@));
                        assert(rows_view(t.rows@).take(i + 1) =~= rows_view(t.rows@).take(i as int).push(rows_view(t.rows@)[i as int]));
                        assert(rows_view(t.rows@).take(i + 1).map_values(|r: Seq<Seq<char>>| join(r, pipe_sep()))
                            =~= rows_view(t.rows@).take(i as int).map_values(|r: Seq<Seq<char>>| join(r, pipe_sep())).push(join(strings_view(row@), pipe_sep())));
                    }
                }
                assert(rows_view(t.rows@).take(t.rows.len() as int) =~= rows_view(t.rows@));
                let nl = vec!['\n'];
                let r = join_chars(&lines, nl.as_slice());
                assert(nl@ =~= seq!['\n']);
                r
            },
            Element::KeyValue(kv) => {
                let mut r = chars_of(kv.key.as_str());
                r.push(':');
                r.push(' ');
                let v = chars_of(kv.value.as_str());
                extend_chars(&mut r, v.as_slice());
                assert(r@ =~= kv.key@ + colon_space() + kv.value@);
                r
            },
            _ => chars_of(self.text()),
        }
    }

    /// The text shown for the element.
    pub fn display_text(&self) -> (s: String)
        ensures
            s@ == self.view().display(),
    {
        let c = self.display_chars();
        string_of(c.as_slice())
    }
}

impl RichCell {
    /// A copy of the cell.
    pub fn copy(&self) -> (r: RichCell)
        ensures
            cell_view(r) == cell_view(*self),
    {
        RichCell {
            row: self.row,
            col: self.col,
            row_span: self.row_span,
            col_span: self.col_span,
            text: copy_string(&self.text),
            is_header: self.is_header,
        }
    }
}

impl TableStructure {
    /// A copy of the structure.
    pub fn copy(&self) -> (r: TableStructure)
        ensures
            structure_view(r) == structure_view(*self),
    {
        let mut cells: Vec<RichCell> = Vec::new();
        for i in 0..self.cells.len()
            invariant
                cells@.map_values(|c: RichCell| cell_view(c)) == self.cells@.map_values(
                    |c: RichCell| cell_view(c),
                ).take(i as int),
        {
            let ghost c0 = cells@;
            let c = self.cells[i].copy();
            cells.push(c);
            proof {
                assert(cells@ =~= c0.push(c));
                assert(cells@.map_values(|c: RichCell| cell_view(c)) =~= c0.map_values(
                    |c: RichCell| cell_view(c),
                ).push(cell_view(c)));
                assert(self.cells@.map_values(|c: RichCell| cell_view(c)).take(i + 1)
                    =~= self.cells@.map_values(|c: RichCell| cell_view(c)).take(i as int).push(
                    cell_view(self.cells@[i as int]),
                ));
            }
        }
        assert(self.cells@.map_values(|c: RichCell| cell_view(c)).take(self.cells.len() as int)
            =~= self.cells@.map_values(|c: RichCell| cell_view(c)));
        let r = TableStructure {
            num_rows: self.num_rows,
            num_cols: self.num_cols,
            header_rows: self.header_rows,
            cells,
        };
        assert(structure_view(r).cells =~= structure_view(*self).cells);
        r
    }
}

impl ElementData {
    /// A copy of the text and metadata.
    pub fn copy(&self) -> (r: ElementData)
        ensures
            r.text@ == self.text@,
            r.metadata.view() == self.metadata.view(),
    {
        ElementData { text: copy_string(&self.text), metadata: self.metadata.copy() }
    }
}

impl Element {
    /// A copy of the element, with the same value.
    pub fn copy(&self) -> (r: Element)
        ensures
            r.view() == self.view(),
    {
        match self {
            Element::Title(d) => Element::Title(d.copy()),
            Element::Paragraph(d) => Element::Paragraph(d.copy()),
            Element::Table(t) => {
                let structure = match &t.structure {
                    Some(s) => Some(s.copy()),
                    None => None,
                };
                Element::Table(
                    TableElementData {
                        rows: copy_rows(&t.rows),
                        structure,
                        metadata: t.metadata.copy(),
                    },
                )
            },
            Element::Header(d) => Element::Header(d.copy()),
            Element::Footer(d) => Element::Footer(d.copy()),
            Element::ListItem(d) => Element::ListItem(d.copy()),
            Element::Image(i) => Element::Image(
                ImageElementData {
                    alt_text: copy_opt_string(&i.alt_text),
                    metadata: i.metadata.copy(),
                },
            ),
            Element::CodeBlock(d) => Element::CodeBlock(d.copy()),
            Element::KeyValue(kv) => Element::KeyValue(
                KeyValueElementData {
                    key: copy_string(&kv.key),
                    value: copy_string(&kv.value),
                    metadata: kv.metadata.copy(),
                },
            ),
        }
    }
}

/// The values of a list of elements.
pub open spec fn views(es: Seq<Element>) -> Seq<ElementView> {
    es.map_values(|e: Element| e.view())
}

/// The displayed text of each element.
pub open spec fn displays(es: Seq<ElementView>) -> Seq<Seq<char>> {
    es.map_values(|e: ElementView| e.display())
}

/// Adding an element adds its displayed text.
pub proof fn lemma_displays_push(es: Seq<ElementView>, e: ElementView)
    ensures
        displays(es.push(e)) == displays(es).push(e.display()),
{
    assert(displays(es.push(e)) =~= displays(es).push(e.display()));
}

/// The displayed texts of `elements`, joined with `sep`.
pub fn join_displays(elements: &[Element], sep: &[char]) -> (r: Vec<char>)
    ensures
        r@ == join(displays(views(elements@)), sep@),
{
    let mut parts: Vec<Vec<char>> = Vec::new();
    for i in 0..elements.len()
        invariant
            parts@.map_values(|p: Vec<char>| p@) == displays(views(elements@)).take(i as int),
    {
        let ghost p0 = parts@;
        let d = elements[i].display_chars();
        parts.push(d);
        proof {
            assert(parts@ =~= p0.push(d));
            assert(parts@.map_values(|p: Vec<char>| p@) =~= p0.map_values(|p: Vec<char>| p@).push(
                d@,
            ));
            assert(displays(views(elements@)).take(i + 1) =~= displays(views(elements@)).take(
                i as int,
            ).push(elements@[i as int].view().display()));
        }
    }
    assert(displays(views(elements@)).take(elements.len() as int) =~= displays(views(elements@)));
    join_chars(&parts, sep)
}

impl ElementView {
    /// The element with metadata `m` in place of its own.
    pub open spec fn with_meta(self, m: MetadataView) -> ElementView {
        match self {
            ElementView::Title(t, _) => ElementView::Title(t, m),
            ElementView::Paragraph(t, _) => ElementView::Paragraph(t, m),
            ElementView::Table(r, s, _) => ElementView::Table(r, s, m),
            ElementView::Header(t, _) => ElementView::Header(t, m),
            ElementView::Footer(t, _) => ElementView::Footer(t, m),
            ElementView::ListItem(t, _) => ElementView::ListItem(t, m),
            ElementView::Image(a, _) => ElementView::Image(a, m),
            ElementView::CodeBlock(t, _) => ElementView::CodeBlock(t, m),
            ElementView::KeyValue(k, v, _) => ElementView::KeyValue(k, v, m),
        }
    }

    /// The element's type name: `title`, `paragraph`, `table`, `header`,
    /// `footer`, `list_item`, `image`, `code_block` or `key_value`.
    pub open spec fn type_label(self) -> Seq<char> {
        match self {
            ElementView::Title(_, _) => "title"@,
            ElementView::Paragraph(_, _) => "paragraph"@,
            ElementView::Table(_, _, _) => "table"@,
            ElementView::Header(_, _) => "header"@,
            ElementView::Footer(_, _) => "footer"@,
            ElementView::ListItem(_, _) => "list_item"@,
            ElementView::Image(_, _) => "image"@,
            ElementView::CodeBlock(_, _) => "code_block"@,
            ElementView::KeyValue(_, _, _) => "key_value"@,
        }
    }
}

impl Element {
    /// The element's metadata, for changing in place.
    pub fn metadata_mut(&mut self) -> (m: &mut ElementMetadata)
        ensures
            m.view() == old(self).view().meta(),
            final(self).view() == old(self).view().with_meta(final(m).view()),
    {
        match self {
            Element::Title(d) => &mut d.metadata,
            Element::Paragraph(d) => &mut d.metadata,
            Element::Table(t) => &mut t.metadata,
            Element::Header(d) => &mut d.metadata,
            Element::Footer(d) => &mut d.metadata,
            Element::ListItem(d) => &mut d.metadata,
            Element::Image(i) => &mut i.metadata,
            Element::CodeBlock(d) => &mut d.metadata,
            Element::KeyValue(kv) => &mut kv.metadata,
        }
    }

    /// Sets the heading the element sits under.
    pub fn set_parent_heading(&mut self, heading: Option<String>)
        ensures
            final(self).view() == old(self).view().with_meta(
                MetadataView { parent_heading: opt_view(heading), ..old(self).view().meta() },
            ),
    {
        let m = self.metadata_mut();
        m.parent_heading = heading;
    }

    /// Sets the breadcrumb of headings above the element.
    pub fn set_heading_path(&mut self, path: Vec<String>)
        ensures
            final(self).view() == old(self).view().with_meta(
                MetadataView { heading_path: strings_view(path@), ..old(self).view().meta() },
            ),
    {
        let m = self.metadata_mut();
        m.heading_path = path;
    }

    /// The element's type name.
    pub fn type_label(&self) -> (s: &'static str)
        ensures
            s@ == self.view().type_label(),
    {
        match self {
            Element::Title(_) => "title",
            Element::Paragraph(_) => "paragraph",
            Element::Table(_) => "table",
            Element::Header(_) => "header",
            Element::Footer(_) => "footer",
            Element::ListItem(_) => "list_item",
            Element::Image(_) => "image",
            Element::CodeBlock(_) => "code_block",
            Element::KeyValue(_) => "key_value",
        }
    }
}

/// Whether `pages` is strictly increasing.
pub open spec fn strictly_increasing(pages: Seq<u32>) -> bool {
    forall|i: int, j: int| 0 <= i < j < pages.len() ==> pages[i] < pages[j]
}

/// Whether `p` is the page of one of `es`.
pub open spec fn has_page(es: Seq<ElementView>, p: u32) -> bool {
    exists|i: int| 0 <= i < es.len() && (#[trigger] es[i]).meta().page == p
}

/// Inserts `p` into the strictly increasing `pages`, keeping it so.
#[verifier::spinoff_prover]
pub fn insert_page(pages: &mut Vec<u32>, p: u32)
    requires
        strictly_increasing(old(pages)@),
    ensures
        strictly_increasing(final(pages)@),
        forall|x: u32| final(pages)@.contains(x) <==> (old(pages)@.contains(x) || x == p),
{
    let n = pages.len();
    let mut i: usize = 0;
    while i < n && pages[i] < p
        invariant
            pages@ == old(pages)@,
            strictly_increasing(pages@),
            n == pages@.len(),
            i <= n,
            forall|k: int| 0 <= k < i ==> pages@[k] < p,
        decreases n - i,
    {
        i += 1;
    }
    if i < n && pages[i] == p {
        assert(pages@.contains(p)) by {
            assert(pages@[i as int] == p);
        }
        return;
    }
    let ghost old_pages = pages@;
    pages.insert(i, p);
    proof {
        lemma_insert_contains(old_pages, i as int, p);
        assert forall|a: int, b: int| 0 <= a < b < pages@.len() implies pages@[a] < pages@[b] by {
            if b < i {
            } else if b == i {
                assert(pages@[a] == old_pages[a]);
            } else if a < i {
                assert(pages@[b] == old_pages[b - 1]);
                if a < i {
                    assert(pages@[a] == old_pages[a]);
                }
                assert(old_pages[i as int] > p);
                if b - 1 > i {
                    assert(old_pages[i as int] < old_pages[b - 1]);
                }
            } else if a == i {
                assert(pages@[b] == old_pages[b - 1]);
                assert(old_pages[i as int] > p);
                if b - 1 > i {
                    assert(old_pages[i as int] < old_pages[b - 1]);
                }
            } else {
                assert(pages@[a] == old_pages[a - 1]);
                assert(pages@[b] == old_pages[b - 1]);
            }
        }
    }
}

/// Inserting `p` adds exactly `p` to what a sequence contains.
proof fn lemma_insert_contains(s: Seq<u32>, i: int, p: u32)
    requires
        0 <= i <= s.len(),
    ensures
        forall|x: u32| s.insert(i, p).contains(x) <==> (s.contains(x) || x == p),
{
    let t = s.insert(i, p);
    assert forall|x: u32| t.contains(x) <==> (s.contains(x) || x == p) by {
        if s.contains(x) {
            let k = choose|k: int| 0 <= k < s.len() && s[k] == x;
            if k < i {
                assert(t[k] == x);
            } else {
                assert(t[k + 1] == x);
            }
        }
        if x == p {
            assert(t[i] == p);
        }
        if t.contains(x) {
            let k = choose|k: int| 0 <= k < t.len() && t[k] == x;
            if k < i {
                assert(s[k] == x);
            } else if k > i {
                assert(s[k - 1] == x);
            }
        }
    }
}

/// The pages of `elements`, in increasing order, each once.
pub fn sorted_pages(elements: &[Element]) -> (r: Vec<u32>)
    ensures
        strictly_increasing(r@),
        forall|p: u32| r@.contains(p) <==> has_page(views(elements@), p),
{
    let mut pages: Vec<u32> = Vec::new();
    let ghost es = views(elements@);
    for i in 0..elements.len()
        invariant
            es == views(elements@),
            strictly_increasing(pages@),
            forall|p: u32| pages@.contains(p) <==> has_page(es.take(i as int), p),
    {
        let p = elements[i].page();
        insert_page(&mut pages, p);
        proof {
            assert forall|q: u32| pages@.contains(q) <==> has_page(es.take(i + 1), q) by {
                if has_page(es.take(i + 1), q) {
                    let k = choose|k: int| 0 <= k < i + 1 && (#[trigger] es.take(i + 1)[k]).meta().page == q;
                    if k < i {
                        assert(es.take(i as int)[k] == es.take(i + 1)[k]);
                    }
                }
                if has_page(es.take(i as int), q) {
                    let k = choose|k: int| 0 <= k < i && (#[trigger] es.take(i as int)[k]).meta().page == q;
                    assert(es.take(i + 1)[k] == es.take(i as int)[k]);
                }
                if q == p {
                    assert(es.take(i + 1)[i as int] == es[i as int]);
                }
            }
        }
    }
    assert(es.take(elements.len() as int) =~= es);
    pages
}

/// Whether `cell` covers position `(r, c)` of an `nr` × `nc` grid.
pub open spec fn covers(cell: CellView, r: int, c: int, nr: nat, nc: nat) -> bool {
    &&& cell.row <= r
    &&& r < cell.row + cell.row_span
    &&& r < nr
    &&& cell.col <= c
    &&& c < cell.col + cell.col_span
    &&& c < nc
}

/// The text at position `(r, c)`: that of the last of `cells` covering it,
/// or empty when none does.
pub open spec fn cell_at(cells: Seq<CellView>, r: int, c: int, nr: nat, nc: nat) -> Seq<char>
    decreases cells.len(),
{
    if cells.len() == 0 {
        Seq::empty()
    } else if covers(cells.last(), r, c, nr, nc) {
        cells.last().text
    } else {
        cell_at(cells.drop_last(), r, c, nr, nc)
    }
}

/// Whether `rows` is the `nr` × `nc` grid of `cells`.
pub open spec fn is_grid_of(rows: Seq<Seq<Seq<char>>>, cells: Seq<CellView>, nr: nat, nc: nat) -> bool {
    &&& rows.len() == nr
    &&& forall|r: int| 0 <= r < nr ==> (#[trigger] rows[r]).len() == nc
    &&& forall|r: int, c: int| 0 <= r < nr && 0 <= c < nc ==> #[trigger] rows[r][c] == cell_at(cells, r, c, nr, nc)
}

/// The end of a span from `start` of length `len`, clipped to `limit`.
fn span_end(start: usize, len: usize, limit: usize) -> (e: usize)
    ensures
        e as int == if start + len < limit { start + len } else { limit as int },
{
    if start >= limit || len >= limit - start {
        limit
    } else {
        start + len
    }
}

impl TableElementData {
    /// A table of flat rows, without structure.
    pub fn new(rows: Vec<Vec<String>>, metadata: ElementMetadata) -> (t: TableElementData)
        ensures
            t.rows@ == rows@,
            t.structure is None,
            t.metadata.view() == metadata.view(),
    {
        TableElementData { rows, structure: None, metadata }
    }

    /// A table of the given structure; its flat rows repeat the text of each
    /// spanning cell in every position it covers (the last cell wins where
    /// cells overlap; uncovered positions are empty).
    pub fn from_structure(structure: TableStructure, metadata: ElementMetadata) -> (t: TableElementData)
        ensures
            is_grid_of(
                rows_view(t.rows@),
                structure_view(structure).cells,
                structure.num_rows as nat,
                structure.num_cols as nat,
            ),
            t.structure matches Some(s) && structure_view(s) == structure_view(structure),
            t.metadata.view() == metadata.view(),
    {
        let nr = structure.num_rows;
        let nc = structure.num_cols;
        let ghost cells = structure_view(structure).cells;
        let mut rows: Vec<Vec<String>> = Vec::new();
        for r in 0..nr
            invariant
                rows@.len() == r,
                forall|q: int| 0 <= q < r ==> (#[trigger] rows@[q])@.len() == nc,
                forall|q: int, c: int| 0 <= q < r && 0 <= c < nc ==> (#[trigger] rows@[q]@[c])@.len() == 0,
        {
            let mut row: Vec<String> = Vec::new();
            for c in 0..nc
                invariant
                    row@.len() == c,
                    forall|k: int| 0 <= k < c ==> (#[trigger] row@[k])@.len() == 0,
            {
                row.push(String::new());
            }
            rows.push(row);
        }
        assert forall|q: int, c: int| 0 <= q < nr && 0 <= c < nc implies #[trigger] rows_view(rows@)[q][c]
            == cell_at(cells.take(0), q, c, nr as nat, nc as nat) by {
            assert(rows_view(rows@)[q][c] == rows@[q]@[c]@);
        }
        for k in 0..structure.cells.len()
            invariant
                nr == structure.num_rows,
                nc == structure.num_cols,
                cells == structure_view(structure).cells,
                rows@.len() == nr,
                forall|q: int| 0 <= q < nr ==> (#[trigger] rows@[q])@.len() == nc,
                forall|q: int, c: int|
                    0 <= q < nr && 0 <= c < nc ==> #[trigger] rows_view(rows@)[q][c] == cell_at(
                        cells.take(k as int),
                        q,
                        c,
                        nr as nat,
                        nc as nat,
                    ),
        {
            let cell = &structure.cells[k];
            let ghost cv = cells[k as int];
            assert(cv == cell_view(*cell));
            let ghost before = rows_view(rows@);
            proof {
                assert(cells.take(k + 1).drop_last() =~= cells.take(k as int));
                assert(cells.take(k + 1).last() == cv);
            }
            let r_end = span_end(cell.row, cell.row_span, nr);
            let c_end = span_end(cell.col, cell.col_span, nc);
            let mut r = cell.row;
            while r < r_end
                invariant
                    nr == structure.num_rows,
                    nc == structure.num_cols,
                    cv == cell_view(*cell),
                    r_end as int == if cell.row + cell.row_span < nr { cell.row + cell.row_span } else { nr as int },
                    c_end as int == if cell.col + cell.col_span < nc { cell.col + cell.col_span } else { nc as int },
                    cell.row <= r,
                    r_end <= nr,
                    rows@.len() == nr,
                    forall|q: int| 0 <= q < nr ==> (#[trigger] rows@[q])@.len() == nc,
                    forall|q: int, c: int|
                        0 <= q < nr && 0 <= c < nc ==> #[trigger] rows_view(rows@)[q][c] == if covers(
                            cv,
                            q,
                            c,
                            nr as nat,
                            nc as nat,
                        ) && q < r {
                            cv.text
                        } else {
                            before[q][c]
                        },
                decreases r_end - r,
            {
                let mut cc = cell.col;
                while cc < c_end
                    invariant
                        nr == structure.num_rows,
                        nc == structure.num_cols,
                        cv == cell_view(*cell),
                        c_end as int == if cell.col + cell.col_span < nc { cell.col + cell.col_span } else { nc as int },
                        cell.row <= r < r_end <= nr,
                        r_end as int == if cell.row + cell.row_span < nr { cell.row + cell.row_span } else { nr as int },
                        cell.col <= cc,
                        c_end <= nc,
                        rows@.len() == nr,
                        forall|q: int| 0 <= q < nr ==> (#[trigger] rows@[q])@.len() == nc,
                        forall|q: int, c: int|
                            0 <= q < nr && 0 <= c < nc ==> #[trigger] rows_view(rows@)[q][c] == if covers(
                                cv,
                                q,
                                c,
                                nr as nat,
                                nc as nat,
                            ) && (q < r || (q == r && c < cc)) {
                                cv.text
                            } else {
                                before[q][c]
                            },
                    decreases c_end - cc,
                {
                    let ghost prev = rows@;
                    let text = copy_string(&cell.text);
                    let mut row: Vec<String> = Vec::new();
                    std::mem::swap(&mut row, &mut rows[r]);
                    row.set(cc, text);
                    rows.set(r, row);
                    proof {
                        assert forall|q: int, c: int| 0 <= q < nr && 0 <= c < nc implies #[trigger] rows_view(rows@)[q][c]
                            == if covers(cv, q, c, nr as nat, nc as nat) && (q < r || (q == r && c < cc + 1)) {
                            cv.text
                        } else {
                            before[q][c]
                        } by {
                            assert(rows_view(rows@)[q][c] == rows@[q]@[c]@);
                            assert(rows_view(prev)[q][c] == prev[q]@[c]@);
                            if q != r {
                                assert(rows@[q] == prev[q]);
                            } else if c != cc {
                                assert(rows@[q]@[c] == prev[q]@[c]);
                            }
                        }
                    }
                    cc += 1;
                }
                r += 1;
            }
            proof {
                assert forall|q: int, c: int| 0 <= q < nr && 0 <= c < nc implies #[trigger] rows_view(rows@)[q][c]
                    == cell_at(cells.take(k + 1), q, c, nr as nat, nc as nat) by {
                }
            }
        }
        assert(cells.take(structure.cells.len() as int) =~= cells);
        let ghost sv = structure_view(structure);
        TableElementData { rows, structure: Some(structure), metadata }
    }
}

} // verus!
