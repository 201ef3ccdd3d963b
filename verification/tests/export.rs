//! Markdown export of elements and tables.

use oxidize_pdf_core::element::{
    Element, ElementData, ElementMetadata, ImageElementData, KeyValueElementData, RichCell,
    TableElementData, TableStructure,
};
use oxidize_pdf_core::export::{
    table_to_markdown, table_to_markdown_data, ElementMarkdownExporter, ExportConfig,
};

#[test]
fn multi_level_header_flattens_with_separator() {
    // "Region" spans both columns over row 0; row 1 sub-headers "Q1"/"Q2".
    // Dedup must prevent "Region › Region" leaking through.
    let structure = TableStructure {
        num_rows: 3,
        num_cols: 2,
        header_rows: 2,
        cells: vec![
            RichCell {
                row: 0,
                col: 0,
                row_span: 1,
                col_span: 2,
                text: "Region".into(),
                is_header: true,
            },
            RichCell {
                row: 1,
                col: 0,
                row_span: 1,
                col_span: 1,
                text: "Q1".into(),
                is_header: true,
            },
            RichCell {
                row: 1,
                col: 1,
                row_span: 1,
                col_span: 1,
                text: "Q2".into(),
                is_header: true,
            },
            RichCell {
                row: 2,
                col: 0,
                row_span: 1,
                col_span: 1,
                text: "10".into(),
                is_header: false,
            },
            RichCell {
                row: 2,
                col: 1,
                row_span: 1,
                col_span: 1,
                text: "20".into(),
                is_header: false,
            },
        ],
    };
    let data = TableElementData::from_structure(structure, ElementMetadata::default());
    let md = table_to_markdown_data(&data);
    assert_eq!(
        md,
        "| Region › Q1 | Region › Q2 |\n| --- | --- |\n| 10 | 20 |"
    );
}

#[test]
fn no_structure_table_unchanged() {
    let metadata = ElementMetadata::default();
    let data = TableElementData {
        rows: vec![
            vec!["a".to_string(), "b".to_string()],
            vec!["1".to_string(), "2".to_string()],
        ],
        structure: None,
        metadata,
    };
    let expected = table_to_markdown(&data.rows);
    assert_eq!(table_to_markdown_data(&data), expected);
    assert_eq!(expected, "| a | b |\n| --- | --- |\n| 1 | 2 |");
}

#[test]
fn single_header_row_structure_unchanged() {
    // header_rows == 1: same behavior as the plain no-structure path.
    let structure = TableStructure {
        num_rows: 2,
        num_cols: 2,
        header_rows: 1,
        cells: vec![
            RichCell {
                row: 0,
                col: 0,
                row_span: 1,
                col_span: 1,
                text: "a".into(),
                is_header: true,
            },
            RichCell {
                row: 0,
                col: 1,
                row_span: 1,
                col_span: 1,
                text: "b".into(),
                is_header: true,
            },
            RichCell {
                row: 1,
                col: 0,
                row_span: 1,
                col_span: 1,
                text: "1".into(),
                is_header: false,
            },
            RichCell {
                row: 1,
                col: 1,
                row_span: 1,
                col_span: 1,
                text: "2".into(),
                is_header: false,
            },
        ],
    };
    let data = TableElementData::from_structure(structure, ElementMetadata::default());
    assert_eq!(
        table_to_markdown_data(&data),
        "| a | b |\n| --- | --- |\n| 1 | 2 |"
    );
}

#[test]
fn from_structure_expands_spans_into_flat_rows() {
    // 2x2 grid; top row is a single cell spanning both columns (a merged header).
    let structure = TableStructure {
        num_rows: 2,
        num_cols: 2,
        header_rows: 1,
        cells: vec![
            RichCell {
                row: 0,
                col: 0,
                row_span: 1,
                col_span: 2,
                text: "Region".into(),
                is_header: true,
            },
            RichCell {
                row: 1,
                col: 0,
                row_span: 1,
                col_span: 1,
                text: "Q1".into(),
                is_header: false,
            },
            RichCell {
                row: 1,
                col: 1,
                row_span: 1,
                col_span: 1,
                text: "Q2".into(),
                is_header: false,
            },
        ],
    };
    let data = TableElementData::from_structure(structure, ElementMetadata::default());
    // Flat view repeats the spanned header value across both covered columns.
    assert_eq!(
        data.rows,
        vec![
            vec!["Region".to_string(), "Region".to_string()],
            vec!["Q1".to_string(), "Q2".to_string()],
        ]
    );
    assert_eq!(data.structure.as_ref().unwrap().header_rows, 1);
}

#[test]
fn from_structure_clips_spans_and_leaves_gaps_empty() {
    // A vertical span past the last row is clipped; position (1, 1) is covered
    // by no cell and stays empty.
    let structure = TableStructure {
        num_rows: 2,
        num_cols: 2,
        header_rows: 0,
        cells: vec![RichCell {
            row: 0,
            col: 0,
            row_span: 5,
            col_span: 1,
            text: "A".into(),
            is_header: false,
        }],
    };
    let data = TableElementData::from_structure(structure, ElementMetadata::default());
    assert_eq!(
        data.rows,
        vec![
            vec!["A".to_string(), String::new()],
            vec!["A".to_string(), String::new()],
        ]
    );
}

#[test]
fn table_to_markdown_empty_rows() {
    assert_eq!(table_to_markdown(&[]), "");
}

#[test]
fn multi_level_header_skips_empty_header_cells() {
    let data = TableElementData {
        rows: vec![
            vec!["Top".to_string(), String::new()],
            vec!["Top".to_string(), "Sub".to_string()],
            vec!["1".to_string(), "2".to_string()],
        ],
        structure: Some(TableStructure {
            num_rows: 3,
            num_cols: 2,
            header_rows: 2,
            cells: Vec::new(),
        }),
        metadata: ElementMetadata::default(),
    };
    assert_eq!(
        table_to_markdown_data(&data),
        "| Top | Sub |\n| --- | --- |\n| 1 | 2 |"
    );
}

fn para(kind: fn(ElementData) -> Element, text: &str) -> Element {
    kind(ElementData {
        text: text.to_string(),
        metadata: ElementMetadata::default(),
    })
}

#[test]
fn export_renders_each_element_kind() {
    let exporter = ElementMarkdownExporter::new(ExportConfig::default());
    let elements = vec![
        para(Element::Title, "  Intro "),
        para(Element::Paragraph, "Body text. "),
        para(Element::ListItem, "item"),
        Element::KeyValue(KeyValueElementData {
            key: " Name ".to_string(),
            value: " Ada ".to_string(),
            metadata: ElementMetadata::default(),
        }),
        para(Element::CodeBlock, "let x = 1;"),
        Element::Image(ImageElementData {
            alt_text: Some("logo".to_string()),
            metadata: ElementMetadata::default(),
        }),
        Element::Image(ImageElementData {
            alt_text: None,
            metadata: ElementMetadata::default(),
        }),
        para(Element::Header, "page header"),
        para(Element::Footer, "page footer"),
    ];
    assert_eq!(
        exporter.export(&elements),
        "# Intro\n\nBody text.\n\n- item\n\n**Name**: Ada\n\n```\nlet x = 1;\n```\n\n![logo]()\n\n![]()"
    );
}

#[test]
fn export_includes_headers_and_footers_when_asked() {
    let exporter = ElementMarkdownExporter::new(ExportConfig {
        include_headers_footers: true,
    });
    let elements = vec![para(Element::Header, "H"), para(Element::Footer, "F")];
    assert_eq!(exporter.export(&elements), "H\n\nF");
}

#[test]
fn export_of_nothing_is_empty() {
    let exporter = ElementMarkdownExporter::default();
    assert_eq!(exporter.export(&[]), "");
}
