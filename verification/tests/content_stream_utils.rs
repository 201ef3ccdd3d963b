//! Font-reference utilities for content streams: extraction, rewriting,
//! renaming and collision handling.

use oxidize_pdf_core::collections::{NameMap, NameSet};
use oxidize_pdf_core::content_stream::{
    apply_font_rename_map, collision_font_mapping, extract_font_references,
    has_embedded_font_data, rename_preserved_fonts, rewrite_font_references,
    INJECTED_BASE_FONT_KEYS,
};
use oxidize_pdf_core::objects::{Dictionary, Object, ObjectId};

#[test]
fn test_extract_font_references_simple() {
    let content = b"BT /F1 12 Tf (Hello) Tj ET";
    let fonts = extract_font_references(content);

    assert_eq!(fonts.len(), 1);
    assert!(fonts.contains("F1"));
}

#[test]
fn test_extract_font_references_multiple() {
    let content = b"BT /F1 12 Tf (Hello) Tj ET BT /F2 10 Tf (World) Tj ET";
    let fonts = extract_font_references(content);

    assert_eq!(fonts.len(), 2);
    assert!(fonts.contains("F1"));
    assert!(fonts.contains("F2"));
}

#[test]
fn test_extract_font_references_with_named_fonts() {
    let content = b"BT /ArialBold 14 Tf (Test) Tj /Helvetica 10 Tf (More) Tj ET";
    let fonts = extract_font_references(content);

    assert_eq!(fonts.len(), 2);
    assert!(fonts.contains("ArialBold"));
    assert!(fonts.contains("Helvetica"));
}

#[test]
fn test_extract_font_references_multiline() {
    let content = b"BT\n/F1 12 Tf\n(Line 1) Tj\nET\nBT\n/F2 10 Tf\n(Line 2) Tj\nET";
    let fonts = extract_font_references(content);

    assert_eq!(fonts.len(), 2);
    assert!(fonts.contains("F1"));
    assert!(fonts.contains("F2"));
}

#[test]
fn test_extract_font_references_no_fonts() {
    let content = b"100 200 m 300 400 l S";
    let fonts = extract_font_references(content);

    assert_eq!(fonts.len(), 0);
}

#[test]
fn test_extract_font_references_ignore_false_positives() {
    // /Pattern shouldn't be detected as a font (not followed by Tf)
    let content = b"/Pattern cs /P1 scn 100 100 m 200 200 l S";
    let fonts = extract_font_references(content);

    assert_eq!(fonts.len(), 0);
}

// Tests for rename_preserved_fonts

#[test]
fn test_rename_preserved_fonts_simple() {
    

    let mut fonts = Dictionary::new();
    fonts.set("F1", Object::Integer(1));
    fonts.set("F2", Object::Integer(2));

    let renamed = rename_preserved_fonts(&fonts);

    assert_eq!(renamed.len(), 2);
    assert!(renamed.contains_key("OrigF1"));
    assert!(renamed.contains_key("OrigF2"));
    assert!(!renamed.contains_key("F1")); // Input keys should not exist
    assert!(!renamed.contains_key("F2"));
}

#[test]
fn test_rename_preserved_fonts_named_fonts() {
    

    let mut fonts = Dictionary::new();
    fonts.set("Arial", Object::Integer(10));
    fonts.set("Helvetica", Object::Integer(20));
    fonts.set("TimesNewRoman", Object::Integer(30));

    let renamed = rename_preserved_fonts(&fonts);

    assert_eq!(renamed.len(), 3);
    assert!(renamed.contains_key("OrigArial"));
    assert!(renamed.contains_key("OrigHelvetica"));
    assert!(renamed.contains_key("OrigTimesNewRoman"));
}

#[test]
fn test_rename_preserved_fonts_preserves_values() {
    

    let mut fonts = Dictionary::new();
    fonts.set("F1", Object::Integer(42));
    fonts.set("Arial", Object::String("test".to_string()));

    let renamed = rename_preserved_fonts(&fonts);

    // Values should be preserved
    assert_eq!(renamed.get("OrigF1"), Some(&Object::Integer(42)));
    assert_eq!(
        renamed.get("OrigArial"),
        Some(&Object::String("test".to_string()))
    );
}

#[test]
fn test_rename_preserved_fonts_empty_dictionary() {
    

    let fonts = Dictionary::new();
    let renamed = rename_preserved_fonts(&fonts);

    assert_eq!(renamed.len(), 0);
}

#[test]
fn test_rename_preserved_fonts_complex_objects() {
    

    let mut fonts = Dictionary::new();

    // Create a complex font dictionary
    let mut font_dict = Dictionary::new();
    font_dict.set("Type", Object::Name("Font".to_string()));
    font_dict.set("Subtype", Object::Name("Type1".to_string()));
    font_dict.set("BaseFont", Object::Name("Helvetica".to_string()));

    fonts.set("F1", Object::Dictionary(font_dict));

    let renamed = rename_preserved_fonts(&fonts);

    assert_eq!(renamed.len(), 1);
    assert!(renamed.contains_key("OrigF1"));

    // Verify the complex object is preserved
    if let Some(Object::Dictionary(dict)) = renamed.get("OrigF1") {
        assert_eq!(dict.get("Type"), Some(&Object::Name("Font".to_string())));
        assert_eq!(
            dict.get("Subtype"),
            Some(&Object::Name("Type1".to_string()))
        );
        assert_eq!(
            dict.get("BaseFont"),
            Some(&Object::Name("Helvetica".to_string()))
        );
    } else {
        panic!("Expected dictionary object");
    }
}

#[test]
fn test_rename_preserved_fonts_all_keys_prefixed() {
    

    let mut fonts = Dictionary::new();
    fonts.set("F1", Object::Integer(1));
    fonts.set("F2", Object::Integer(2));
    fonts.set("Arial", Object::Integer(3));
    fonts.set("Helvetica", Object::Integer(4));

    let renamed = rename_preserved_fonts(&fonts);

    // Verify ALL keys have "Orig" prefix
    for key in renamed.keys() {
        assert!(
            key.starts_with("Orig"),
            "Key '{}' should start with 'Orig'",
            key
        );
    }
}

// Tests for rewrite_font_references

#[test]
fn test_rewrite_font_references_simple() {
    let content = b"BT /F1 12 Tf (Hello) Tj ET";
    let mut mappings = NameMap::new();
    mappings.insert("F1".to_string(), "OrigF1".to_string());

    let rewritten = rewrite_font_references(content, &mappings);
    let result = String::from_utf8(rewritten).unwrap();

    assert_eq!(result, "BT /OrigF1 12 Tf (Hello) Tj ET");
}

#[test]
fn test_rewrite_font_references_multiple() {
    let content = b"BT /F1 12 Tf (Hello) Tj ET BT /F2 10 Tf (World) Tj ET";
    let mut mappings = NameMap::new();
    mappings.insert("F1".to_string(), "OrigF1".to_string());
    mappings.insert("F2".to_string(), "OrigF2".to_string());

    let rewritten = rewrite_font_references(content, &mappings);
    let result = String::from_utf8(rewritten).unwrap();

    assert_eq!(
        result,
        "BT /OrigF1 12 Tf (Hello) Tj ET BT /OrigF2 10 Tf (World) Tj ET"
    );
}

#[test]
fn test_rewrite_font_references_named_fonts() {
    let content = b"BT /Arial 14 Tf (Test) Tj /Helvetica 10 Tf (More) Tj ET";
    let mut mappings = NameMap::new();
    mappings.insert("Arial".to_string(), "OrigArial".to_string());
    mappings.insert("Helvetica".to_string(), "OrigHelvetica".to_string());

    let rewritten = rewrite_font_references(content, &mappings);
    let result = String::from_utf8(rewritten).unwrap();

    assert_eq!(
        result,
        "BT /OrigArial 14 Tf (Test) Tj /OrigHelvetica 10 Tf (More) Tj ET"
    );
}

#[test]
fn test_rewrite_font_references_multiline() {
    let content = b"BT\n/F1 12 Tf\n(Line 1) Tj\nET\nBT\n/F2 10 Tf\n(Line 2) Tj\nET";
    let mut mappings = NameMap::new();
    mappings.insert("F1".to_string(), "OrigF1".to_string());
    mappings.insert("F2".to_string(), "OrigF2".to_string());

    let rewritten = rewrite_font_references(content, &mappings);
    let result = String::from_utf8(rewritten).unwrap();

    assert!(result.contains("/OrigF1 12 Tf"));
    assert!(result.contains("/OrigF2 10 Tf"));
    assert!(!result.contains("/F1 12 Tf"));
    assert!(!result.contains("/F2 10 Tf"));
}

#[test]
fn test_rewrite_font_references_partial_mapping() {
    // Only map F1, leave F2 unchanged
    let content = b"BT /F1 12 Tf (Hello) Tj /F2 10 Tf (World) Tj ET";
    let mut mappings = NameMap::new();
    mappings.insert("F1".to_string(), "OrigF1".to_string());

    let rewritten = rewrite_font_references(content, &mappings);
    let result = String::from_utf8(rewritten).unwrap();

    assert!(result.contains("/OrigF1 12 Tf"));
    assert!(result.contains("/F2 10 Tf")); // F2 unchanged
    assert!(!result.contains("/F1 12 Tf"));
}

#[test]
fn test_rewrite_font_references_no_mappings() {
    let content = b"BT /F1 12 Tf (Hello) Tj ET";
    let mappings = NameMap::new();

    let rewritten = rewrite_font_references(content, &mappings);
    let result = String::from_utf8(rewritten).unwrap();

    // Should remain unchanged
    assert_eq!(result, "BT /F1 12 Tf (Hello) Tj ET");
}

#[test]
fn test_rewrite_font_references_non_font_operators() {
    // Content with /Pattern (not a font)
    let content = b"/Pattern cs /P1 scn 100 100 m 200 200 l S";
    let mut mappings = NameMap::new();
    mappings.insert("Pattern".to_string(), "OrigPattern".to_string());

    let rewritten = rewrite_font_references(content, &mappings);
    let result = String::from_utf8(rewritten).unwrap();

    // /Pattern should NOT be rewritten (not followed by Tf)
    assert!(result.contains("/Pattern cs"));
    assert!(!result.contains("/OrigPattern"));
}

#[test]
fn test_rewrite_font_references_preserves_other_content() {
    let content = b"100 200 m 300 400 l S BT /F1 12 Tf (Text) Tj ET q Q";
    let mut mappings = NameMap::new();
    mappings.insert("F1".to_string(), "OrigF1".to_string());

    let rewritten = rewrite_font_references(content, &mappings);
    let result = String::from_utf8(rewritten).unwrap();

    // Font should be rewritten
    assert!(result.contains("/OrigF1 12 Tf"));
    // Other operators preserved
    assert!(result.contains("100 200 m"));
    assert!(result.contains("300 400 l"));
    assert!(result.contains("(Text) Tj"));
}

// Edge case tests

#[test]
fn test_rewrite_font_references_preserves_whitespace() {
    // The rewriter only replaces the font name bytes; all surrounding
    // whitespace is kept verbatim.
    let content = b"BT  /F1   12  Tf  (Text)  Tj  ET"; // Multiple spaces
    let mut mappings = NameMap::new();
    mappings.insert("F1".to_string(), "OrigF1".to_string());

    let rewritten = rewrite_font_references(content, &mappings);
    let result = String::from_utf8(rewritten).unwrap();

    // Only the name changed; the input spacing is preserved exactly.
    assert_eq!(result, "BT  /OrigF1   12  Tf  (Text)  Tj  ET");
}

#[test]
fn test_rewrite_font_references_with_indentation() {
    // Indentation and newlines are preserved (only the name is rewritten).
    let content = b"BT\n  /F1 12 Tf\n  100 700 Td\n  (Text) Tj\nET";
    let mut mappings = NameMap::new();
    mappings.insert("F1".to_string(), "OrigF1".to_string());

    let rewritten = rewrite_font_references(content, &mappings);
    let result = String::from_utf8(rewritten).unwrap();

    assert_eq!(result, "BT\n  /OrigF1 12 Tf\n  100 700 Td\n  (Text) Tj\nET");
}

#[test]
fn test_rewrite_font_references_cross_line_operator() {
    // The font name and its size on separate lines: the operator is still
    // recognized, rewritten, and the newline kept.
    let content = b"BT\n/F1\n12 Tf (Text) Tj ET";
    let mut mappings = NameMap::new();
    mappings.insert("F1".to_string(), "OrigF1".to_string());

    let rewritten = rewrite_font_references(content, &mappings);
    let result = String::from_utf8(rewritten).unwrap();

    assert_eq!(result, "BT\n/OrigF1\n12 Tf (Text) Tj ET");
}

#[test]
fn test_rewrite_font_references_ignores_name_inside_string() {
    // A `/F1 12 Tf` sequence appearing INSIDE a literal string must not be
    // rewritten — it is text content, not an operator.
    let content = b"BT /F1 12 Tf (/F1 12 Tf literal) Tj ET";
    let mut mappings = NameMap::new();
    mappings.insert("F1".to_string(), "OrigF1".to_string());

    let rewritten = rewrite_font_references(content, &mappings);
    let result = String::from_utf8(rewritten).unwrap();

    // The operator is rewritten; the string literal is untouched.
    assert_eq!(result, "BT /OrigF1 12 Tf (/F1 12 Tf literal) Tj ET");
}

#[test]
fn test_rewrite_font_references_real_size_and_negative() {
    // Font sizes may be reals or signed; both are valid Number operands.
    let content = b"/F1 12.5 Tf /F2 -8 Tf";
    let mut mappings = NameMap::new();
    mappings.insert("F1".to_string(), "OrigF1".to_string());
    mappings.insert("F2".to_string(), "OrigF2".to_string());

    let rewritten = rewrite_font_references(content, &mappings);
    let result = String::from_utf8(rewritten).unwrap();

    assert_eq!(result, "/OrigF1 12.5 Tf /OrigF2 -8 Tf");
}

#[test]
fn test_rename_preserved_fonts_no_collision_detection() {
    // DOCUMENTED LIMITATION: No collision detection
    

    let mut fonts = Dictionary::new();
    fonts.set("F1", Object::Integer(1));
    fonts.set("OrigF1", Object::Integer(2)); // Already has "Orig" prefix!

    let renamed = rename_preserved_fonts(&fonts);

    // Both get renamed (collision not detected)
    assert!(renamed.contains_key("OrigF1")); // From the input key "OrigF1"
    assert!(renamed.contains_key("OrigOrigF1")); // From "F1"

    // This is acceptable - naming collisions are extremely rare in real PDFs
    // If needed, integration code can detect and handle this
}

#[test]
fn test_rewrite_font_references_with_tabs() {
    // Tab separators are valid PDF whitespace and are preserved verbatim.
    let content = b"BT\t/F1\t12\tTf\t(Text)\tTj\tET";
    let mut mappings = NameMap::new();
    mappings.insert("F1".to_string(), "OrigF1".to_string());

    let rewritten = rewrite_font_references(content, &mappings);
    let result = String::from_utf8(rewritten).unwrap();

    // Font renamed correctly; tabs kept.
    assert_eq!(result, "BT\t/OrigF1\t12\tTf\t(Text)\tTj\tET");
}

// Tests for collision_font_mapping

fn reserved_set(keys: &[&str]) -> NameSet {
    let mut s = NameSet::new();
    for k in keys {
        s.insert(k.to_string());
    }
    s
}

#[test]
fn test_collision_mapping_renames_only_colliding_keys() {
    // /Helvetica collides with the injected base font; /F1 and /Arial do not.
    let reserved = reserved_set(&INJECTED_BASE_FONT_KEYS);
    let map = collision_font_mapping(&["Helvetica", "F1", "Arial"], &reserved);

    assert_eq!(
        map.get("Helvetica").map(String::as_str),
        Some("OrigHelvetica")
    );
    assert!(
        !map.contains_key("F1"),
        "non-colliding key must not be renamed"
    );
    assert!(
        !map.contains_key("Arial"),
        "non-colliding key must not be renamed"
    );
}

#[test]
fn test_collision_mapping_empty_when_no_collision() {
    // The `testi.pdf` class: all font names are non-base-14 → no rename.
    let reserved = reserved_set(&INJECTED_BASE_FONT_KEYS);
    let map = collision_font_mapping(&["ArialMT", "Arial-BoldMT", "TT0"], &reserved);
    assert!(map.is_empty());
}

#[test]
fn test_collision_mapping_disambiguates_against_reserved_and_preserved() {
    // Reserved already contains the naive candidate `OrigHelvetica`, and the
    // preserved set contains `OrigHelvetica_1`; the mapping must skip both.
    let mut reserved = reserved_set(&["Helvetica", "OrigHelvetica"]);
    reserved.insert("Helvetica".to_string());
    let map = collision_font_mapping(&["Helvetica", "OrigHelvetica_1"], &reserved);

    let new_name = map.get("Helvetica").expect("colliding key must be renamed");
    assert_ne!(new_name, "OrigHelvetica");
    assert_ne!(new_name, "OrigHelvetica_1");
    assert!(!reserved.contains(new_name));
    // `OrigHelvetica_1` is not reserved, so it is not renamed.
    assert!(!map.contains_key("OrigHelvetica_1"));
}

#[test]
fn test_collision_mapping_overlay_font_key() {
    // A preserved key colliding with an overlay (non-base-14) key is renamed.
    let reserved = reserved_set(&["CustomOverlay"]);
    let map = collision_font_mapping(&["CustomOverlay"], &reserved);
    assert_eq!(
        map.get("CustomOverlay").map(String::as_str),
        Some("OrigCustomOverlay")
    );
}

#[test]
fn test_apply_font_rename_map_renames_only_mapped_keys() {
    

    let mut fonts = Dictionary::new();
    fonts.set("Helvetica", Object::Integer(1));
    fonts.set("F1", Object::Integer(2));

    let mut map = NameMap::new();
    map.insert("Helvetica".to_string(), "OrigHelvetica".to_string());

    let out = apply_font_rename_map(&fonts, &map);

    assert!(out.contains_key("OrigHelvetica"));
    assert!(!out.contains_key("Helvetica"));
    assert!(out.contains_key("F1"), "unmapped key must be kept as-is");
    assert_eq!(out.get("OrigHelvetica"), Some(&Object::Integer(1)));
    assert_eq!(out.get("F1"), Some(&Object::Integer(2)));
}

#[test]
fn test_rewrite_font_references_hyphenated_font_names() {
    // Font names with hyphens (common in real PDFs: Arial-Bold, etc.)
    let content = b"BT /Arial-Bold 14 Tf (Text) Tj /Times-Italic 12 Tf (More) Tj ET";
    let mut mappings = NameMap::new();
    mappings.insert("Arial-Bold".to_string(), "OrigArial-Bold".to_string());
    mappings.insert("Times-Italic".to_string(), "OrigTimes-Italic".to_string());

    let rewritten = rewrite_font_references(content, &mappings);
    let result = String::from_utf8(rewritten).unwrap();

    assert!(result.contains("/OrigArial-Bold 14 Tf"));
    assert!(result.contains("/OrigTimes-Italic 12 Tf"));
}

// Tests for has_embedded_font_data

#[test]
fn test_has_embedded_font_data_with_fontfile() {
    

    let mut descriptor = Dictionary::new();
    descriptor.set("Type", Object::Name("FontDescriptor".to_string()));
    descriptor.set("FontFile", Object::Reference(ObjectId::new(10, 0))); // Type 1 font

    let mut font_dict = Dictionary::new();
    font_dict.set("Type", Object::Name("Font".to_string()));
    font_dict.set("FontDescriptor", Object::Dictionary(descriptor));

    assert!(has_embedded_font_data(&font_dict));
}

#[test]
fn test_has_embedded_font_data_with_fontfile2() {
    

    let mut descriptor = Dictionary::new();
    descriptor.set("Type", Object::Name("FontDescriptor".to_string()));
    descriptor.set("FontFile2", Object::Reference(ObjectId::new(20, 0))); // TrueType

    let mut font_dict = Dictionary::new();
    font_dict.set("Type", Object::Name("Font".to_string()));
    font_dict.set("FontDescriptor", Object::Dictionary(descriptor));

    assert!(has_embedded_font_data(&font_dict));
}

#[test]
fn test_has_embedded_font_data_with_fontfile3() {
    

    let mut descriptor = Dictionary::new();
    descriptor.set("Type", Object::Name("FontDescriptor".to_string()));
    descriptor.set("FontFile3", Object::Reference(ObjectId::new(30, 0))); // CFF/OpenType

    let mut font_dict = Dictionary::new();
    font_dict.set("Type", Object::Name("Font".to_string()));
    font_dict.set("FontDescriptor", Object::Dictionary(descriptor));

    assert!(has_embedded_font_data(&font_dict));
}

#[test]
fn test_has_embedded_font_data_descriptor_without_streams() {
    

    // FontDescriptor exists but no font streams (unusual but possible)
    let mut descriptor = Dictionary::new();
    descriptor.set("Type", Object::Name("FontDescriptor".to_string()));
    descriptor.set("FontName", Object::Name("Arial".to_string()));
    // NO FontFile/FontFile2/FontFile3

    let mut font_dict = Dictionary::new();
    font_dict.set("Type", Object::Name("Font".to_string()));
    font_dict.set("FontDescriptor", Object::Dictionary(descriptor));

    assert!(!has_embedded_font_data(&font_dict));
}

#[test]
fn test_has_embedded_font_data_descriptor_as_reference() {
    

    // FontDescriptor is a reference (common in real PDFs)
    let mut font_dict = Dictionary::new();
    font_dict.set("Type", Object::Name("Font".to_string()));
    font_dict.set("FontDescriptor", Object::Reference(ObjectId::new(100, 0)));

    // Conservative: assume reference MIGHT have embedded data
    assert!(has_embedded_font_data(&font_dict));
}

#[test]
fn test_has_embedded_font_data_standard_font() {
    

    // Standard font (Helvetica) - no FontDescriptor
    let mut font_dict = Dictionary::new();
    font_dict.set("Type", Object::Name("Font".to_string()));
    font_dict.set("Subtype", Object::Name("Type1".to_string()));
    font_dict.set("BaseFont", Object::Name("Helvetica".to_string()));
    // NO FontDescriptor

    assert!(!has_embedded_font_data(&font_dict));
}

#[test]
fn test_has_embedded_font_data_multiple_font_files() {
    

    // Font with BOTH FontFile2 and FontFile3 (unusual but test it)
    let mut descriptor = Dictionary::new();
    descriptor.set("Type", Object::Name("FontDescriptor".to_string()));
    descriptor.set("FontFile2", Object::Reference(ObjectId::new(10, 0)));
    descriptor.set("FontFile3", Object::Reference(ObjectId::new(11, 0)));

    let mut font_dict = Dictionary::new();
    font_dict.set("Type", Object::Name("Font".to_string()));
    font_dict.set("FontDescriptor", Object::Dictionary(descriptor));

    // Should detect embedded data (has at least one stream)
    assert!(has_embedded_font_data(&font_dict));
}

#[test]
fn test_has_embedded_font_data_empty_dict() {
    

    // Empty font dictionary
    let font_dict = Dictionary::new();

    assert!(!has_embedded_font_data(&font_dict));
}

#[test]
fn rewrite_with_identity_mapping_leaves_content_unchanged() {
    let content = b"BT /F1 12 Tf (x) Tj /F2 9 Tf ET % comment /F1 1 Tf\n<41> Tj";
    let mut mappings = NameMap::new();
    mappings.insert("F1".to_string(), "F1".to_string());
    mappings.insert("F2".to_string(), "F2".to_string());
    assert_eq!(rewrite_font_references(content, &mappings), content.to_vec());
}

#[test]
fn extract_font_references_survives_invalid_utf8() {
    let content = b"BT /F1 12 Tf (\xFF\xFE) Tj ET";
    let fonts = extract_font_references(content);
    assert_eq!(fonts.len(), 1);
    assert!(fonts.contains("F1"));
}

#[test]
fn rewrite_font_references_ignores_comment_and_hex_string() {
    let content = b"% /F1 12 Tf\n<2F4631> Tj /F1 12 Tf";
    let mut mappings = NameMap::new();
    mappings.insert("F1".to_string(), "G".to_string());
    let result = String::from_utf8(rewrite_font_references(content, &mappings)).unwrap();
    assert_eq!(result, "% /F1 12 Tf\n<2F4631> Tj /G 12 Tf");
}

#[test]
fn apply_with_prefix_map_equals_rename_preserved_fonts() {
    let mut fonts = Dictionary::new();
    fonts.set("F1", Object::Integer(1));
    fonts.set("Arial", Object::Name("X".to_string()));
    let mut map = NameMap::new();
    map.insert("F1".to_string(), "OrigF1".to_string());
    map.insert("Arial".to_string(), "OrigArial".to_string());
    assert_eq!(apply_font_rename_map(&fonts, &map), rename_preserved_fonts(&fonts));
}

#[test]
fn collision_rename_loses_and_shadows_no_preserved_font() {
    // `Helvetica` collides; `OrigHelvetica` is itself a preserved font, so
    // the renamed key must skip it rather than overwrite it.
    let mut fonts = Dictionary::new();
    fonts.set("Helvetica", Object::Integer(1));
    fonts.set("OrigHelvetica", Object::Integer(2));
    fonts.set("F1", Object::Integer(3));
    let reserved = reserved_set(&["Helvetica", "F9"]);
    let keys = fonts.keys();
    let key_refs: Vec<&str> = keys.iter().map(String::as_str).collect();
    let map = collision_font_mapping(&key_refs, &reserved);
    let out = apply_font_rename_map(&fonts, &map);

    assert_eq!(out.len(), fonts.len());
    assert_eq!(map.get("Helvetica").map(String::as_str), Some("OrigHelvetica_1"));
    assert_eq!(out.get("OrigHelvetica_1"), Some(&Object::Integer(1)));
    assert_eq!(out.get("OrigHelvetica"), Some(&Object::Integer(2)));
    assert_eq!(out.get("F1"), Some(&Object::Integer(3)));
    for k in out.keys() {
        assert!(!reserved.contains(&k));
    }
}

#[test]
fn rewrite_then_inverse_rewrite_gives_the_stream_back() {
    let content: &[u8] =
        b"q BT /F1 12 Tf (lit /F1 12 Tf) Tj % /F1 9 Tf\n/F2 9 Tf <2F46> Tj /F1 7.5 Tf ET Q";
    let mut m = NameMap::new();
    m.insert("F1".to_string(), "OrigF1_1".to_string());
    m.insert("F2".to_string(), "OrigF2".to_string());
    let mut inv = NameMap::new();
    inv.insert("OrigF1_1".to_string(), "F1".to_string());
    inv.insert("OrigF2".to_string(), "F2".to_string());

    let renamed = rewrite_font_references(content, &m);
    assert_eq!(
        renamed,
        b"q BT /OrigF1_1 12 Tf (lit /F1 12 Tf) Tj % /F1 9 Tf\n/OrigF2 9 Tf <2F46> Tj /OrigF1_1 7.5 Tf ET Q"
            .to_vec()
    );
    assert_eq!(rewrite_font_references(&renamed, &inv), content.to_vec());
}
