use paged_doc::fixtures::{memo_docx, one_paragraph_docx, table_docx, tier1_docx, zip_parts};
use paged_doc::import::import_docx;
use paged_doc::model::{Block, Justification, StyleKind, VMerge};
use paged_doc::opc::OpcPackage;

#[test]
fn opc_zero_edit_round_trip_is_byte_identical_per_part() {
    let bytes = memo_docx();
    let pkg = OpcPackage::read(&bytes).unwrap();
    let rewritten = pkg.write().unwrap();
    let pkg2 = OpcPackage::read(&rewritten).unwrap();

    let names = pkg.file_names();
    let names2 = pkg2.file_names();
    assert_eq!(names, names2, "part set + order preserved");

    for name in &names {
        assert_eq!(
            pkg.part(name),
            pkg2.part(name),
            "part {name} must round-trip byte-identical (decompressed)"
        );
    }
    // The unknown part specifically survives (preservation invariant).
    assert_eq!(
        pkg2.part("customXml/unknown.txt").unwrap(),
        b"paged preserves unknown parts"
    );
}

#[test]
fn opc_zero_edit_round_trip_is_byte_identical__feat__plugin_doc_opc_foundation() {
    let bytes = memo_docx();
    let pkg = OpcPackage::read(&bytes).unwrap();
    let again = OpcPackage::read(&pkg.write().unwrap()).unwrap();
    for name in pkg.file_names() {
        assert_eq!(pkg.part(&name), again.part(&name), "part {name}");
    }
    assert_eq!(
        again.part("customXml/unknown.txt").unwrap(),
        b"paged preserves unknown parts",
        "an unmodelled part survives"
    );
}

#[test]
fn imports_body_styles_and_section() {
    let doc = import_docx(&memo_docx()).unwrap();

    // 3 paragraphs (the sectPr is not a block).
    let paragraphs: Vec<_> = doc
        .body
        .iter()
        .filter_map(|b| match b {
            Block::Paragraph(p) => Some(p),
            _ => None,
        })
        .collect();
    assert_eq!(paragraphs.len(), 3);

    // The heading paragraph references the Heading1 style.
    assert_eq!(paragraphs[1].style_id.as_deref(), Some("Heading1"));
    assert_eq!(paragraphs[1].runs[0].text, "A Centered Heading");

    // The mixed paragraph has a bold+red middle run.
    let mixed = &paragraphs[2];
    assert_eq!(mixed.runs.len(), 3);
    assert_eq!(mixed.runs[1].props.bold, Some(true));
    assert_eq!(mixed.runs[1].props.color.as_deref(), Some("FF0000"));

    // The style catalog resolved Normal + Heading1.
    let heading = doc
        .styles
        .styles
        .iter()
        .find(|s| s.style_id == "Heading1")
        .unwrap();
    assert_eq!(heading.kind, StyleKind::Paragraph);
    assert_eq!(heading.based_on.as_deref(), Some("Normal"));

    // A4 page geometry from sectPr (11906 x 16838 twips).
    assert_eq!(doc.sections.len(), 1);
    assert_eq!(doc.sections[0].page_width, 11906);
    assert_eq!(doc.sections[0].page_height, 16838);
}

#[test]
fn malformed_container_errors_without_panicking() {
    assert!(import_docx(b"not a zip at all").is_err());
    // A zip that is not an OPC package (no document part) also errors cleanly.
    let junk = zip_parts(&[("random.bin", b"hello")]);
    assert!(import_docx(&junk).is_err());
}

#[test]
fn heading_style_carries_center_bold_and_size() {
    let doc = import_docx(&memo_docx()).unwrap();
    let heading = doc.styles.styles.iter().find(|s| s.style_id == "Heading1").unwrap();
    assert_eq!(heading.name.as_deref(), Some("heading 1"));
    assert_eq!(heading.para.justification, Some(Justification::Center));
    assert_eq!(heading.run.bold, Some(true));
    assert_eq!(heading.run.size_half_pts, Some(48));
}

#[test]
fn smallest_document_imports_one_paragraph_and_no_styles_part() {
    let doc = import_docx(&one_paragraph_docx()).unwrap();
    assert_eq!(doc.body.len(), 1);
    assert!(doc.styles.styles.is_empty());
    match &doc.body[0] {
        Block::Paragraph(p) => assert_eq!(p.runs[0].text, "Hello, world."),
        _ => panic!("expected a paragraph"),
    }
}

#[test]
fn document_defaults_tabs_and_underline_are_read() {
    let doc = import_docx(&tier1_docx()).unwrap();
    assert_eq!(doc.styles.doc_defaults.run.font.as_deref(), Some("Calibri"));
    assert_eq!(doc.styles.doc_defaults.run.size_half_pts, Some(22));
    assert_eq!(doc.styles.doc_defaults.para.space_after, Some(160));
    let Block::Paragraph(p) = &doc.body[0] else { panic!("expected a paragraph") };
    assert_eq!(p.props.keep_next, Some(true));
    // The clear stop is not carried.
    assert_eq!(p.props.tabs.len(), 2);
    assert_eq!(p.props.tabs[0].position, 720);
    assert_eq!(p.props.tabs[0].alignment.as_deref(), Some("left"));
    assert_eq!(p.props.tabs[1].alignment.as_deref(), Some("right"));
    assert_eq!(p.runs[1].props.underline, Some(true));
    assert_eq!(p.runs[2].props.underline, Some(false));
}

#[test]
fn tables_import_with_grid_span_and_merge() {
    let doc = import_docx(&table_docx()).unwrap();
    assert_eq!(doc.body.len(), 3);
    let Block::Table(t) = &doc.body[1] else { panic!("expected a table") };
    assert_eq!(t.column_widths, vec![2000, 3000]);
    assert_eq!(t.rows.len(), 3);
    assert_eq!(t.rows[0].cells[0].grid_span, 2);
    assert_eq!(t.rows[1].cells[0].v_merge, VMerge::Restart);
    assert_eq!(t.rows[2].cells[0].v_merge, VMerge::Continue);
    assert_eq!(t.rows[1].cells[1].paragraphs[0].runs[0].text, "Right top");
    let Block::Paragraph(after) = &doc.body[2] else { panic!("expected a paragraph") };
    // Body paragraph ordinals count body paragraphs only.
    assert_eq!(after.source_para_ord, 1);
}

#[test]
fn a_legacy_binary_document_is_refused_by_name() {
    let mut cfb = vec![0xd0, 0xcf, 0x11, 0xe0, 0xa1, 0xb1, 0x1a, 0xe1];
    cfb.extend_from_slice(&memo_docx());
    match import_docx(&cfb) {
        Err(e) => assert!(e.to_string().starts_with("legacy binary Word document")),
        Ok(_) => panic!("a CFB file must be refused"),
    }
    match import_docx(b"{\\rtf1 hello}") {
        Err(e) => assert!(e.to_string().starts_with("Rich Text Format document")),
        Ok(_) => panic!("an RTF file must be refused"),
    }
}

#[test]
fn zip_parts_writes_a_part_named_like_a_directory() {
    let bytes = zip_parts(&[("notes/a.txt", b"alpha".as_slice()), ("notes/", b"".as_slice())]);
    assert!(!bytes.is_empty());
    let pkg = OpcPackage::read(&bytes).unwrap();
    assert_eq!(pkg.names(), vec!["notes/a.txt".to_string(), "notes/".to_string()]);
    assert_eq!(pkg.file_names(), vec!["notes/a.txt".to_string()]);
    assert_eq!(pkg.part("notes/a.txt"), Some(b"alpha".as_slice()));
    assert_eq!(pkg.part("notes/"), None);
}
