use paged_doc::edit::{CellRunEdit, EditSet, RunEdit, StructuralEdit};
use paged_doc::fixtures::{memo_docx, table_docx};
use paged_doc::import::import_docx;
use paged_doc::model::{Block, DocxDocument, Paragraph, RunProps};
use paged_doc::opc::OpcPackage;
use paged_doc::session::DocSession;
use paged_doc::ir::{LoweredBlock, LoweredRun, LoweredStyle, ParagraphContentIn, PropValue, RunContentIn, StoryContentIn, StyleCollection, StyleProp};

fn body_para(doc: &DocxDocument, i: usize) -> &Paragraph {
    match &doc.body[i] {
        Block::Paragraph(p) => p,
        _ => panic!("body[{i}] is not a paragraph"),
    }
}

#[test]
fn edited_save_back_patches_targets_and_preserves_everything_else() {
    let original = memo_docx();
    let session = DocSession::load(&original).unwrap();

    let edits = EditSet {
        structural: vec![],
        cells: vec![],
        paragraphs: vec![],
        runs: vec![
            RunEdit::text(0, 0, "Edited body text."),
            RunEdit::props(
                2,
                1,
                RunProps {
                    color: Some("FF0000".into()),
                    ..Default::default()
                },
            ),
        ],
    };
    let saved = session.save_edited(&edits).unwrap();

    let saved_pkg = OpcPackage::read(&saved).unwrap();
    let doc_xml =
        std::str::from_utf8(saved_pkg.part("word/document.xml").expect("document.xml")).unwrap();

    // (a) the two targets changed.
    assert!(doc_xml.contains(">Edited body text.<"), "p0 text replaced");
    assert!(!doc_xml.contains(">Plain body text.<"), "old p0 text gone");
    assert!(
        doc_xml.contains(r#"<w:rPr><w:color w:val="FF0000"/></w:rPr><w:t>bold red</w:t>"#),
        "bold dropped, color kept, text intact:\n{doc_xml}"
    );
    assert!(
        !doc_xml.contains("<w:b/>"),
        "no bold toggle remains anywhere"
    );

    // (b) preservation — every OTHER part decompressed-identical.
    let orig_pkg = OpcPackage::read(&original).unwrap();
    for name in orig_pkg.file_names() {
        if name == "word/document.xml" {
            continue;
        }
        assert_eq!(
            orig_pkg.part(&name),
            saved_pkg.part(&name),
            "part {name} must be byte-identical"
        );
    }
    // ...and within document.xml, every untouched subtree survives verbatim.
    assert!(doc_xml.contains(r#"<w:pStyle w:val="Heading1"/>"#));
    assert!(doc_xml.contains(">A Centered Heading<"));
    assert!(doc_xml.contains("<w:sectPr>"));
    assert!(
        doc_xml.contains(">Mix of normal and <"),
        "p2 run 0 untouched"
    );
    assert!(doc_xml.contains("> text.<"), "p2 run 2 untouched");

    // (c) round-trip: re-import reflects exactly the edits and nothing else.
    let re = import_docx(&saved).unwrap();
    assert_eq!(body_para(&re, 0).runs[0].text, "Edited body text.");
    assert_eq!(body_para(&re, 1).runs[0].text, "A Centered Heading");
    let p2 = body_para(&re, 2);
    assert_eq!(p2.runs[0].text, "Mix of normal and ");
    assert_eq!(p2.runs[1].text, "bold red");
    assert_eq!(p2.runs[1].props.bold, None, "bold toggled off");
    assert_eq!(
        p2.runs[1].props.color.as_deref(),
        Some("FF0000"),
        "color kept"
    );
    assert_eq!(p2.runs[2].text, " text.");
}

#[test]
fn zero_edit_save_back_still_byte_identical() {
    let original = memo_docx();
    let session = DocSession::load(&original).unwrap();
    // An empty edit set patches nothing; verbatim carry-through holds.
    let saved = session.save_edited(&EditSet::default()).unwrap();
    let orig_pkg = OpcPackage::read(&original).unwrap();
    let saved_pkg = OpcPackage::read(&saved).unwrap();
    for name in orig_pkg.file_names() {
        assert_eq!(orig_pkg.part(&name), saved_pkg.part(&name), "part {name}");
    }
}

#[test]
fn structural_paragraph_delete_and_append() {
    let original = memo_docx();
    let session = DocSession::load(&original).unwrap();
    let edits = EditSet {
        runs: vec![],
        cells: vec![],
        paragraphs: vec![],
        structural: vec![
            StructuralEdit::DeleteParagraph { block: 1 }, // the heading
            StructuralEdit::InsertParagraph {
                block: 2,
                text: "A brand new paragraph.".into(),
                props: Default::default(),
                para_style: None,
                rstyle: None,
            },
        ],
    };
    let saved = session.save_edited(&edits).unwrap();
    let re = import_docx(&saved).unwrap();
    let texts: Vec<String> = re
        .body
        .iter()
        .filter_map(|b| match b {
            Block::Paragraph(p) => Some(p.runs.iter().map(|r| r.text.as_str()).collect()),
            _ => None,
        })
        .collect();
    assert_eq!(
        texts,
        [
            "Plain body text.",
            "Mix of normal and bold red text.",
            "A brand new paragraph.",
        ],
        "heading deleted, new paragraph appended after the last one"
    );
}

#[test]
fn non_patchable_target_is_skipped_not_errored() {
    let original = memo_docx();
    let session = DocSession::load(&original).unwrap();
    // Out-of-range block/run resolves to nothing → skipped, document unchanged.
    let edits = EditSet {
        structural: vec![],
        cells: vec![],
        paragraphs: vec![],
        runs: vec![RunEdit::text(99, 0, "nowhere")],
    };
    let saved = session.save_edited(&edits).unwrap();
    let saved_pkg = OpcPackage::read(&saved).unwrap();
    let doc_xml = std::str::from_utf8(saved_pkg.part("word/document.xml").unwrap()).unwrap();
    assert!(doc_xml.contains(">Plain body text.<"), "unchanged");
    assert!(!doc_xml.contains("nowhere"));
}

#[test]
fn edited_save_back_patches_only_the_target__feat__plugin_doc_save_back() {
    let original = memo_docx();
    let session = DocSession::load(&original).unwrap();
    let edits = EditSet {
        runs: vec![RunEdit::text(0, 0, "Evidence edit.")],
        ..Default::default()
    };
    let saved = session.save_edited(&edits).unwrap();

    let re = import_docx(&saved).unwrap();
    let Block::Paragraph(p0) = &re.body[0] else {
        panic!("expected a paragraph")
    };
    assert_eq!(p0.runs[0].text, "Evidence edit.");

    let before = OpcPackage::read(&original).unwrap();
    let after = OpcPackage::read(&saved).unwrap();
    for name in before.file_names() {
        if name == "word/document.xml" {
            continue;
        }
        assert_eq!(before.part(&name), after.part(&name), "part {name} untouched");
    }
}

#[test]
fn save_back_reaches_table_cells__feat__plugin_doc_save_back() {
    let session = DocSession::load(&table_docx()).unwrap();
    let edits = EditSet {
        cells: vec![CellRunEdit::text(1, 0, 0, 0, "cell evidence")],
        ..Default::default()
    };
    let saved = session.save_edited(&edits).unwrap();
    // The first lowered cell is the first cell of the first row.
    let re = import_docx(&saved).unwrap();
    let table = re
        .body
        .iter()
        .find_map(|b| match b {
            Block::Table(t) => Some(t),
            _ => None,
        })
        .expect("the table survives");
    assert_eq!(table.rows[0].cells[0].paragraphs[0].runs[0].text, "cell evidence");
}

#[test]
fn save_verbatim_returns_the_source_and_block_count_counts_blocks() {
    let original = memo_docx();
    let session = DocSession::load(&original).unwrap();
    assert_eq!(session.block_count(), 3);
    assert_eq!(session.save_verbatim(), original);
    assert_eq!(session.model().body.len(), 3);
}

#[test]
fn loading_garbage_reports_the_error_message() {
    match DocSession::load(b"not a zip at all") {
        Err(m) => assert!(m.starts_with("not a valid OPC (zip) package: "), "{m}"),
        Ok(_) => panic!("garbage must not load"),
    }
}

#[test]
fn structural_row_delete_and_insert() {
    let session = DocSession::load(&table_docx()).unwrap();
    let edits = EditSet {
        structural: vec![
            StructuralEdit::DeleteRow { block: 1, row: 0 },
            StructuralEdit::InsertRow { block: 1, after_row: 2, cells: vec!["x".into(), "y".into()] },
        ],
        ..Default::default()
    };
    let saved = session.save_edited(&edits).unwrap();
    let re = import_docx(&saved).unwrap();
    let Block::Table(t) = &re.body[1] else { panic!("expected a table") };
    assert_eq!(t.rows.len(), 3);
    assert_eq!(t.rows[0].cells[0].paragraphs[0].runs[0].text, "Merged");
    assert_eq!(t.rows[2].cells[1].paragraphs[0].runs[0].text, "y");
}

#[test]
fn insert_and_delete_runs_through_structural_edits() {
    let session = DocSession::load(&memo_docx()).unwrap();
    let edits = EditSet {
        structural: vec![
            StructuralEdit::DeleteRun { block: 2, run: 1 },
            StructuralEdit::InsertRun {
                block: 2,
                run: Some(2),
                text: " (appended)".into(),
                props: Default::default(),
                rstyle: None,
            },
        ],
        ..Default::default()
    };
    let saved = session.save_edited(&edits).unwrap();
    let re = import_docx(&saved).unwrap();
    let texts: Vec<&str> = body_para(&re, 2).runs.iter().map(|r| r.text.as_str()).collect();
    assert_eq!(texts, ["Mix of normal and ", " text.", " (appended)"]);
    assert_eq!(body_para(&re, 0).runs[0].text, "Plain body text.");
}

fn mirror(base: &paged_doc::ir::LoweredDoc) -> StoryContentIn {
    StoryContentIn {
        self_id: "Story/doc".into(),
        paragraphs: base
            .story
            .blocks
            .iter()
            .filter_map(|b| match b {
                LoweredBlock::Paragraph(p) => Some(ParagraphContentIn {
                    paragraph_style: p.para_style_id.clone(),
                    runs: p
                        .runs
                        .iter()
                        .map(|r| RunContentIn {
                            text: r.text.clone(),
                            character_style: r.char_style_id.clone(),
                        })
                        .collect(),
                }),
                _ => None,
            })
            .collect(),
    }
}

#[test]
fn diff_of_identical_lowerings_produces_no_edits() {
    let (model, _pkg, _main) = paged_doc::import::import_docx_with_package(&memo_docx()).unwrap();
    let bindings = paged_doc::bindings::build_bindings(&model);
    let base = paged_doc::lower::lower(&model);
    let edits = paged_doc::diff::diff(&base, &base, &bindings);
    assert!(edits.runs.is_empty(), "identical lowerings ⇒ no edits");
    assert!(edits.structural.is_empty() && edits.cells.is_empty());
}

#[test]
fn diff_drives_save_back_end_to_end() {
    let original = memo_docx();
    let session = DocSession::load(&original).unwrap();
    let (model, _pkg, _main) = paged_doc::import::import_docx_with_package(&original).unwrap();
    let bindings = paged_doc::bindings::build_bindings(&model);
    let base = paged_doc::lower::lower(&model);

    let red_swatch = base
        .swatches
        .iter()
        .find(|s| s.value == vec![255u8, 0, 0])
        .expect("red swatch")
        .id
        .clone();
    let mut edited = base.clone();
    if let LoweredBlock::Paragraph(p) = &mut edited.story.blocks[0] {
        p.runs[0].text = "Edited via diff.".into();
    }
    edited.styles.push(LoweredStyle {
        id: "CharacterStyle/docx-auto-cNEW".into(),
        name: "color only".into(),
        collection: StyleCollection::Character,
        based_on: None,
        props: vec![StyleProp {
            path: "characterFillColor".into(),
            value: PropValue::ColorRef(red_swatch),
        }],
    });
    if let LoweredBlock::Paragraph(p) = &mut edited.story.blocks[2] {
        p.runs[1].char_style_id = Some("CharacterStyle/docx-auto-cNEW".into());
    }

    let edits = paged_doc::diff::diff(&base, &edited, &bindings);
    assert_eq!(edits.runs.len(), 2, "one text + one property edit");
    let saved = session.save_edited(&edits).unwrap();

    let re = import_docx(&saved).unwrap();
    assert_eq!(body_para(&re, 0).runs[0].text, "Edited via diff.");
    let p2 = body_para(&re, 2);
    assert_eq!(p2.runs[1].text, "bold red", "text untouched");
    assert_eq!(p2.runs[1].props.bold, None, "bold removed by the diff");
    assert_eq!(p2.runs[1].props.color.as_deref(), Some("FF0000"), "color kept");
}

#[test]
fn doc03_read_overlay_diff_save_round_trips() {
    let original = memo_docx();
    let session = DocSession::load(&original).unwrap();
    let (model, _pkg, _main) = paged_doc::import::import_docx_with_package(&original).unwrap();
    let base = paged_doc::lower::lower(&model);

    let mut content = mirror(&base);
    content.paragraphs[0].runs[0].text = "Edited via content.".into();
    content.paragraphs[2].runs[1].character_style = None;

    let saved = session.save_edited_from_content(&content).unwrap();

    let re = import_docx(&saved).unwrap();
    assert_eq!(body_para(&re, 0).runs[0].text, "Edited via content.");
    let p2 = body_para(&re, 2);
    assert_eq!(p2.runs[1].text, "bold red", "text untouched");
    assert_eq!(p2.runs[1].props.bold, None, "bold cleared via the read overlay");
    assert_eq!(p2.runs[1].props.color, None, "color cleared");
    assert_eq!(p2.runs[0].text, "Mix of normal and ");
    assert_eq!(body_para(&re, 1).runs[0].text, "A Centered Heading");
}

#[test]
fn doc03_identity_content_is_a_no_op() {
    let original = memo_docx();
    let session = DocSession::load(&original).unwrap();
    let (model, _pkg, _main) = paged_doc::import::import_docx_with_package(&original).unwrap();
    let base = paged_doc::lower::lower(&model);
    let content = mirror(&base);
    let saved = session.save_edited_from_content(&content).unwrap();
    let orig_pkg = OpcPackage::read(&original).unwrap();
    let saved_pkg = OpcPackage::read(&saved).unwrap();
    for name in orig_pkg.file_names() {
        assert_eq!(orig_pkg.part(&name), saved_pkg.part(&name), "part {name}");
    }
}

#[test]
fn structural_edits_insert_and_delete_runs_and_paragraphs() {
    let original = memo_docx();
    let session = DocSession::load(&original).unwrap();
    let (model, _pkg, _main) = paged_doc::import::import_docx_with_package(&original).unwrap();
    let base = paged_doc::lower::lower(&model);

    let mut content = mirror(&base);
    content.paragraphs[2].runs.remove(1);
    content.paragraphs[2].runs.push(RunContentIn {
        text: " (appended)".into(),
        character_style: None,
    });

    let saved = session.save_edited_from_content(&content).unwrap();
    let re = import_docx(&saved).unwrap();
    let p2 = body_para(&re, 2);
    let texts: Vec<&str> = p2.runs.iter().map(|r| r.text.as_str()).collect();
    assert_eq!(texts, [ "Mix of normal and ", " text.", " (appended)"], "middle run deleted, new run appended");
    assert_eq!(body_para(&re, 0).runs[0].text, "Plain body text.");
    assert_eq!(body_para(&re, 1).runs[0].text, "A Centered Heading");
    let orig_pkg = OpcPackage::read(&original).unwrap();
    let saved_pkg = OpcPackage::read(&saved).unwrap();
    for name in orig_pkg.file_names() {
        if name == "word/document.xml" {
            continue;
        }
        assert_eq!(orig_pkg.part(&name), saved_pkg.part(&name), "part {name}");
    }
}

#[test]
fn table_cell_text_round_trips() {
    let original = table_docx();
    let session = DocSession::load(&original).unwrap();
    let (model, _pkg, _main) = paged_doc::import::import_docx_with_package(&original).unwrap();
    let base = paged_doc::lower::lower(&model);

    let (block, table) = base
        .story
        .blocks
        .iter()
        .enumerate()
        .find_map(|(i, b)| match b {
            paged_doc::ir::LoweredBlock::Table(t) => Some((i, t)),
            _ => None,
        })
        .expect("a table block");
    let before = table.cells[0].paragraphs[0].runs[0].text.clone();
    assert!(!before.is_empty(), "the first cell has text");

    let edits = EditSet {
        cells: vec![CellRunEdit::text(block, 0, 0, 0, "PATCHED CELL")],
        ..Default::default()
    };
    let saved = session.save_edited(&edits).unwrap();

    let re_model = import_docx(&saved).unwrap();
    let re = paged_doc::lower::lower(&re_model);
    let re_table = re
        .story
        .blocks
        .iter()
        .find_map(|b| match b {
            paged_doc::ir::LoweredBlock::Table(t) => Some(t),
            _ => None,
        })
        .expect("table survives");
    assert_eq!(re_table.cells[0].paragraphs[0].runs[0].text, "PATCHED CELL");
    assert_eq!(re_table.cells.len(), table.cells.len());
    assert_eq!(re_table.column_widths, table.column_widths);
    for (i, (a, b)) in table.cells.iter().zip(&re_table.cells).enumerate().skip(1) {
        let at: String = a.paragraphs.iter().flat_map(|p| p.runs.iter()).map(|r| r.text.as_str()).collect();
        let bt: String = b.paragraphs.iter().flat_map(|p| p.runs.iter()).map(|r| r.text.as_str()).collect();
        assert_eq!(at, bt, "cell {i} untouched");
        assert_eq!(a.row_span, b.row_span, "cell {i} rowSpan kept");
        assert_eq!(a.col_span, b.col_span, "cell {i} colSpan kept");
    }
    let orig_pkg = OpcPackage::read(&original).unwrap();
    let saved_pkg = OpcPackage::read(&saved).unwrap();
    for name in orig_pkg.file_names() {
        if name == "word/document.xml" {
            continue;
        }
        assert_eq!(orig_pkg.part(&name), saved_pkg.part(&name), "part {name}");
    }
}

#[test]
fn table_cell_diff_drives_save_back() {
    let original = table_docx();
    let session = DocSession::load(&original).unwrap();
    let (model, _pkg, _main) = paged_doc::import::import_docx_with_package(&original).unwrap();
    let bindings = paged_doc::bindings::build_bindings(&model);
    let base = paged_doc::lower::lower(&model);

    let mut edited = base.clone();
    if let paged_doc::ir::LoweredBlock::Table(t) = &mut edited.story.blocks[1] {
        t.cells[1].paragraphs[0].runs[0].text = "via diff".into();
    }
    let edits = paged_doc::diff::diff(&base, &edited, &bindings);
    assert_eq!(edits.cells.len(), 1, "one cell edit: {:?}", edits.cells);

    let saved = session.save_edited(&edits).unwrap();
    let re = paged_doc::lower::lower(&import_docx(&saved).unwrap());
    if let paged_doc::ir::LoweredBlock::Table(t) = &re.story.blocks[1] {
        assert_eq!(t.cells[1].paragraphs[0].runs[0].text, "via diff");
    } else {
        panic!("expected a table at block 1");
    }
}

#[test]
fn a_removed_run_aligns_into_a_delete() {
    let (model, _pkg, _main) = paged_doc::import::import_docx_with_package(&memo_docx()).unwrap();
    let bindings = paged_doc::bindings::build_bindings(&model);
    let base = paged_doc::lower::lower(&model);
    let mut edited = base.clone();
    if let LoweredBlock::Paragraph(p) = &mut edited.story.blocks[2] {
        p.runs.remove(1);
    }
    let edits = paged_doc::diff::diff(&base, &edited, &bindings);
    assert!(edits.runs.is_empty());
    assert_eq!(edits.structural.len(), 1);
    assert!(matches!(edits.structural[0], StructuralEdit::DeleteRun { block: 2, run: 1 }));
}

#[test]
fn an_appended_run_aligns_into_an_insert_after_the_last() {
    let (model, _pkg, _main) = paged_doc::import::import_docx_with_package(&memo_docx()).unwrap();
    let bindings = paged_doc::bindings::build_bindings(&model);
    let base = paged_doc::lower::lower(&model);
    let mut edited = base.clone();
    if let LoweredBlock::Paragraph(p) = &mut edited.story.blocks[2] {
        p.runs.push(LoweredRun { text: " (appended)".into(), char_style_id: None });
    }
    let edits = paged_doc::diff::diff(&base, &edited, &bindings);
    assert!(edits.runs.is_empty());
    assert_eq!(edits.structural.len(), 1);
    match &edits.structural[0] {
        StructuralEdit::InsertRun { block: 2, run: Some(2), text, rstyle: None, .. } => assert_eq!(text, " (appended)"),
        other => panic!("unexpected {other:?}"),
    }
}

#[test]
fn a_replaced_middle_run_keeps_the_common_runs() {
    let (model, _pkg, _main) = paged_doc::import::import_docx_with_package(&memo_docx()).unwrap();
    let bindings = paged_doc::bindings::build_bindings(&model);
    let base = paged_doc::lower::lower(&model);
    let mut edited = base.clone();
    if let LoweredBlock::Paragraph(p) = &mut edited.story.blocks[2] {
        assert_eq!(p.runs.len(), 3);
        assert_ne!(p.runs[1].text, p.runs[2].text);
        p.runs[1] = LoweredRun { text: "X".into(), char_style_id: None };
        p.runs.push(LoweredRun { text: "Y".into(), char_style_id: None });
    }
    let edits = paged_doc::diff::diff(&base, &edited, &bindings);
    assert!(edits.runs.is_empty());
    assert_eq!(edits.structural.len(), 3);
    assert!(matches!(edits.structural[0], StructuralEdit::DeleteRun { block: 2, run: 1 }));
    match &edits.structural[1] {
        StructuralEdit::InsertRun { block: 2, run: Some(0), text, .. } => assert_eq!(text, "X"),
        other => panic!("unexpected {other:?}"),
    }
    match &edits.structural[2] {
        StructuralEdit::InsertRun { block: 2, run: Some(2), text, .. } => assert_eq!(text, "Y"),
        other => panic!("unexpected {other:?}"),
    }
}

#[test]
fn a_dropped_trailing_paragraph_diffs_into_a_paragraph_delete() {
    let (model, _pkg, _main) = paged_doc::import::import_docx_with_package(&memo_docx()).unwrap();
    let bindings = paged_doc::bindings::build_bindings(&model);
    let base = paged_doc::lower::lower(&model);
    let mut edited = base.clone();
    let last = edited.story.blocks.len() - 1;
    edited.story.blocks.pop();
    let edits = paged_doc::diff::diff(&base, &edited, &bindings);
    assert!(edits.runs.is_empty());
    assert_eq!(edits.structural.len(), 1);
    match &edits.structural[0] {
        StructuralEdit::DeleteParagraph { block } => assert_eq!(*block, last),
        other => panic!("unexpected {other:?}"),
    }
}

#[test]
fn an_appended_paragraph_diffs_into_an_insert_after_the_last_and_saves() {
    let original = memo_docx();
    let session = DocSession::load(&original).unwrap();
    let base = session.lowered();
    let mut edited = base.clone();
    let last = edited.story.blocks.len() - 1;
    let mut p = match &edited.story.blocks[0] {
        LoweredBlock::Paragraph(p) => p.clone(),
        _ => panic!("a paragraph"),
    };
    p.runs = vec![
        LoweredRun { text: "Brand ".into(), char_style_id: None },
        LoweredRun { text: "new.".into(), char_style_id: None },
    ];
    edited.story.blocks.push(LoweredBlock::Paragraph(p));
    let edits = paged_doc::diff::diff(&base, &edited, session.bindings());
    assert_eq!(edits.structural.len(), 1);
    match &edits.structural[0] {
        StructuralEdit::InsertParagraph { block, text, para_style: None, rstyle: None, .. } => {
            assert_eq!(*block, last);
            assert_eq!(text, "Brand new.");
        },
        other => panic!("unexpected {other:?}"),
    }
    let saved = session.save_edited(&edits).unwrap();
    let re = import_docx(&saved).unwrap();
    let texts: Vec<String> = re
        .body
        .iter()
        .filter_map(|b| match b {
            Block::Paragraph(p) => Some(p.runs.iter().map(|r| r.text.as_str()).collect()),
            _ => None,
        })
        .collect();
    assert_eq!(texts.last().map(|s| s.as_str()), Some("Brand new."));
    assert_eq!(texts.len(), 4);
}
