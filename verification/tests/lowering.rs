use paged_doc::bindings::{build_bindings, BlockBinding};
use paged_doc::fixtures::{hyperlink_docx, memo_docx, one_paragraph_docx, table_docx};
use paged_doc::import::{import_docx, import_docx_with_package};
use paged_doc::ir::{LoweredBlock, LoweredDoc, LoweredStyle, PropValue, StyleCollection};
use paged_doc::lower::{lower, CHAR_PREFIX};
use paged_doc::model::{
    Block, DocxDocument, Justification, ParaProps, Paragraph, Run, RunProps, Section, Style, StyleKind,
    Table, TableCell, TableRow, VMerge,
};
use paged_doc::session::DocSession;

fn run(text: &str, props: RunProps) -> Run {
    Run {
        style_id: None,
        props,
        image: None,
        hyperlink: None,
        text: text.into(),
        source: None,
    }
}

fn para(runs: Vec<Run>) -> Paragraph {
    Paragraph {
        style_id: None,
        props: ParaProps::default(),
        runs,
        list: None,
        source_para_ord: 0,
    }
}

fn style<'a>(ir: &'a LoweredDoc, id: &str) -> &'a LoweredStyle {
    ir.styles.iter().find(|s| s.id == id).expect("style present")
}

#[test]
fn lowers_styles_paragraphs_and_synthesizes_direct_bold() {
    let mut doc = DocxDocument::default();
    doc.styles.styles.push(Style {
        style_id: "Heading1".into(),
        name: Some("heading 1".into()),
        kind: StyleKind::Paragraph,
        based_on: Some("Normal".into()),
        para: ParaProps {
            justification: Some(Justification::Center),
            ..Default::default()
        },
        run: RunProps {
            size_half_pts: Some(48),
            ..Default::default()
        },
    });
    doc.styles.styles.insert(
        0,
        Style {
            style_id: "Normal".into(),
            name: Some("Normal".into()),
            kind: StyleKind::Paragraph,
            ..Default::default()
        },
    );
    doc.body.push(Block::Paragraph(Paragraph {
        style_id: Some("Heading1".into()),
        ..para(vec![
            run("Hello ", RunProps::default()),
            run(
                "bold",
                RunProps {
                    bold: Some(true),
                    color: Some("FF0000".into()),
                    ..Default::default()
                },
            ),
        ])
    }));

    let lowered = lower(&doc);

    let ids: Vec<&str> = lowered.styles.iter().map(|s| s.id.as_str()).collect();
    let normal = ids.iter().position(|s| s.ends_with("docx-Normal")).unwrap();
    let heading = ids.iter().position(|s| s.ends_with("docx-Heading1")).unwrap();
    assert!(normal < heading, "based_on parent must precede child");

    assert_eq!(lowered.swatches.len(), 1);
    assert_eq!(lowered.swatches[0].value, vec![255u8, 0, 0]);
    let paras = lowered.story.paragraphs();
    let p = paras[0];
    assert!(p.para_style_id.as_deref().unwrap().ends_with("docx-Heading1"));
    assert_eq!(p.runs.len(), 2);
    assert!(p.runs[0].char_style_id.is_none());
    let synth = p.runs[1].char_style_id.as_deref().unwrap();
    assert!(synth.starts_with(CHAR_PREFIX));
    let synth_style = style(&lowered, synth);
    assert!(synth_style
        .props
        .iter()
        .any(|p| p.path == "characterFontStyle" && p.value == PropValue::Text("Bold".into())));
}

#[test]
fn caps_and_baseline_shift_lower_to_character_props() {
    let mut doc = DocxDocument::default();
    doc.body.push(Block::Paragraph(para(vec![run(
        "x",
        RunProps {
            small_caps: Some(true),
            baseline_half_pts: Some(6), // 6 half-points: 3 pt
            ..Default::default()
        },
    )])));
    let ir = lower(&doc);
    let sid = ir.story.paragraphs()[0].runs[0].char_style_id.clone().unwrap();
    let st = style(&ir, &sid);
    assert!(st
        .props
        .iter()
        .any(|p| p.path == "characterCase" && p.value == PropValue::Text("SmallCaps".into())));
    // Lengths are carried in twips; 3 pt is 60 twips.
    assert!(st.props.iter().any(|p| p.path == "characterBaselineShift"
        && matches!(p.value, PropValue::Length(t) if t as f32 / 20.0 == 3.0)));
}

#[test]
fn dedups_identical_direct_formatting() {
    let mut doc = DocxDocument::default();
    let bold = RunProps {
        bold: Some(true),
        ..Default::default()
    };
    doc.body.push(Block::Paragraph(para(vec![run("a", bold.clone()), run("b", bold.clone())])));
    let lowered = lower(&doc);
    let s0 = lowered.story.paragraphs()[0].runs[0].char_style_id.clone();
    let s1 = lowered.story.paragraphs()[0].runs[1].char_style_id.clone();
    assert_eq!(s0, s1, "identical direct formatting reuses one synth style");
    let synth_count = lowered.styles.iter().filter(|s| s.id.contains("auto-c")).count();
    assert_eq!(synth_count, 1);
}

#[test]
fn section_twips_convert_to_points() {
    let mut doc = DocxDocument::default();
    doc.sections.push(Section::default());
    let l = lower(&doc);
    assert_eq!(l.section.page_width as f32 / 20.0, 612.0);
    assert_eq!(l.section.page_height as f32 / 20.0, 792.0);
    assert_eq!(l.section.margin_left as f32 / 20.0, 72.0);
}

#[test]
fn lowers_to_native_ir_with_synthesized_style_and_swatch() {
    let doc = import_docx(&memo_docx()).unwrap();
    let ir = lower(&doc);

    assert_eq!(ir.swatches.len(), 1);
    assert_eq!(ir.swatches[0].value, vec![255u8, 0, 0]);
    assert_eq!(ir.swatches[0].space, "RGB");

    let ids: Vec<&str> = ir.styles.iter().map(|s| s.id.as_str()).collect();
    let n = ids.iter().position(|s| s.ends_with("docx-Normal")).unwrap();
    let h = ids.iter().position(|s| s.ends_with("docx-Heading1")).unwrap();
    assert!(n < h);

    let heading = ir.styles.iter().find(|s| s.id.ends_with("docx-Heading1")).unwrap();
    assert_eq!(heading.collection, StyleCollection::Paragraph);
    assert!(heading
        .props
        .iter()
        .any(|p| p.path == "paragraphJustification" && p.value == PropValue::Text("CenterAlign".into())));

    let paras = ir.story.paragraphs();
    assert!(paras[1].para_style_id.as_deref().unwrap().ends_with("docx-Heading1"));

    let synth_id = paras[2].runs[1].char_style_id.as_deref().unwrap();
    let synth = style(&ir, synth_id);
    assert!(synth
        .props
        .iter()
        .any(|p| p.path == "characterFontStyle" && p.value == PropValue::Text("Bold".into())));
    assert!(synth.props.iter().any(|p| p.path == "characterFillColor"
        && p.value == PropValue::ColorRef(ir.swatches[0].id.clone())));
}

#[test]
fn smallest_document_without_styles_part() {
    let doc = import_docx(&one_paragraph_docx()).unwrap();
    assert_eq!(doc.body.len(), 1);
    assert!(doc.styles.styles.is_empty());
    let ir = lower(&doc);
    assert_eq!(ir.story.paragraphs()[0].runs[0].text, "Hello, world.");
}

#[test]
fn docx_lowers_to_native_stories_and_styles__feat__plugin_doc_read_path() {
    let doc = import_docx(&memo_docx()).unwrap();
    let ir = lower(&doc);
    let paras = ir.story.paragraphs();
    assert_eq!(paras.len(), 3, "three body paragraphs");
    assert_eq!(paras[1].runs[0].text, "A Centered Heading");
    let synth = paras[2].runs[1].char_style_id.as_deref().unwrap();
    assert!(ir.styles.iter().any(|s| s.id == synth));
    assert!(!ir.swatches.is_empty(), "the red run minted a swatch");
}

#[test]
fn lowering_carries_the_host_pour__feat__plugin_doc_embedded_placement() {
    let session = DocSession::load(&memo_docx()).unwrap();
    let ir = session.lowered();
    assert!(!ir.story.blocks.is_empty(), "a story to pour");
    assert!(!ir.styles.is_empty(), "a style catalog to create first");
    assert_eq!(session.block_count(), 3);
}

#[test]
fn bindings_run_counts_match_the_lowered_story() {
    let (model, _pkg, _main) = import_docx_with_package(&memo_docx()).unwrap();
    let bindings = build_bindings(&model);
    let lowered = lower(&model);
    assert_eq!(bindings.blocks.len(), lowered.story.blocks.len());
    for (i, block) in lowered.story.blocks.iter().enumerate() {
        if let LoweredBlock::Paragraph(p) = block {
            match &bindings.blocks[i] {
                BlockBinding::Paragraph { runs, .. } => {
                    assert_eq!(runs.len(), p.runs.len(), "run-count drift at block {i}");
                }
                _ => panic!("block {i} should bind as a paragraph"),
            }
        }
    }
}

#[test]
fn table_cells_bind_like_they_lower() {
    let (model, _pkg, _main) = import_docx_with_package(&table_docx()).unwrap();
    let bindings = build_bindings(&model);
    let lowered = lower(&model);
    for (i, block) in lowered.story.blocks.iter().enumerate() {
        if let LoweredBlock::Table(t) = block {
            match &bindings.blocks[i] {
                BlockBinding::Table { cells, .. } => {
                    assert_eq!(cells.len(), t.cells.len());
                    for (c, lc) in cells.iter().zip(&t.cells) {
                        assert_eq!(c.paras.len(), lc.paragraphs.len());
                        for (pb, lp) in c.paras.iter().zip(&lc.paragraphs) {
                            assert_eq!(pb.len(), lp.runs.len());
                        }
                    }
                }
                _ => panic!("block {i} should bind as a table"),
            }
        }
    }
}

#[test]
fn parents_come_before_children_even_when_declared_after() {
    let mut doc = DocxDocument::default();
    for (id, base) in [("C", Some("B")), ("B", Some("A")), ("A", None)] {
        doc.styles.styles.push(Style {
            style_id: id.into(),
            kind: StyleKind::Paragraph,
            based_on: base.map(|b: &str| b.to_string()),
            para: ParaProps {
                justification: Some(Justification::Left),
                ..Default::default()
            },
            ..Default::default()
        });
    }
    let ir = lower(&doc);
    let pos = |s: &str| ir.styles.iter().position(|x| x.id.ends_with(&format!("docx-{s}"))).unwrap();
    assert!(pos("A") < pos("B") && pos("B") < pos("C"));
    assert_eq!(ir.styles.len(), 3);
}

#[test]
fn a_based_on_cycle_still_emits_every_style_once() {
    let mut doc = DocxDocument::default();
    for (id, base) in [("X", "Y"), ("Y", "X")] {
        doc.styles.styles.push(Style {
            style_id: id.into(),
            kind: StyleKind::Character,
            based_on: Some(base.into()),
            ..Default::default()
        });
    }
    let ir = lower(&doc);
    assert_eq!(ir.styles.len(), 2);
    assert_ne!(ir.styles[0].id, ir.styles[1].id);
}

#[test]
fn table_and_numbering_styles_are_reported_not_lowered() {
    let mut doc = DocxDocument::default();
    doc.styles.styles.push(Style {
        style_id: "Grid".into(),
        kind: StyleKind::Table,
        ..Default::default()
    });
    let ir = lower(&doc);
    assert!(ir.styles.is_empty());
    assert_eq!(ir.diagnostics.len(), 1);
    assert_eq!(ir.diagnostics[0].message, "style 'Grid' (Table) is not a Tier-0 construct and was skipped");
    assert_eq!(ir.diagnostics[0].severity, "info");
}

#[test]
fn document_defaults_become_the_base_of_unstyled_paragraphs() {
    let mut doc = DocxDocument::default();
    doc.styles.doc_defaults.run.font = Some("Calibri".into());
    doc.body.push(Block::Paragraph(para(vec![run("x", RunProps::default())])));
    let ir = lower(&doc);
    assert_eq!(ir.styles.len(), 1);
    assert_eq!(ir.styles[0].id, "ParagraphStyle/docx-Default");
    assert_eq!(ir.styles[0].name, "docx defaults");
    assert_eq!(ir.story.paragraphs()[0].para_style_id.as_deref(), Some("ParagraphStyle/docx-Default"));
}

#[test]
fn vertical_merge_extends_the_restart_cell() {
    let cell = |text: &str, v_merge: VMerge, grid_span: u32| TableCell {
        paragraphs: vec![para(vec![run(text, RunProps::default())])],
        grid_span,
        v_merge,
    };
    let mut doc = DocxDocument::default();
    doc.body.push(Block::Table(Table {
        column_widths: vec![1000, 2000],
        rows: vec![
            TableRow { cells: vec![cell("a", VMerge::Restart, 1), cell("b", VMerge::Unmerged, 1)] },
            TableRow { cells: vec![cell("", VMerge::Continue, 1), cell("c", VMerge::Unmerged, 1)] },
            TableRow { cells: vec![cell("wide", VMerge::Unmerged, 2)] },
        ],
    }));
    let ir = lower(&doc);
    let LoweredBlock::Table(t) = &ir.story.blocks[0] else { panic!("a table") };
    assert_eq!((t.rows, t.cols), (3, 2));
    assert_eq!(t.column_widths, vec![1000, 2000]);
    assert_eq!(t.cells.len(), 4);
    assert_eq!((t.cells[0].row, t.cells[0].col, t.cells[0].row_span), (0, 0, 2));
    assert_eq!((t.cells[2].row, t.cells[2].col, t.cells[2].row_span), (1, 1, 1));
    assert_eq!((t.cells[3].col, t.cells[3].col_span), (0, 2));
}

#[test]
fn hyperlink_runs_are_styled_and_reported() {
    let doc = import_docx(&hyperlink_docx()).unwrap();
    let ir = lower(&doc);
    assert!(ir.swatches.iter().any(|s| s.id == "Color/docx-0000FF"));
    assert!(ir
        .diagnostics
        .iter()
        .any(|d| d.message.ends_with("hyperlink run(s) styled (blue + underline); the clickable link is preserved in the source .docx but not yet a native clickable link")));
}

#[test]
fn images_become_data_uris() {
    let img = paged_doc::model::Image {
        bytes: vec![0x89, b'P', b'N', b'G'],
        mime: "image/png".into(),
        width_emu: 12700 * 10,
        height_emu: 12700 * 5,
    };
    let l = paged_doc::lower::lower_image(&img);
    assert_eq!(l.uri, "data:image/png;base64,iVBORw==");
    assert_eq!((l.width_emu, l.height_emu), (127000, 63500));
}

#[test]
fn an_unmerged_cell_ends_the_vertical_merge_above_it() {
    let cell = |text: &str, v_merge: VMerge| TableCell {
        paragraphs: vec![para(vec![run(text, RunProps::default())])],
        grid_span: 1,
        v_merge,
    };
    let mut doc = DocxDocument::default();
    doc.body.push(Block::Table(Table {
        column_widths: vec![1000],
        rows: vec![
            TableRow { cells: vec![cell("a", VMerge::Restart)] },
            TableRow { cells: vec![cell("", VMerge::Continue)] },
            TableRow { cells: vec![cell("b", VMerge::Unmerged)] },
            TableRow { cells: vec![cell("", VMerge::Continue)] },
        ],
    }));
    let ir = lower(&doc);
    let LoweredBlock::Table(t) = &ir.story.blocks[0] else { panic!("a table") };
    assert_eq!(t.cells.len(), 2);
    assert_eq!((t.cells[0].row, t.cells[0].row_span), (0, 2));
    assert_eq!((t.cells[1].row, t.cells[1].row_span), (2, 1));
}

#[test]
fn cell_paragraphs_keep_their_paragraph_style() {
    let mut doc = DocxDocument::default();
    doc.styles.styles.push(Style {
        style_id: "Heading1".into(),
        name: Some("heading 1".into()),
        kind: StyleKind::Paragraph,
        based_on: None,
        para: ParaProps::default(),
        run: RunProps::default(),
    });
    let mut p = para(vec![run("cell", RunProps::default())]);
    p.style_id = Some("Heading1".into());
    doc.body.push(Block::Table(Table {
        column_widths: vec![1000],
        rows: vec![TableRow { cells: vec![TableCell { paragraphs: vec![p], grid_span: 1, v_merge: VMerge::Unmerged }] }],
    }));
    let ir = lower(&doc);
    let LoweredBlock::Table(t) = &ir.story.blocks[0] else { panic!("a table") };
    let cp = &t.cells[0].paragraphs[0];
    assert_eq!(cp.source_index, 0);
    assert!(cp.para_style_id.as_deref().unwrap().ends_with("docx-Heading1"));
    assert_eq!(cp.runs[0].text, "cell");
}

#[test]
fn the_hyperlink_note_counts_styled_runs_in_paragraphs_and_cells() {
    let link = |text: &str| {
        let mut r = run(text, RunProps::default());
        r.hyperlink = Some("https://example.com".into());
        r
    };
    let mut doc = DocxDocument::default();
    doc.body.push(Block::Paragraph(para(vec![link("a"), link(""), run("plain", RunProps::default())])));
    doc.body.push(Block::Table(Table {
        column_widths: vec![1000],
        rows: vec![
            TableRow { cells: vec![TableCell { paragraphs: vec![para(vec![link("b")])], grid_span: 1, v_merge: VMerge::Restart }] },
            TableRow { cells: vec![TableCell { paragraphs: vec![para(vec![link("c")])], grid_span: 1, v_merge: VMerge::Continue }] },
        ],
    }));
    let ir = lower(&doc);
    assert_eq!(ir.diagnostics.len(), 1);
    assert!(ir.diagnostics[0].message.starts_with("2 hyperlink run(s) styled"));
    assert_eq!(ir.diagnostics[0].severity, "info");
}

#[test]
fn no_hyperlink_means_no_note() {
    let mut doc = DocxDocument::default();
    doc.body.push(Block::Paragraph(para(vec![run("plain", RunProps::default())])));
    let ir = lower(&doc);
    assert!(ir.diagnostics.is_empty());
}
