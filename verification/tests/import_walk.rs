use paged_doc::fixtures::{zip_parts, PLAIN_CONTENT_TYPES, ROOT_RELS};
use paged_doc::import::import_docx;
use paged_doc::model::{Block, DocxDocument, RunSource};

fn import_body(body: &str) -> DocxDocument {
    let doc = format!(
        "<?xml version=\"1.0\" encoding=\"UTF-8\" standalone=\"yes\"?>\
         <w:document xmlns:w=\"http://schemas.openxmlformats.org/wordprocessingml/2006/main\"><w:body>{body}</w:body></w:document>"
    );
    let bytes = zip_parts(&[
        ("[Content_Types].xml", PLAIN_CONTENT_TYPES.as_bytes()),
        ("_rels/.rels", ROOT_RELS.as_bytes()),
        ("word/document.xml", doc.as_bytes()),
    ]);
    import_docx(&bytes).unwrap()
}

#[test]
fn run_text_gathers_text_references_tabs_breaks_and_hyphens() {
    let doc = import_body(
        "<w:p><w:r><w:t>a&amp;b</w:t><w:tab/><w:t>c</w:t><w:br/><w:noBreakHyphen/></w:r></w:p>",
    );
    let Block::Paragraph(p) = &doc.body[0] else { panic!("a paragraph") };
    assert_eq!(p.runs.len(), 1);
    assert_eq!(p.runs[0].text, "a&b\tc\n\u{2011}");
}

#[test]
fn paragraph_and_run_style_ids_are_read() {
    let doc = import_body(
        "<w:p><w:pPr><w:pStyle w:val=\"Heading1\"/></w:pPr><w:r><w:rPr><w:rStyle w:val=\"Emphasis\"/></w:rPr><w:t>x</w:t></w:r></w:p>",
    );
    let Block::Paragraph(p) = &doc.body[0] else { panic!("a paragraph") };
    assert_eq!(p.style_id.as_deref(), Some("Heading1"));
    assert_eq!(p.runs[0].style_id.as_deref(), Some("Emphasis"));
}

#[test]
fn hyperlink_runs_are_marked_and_nested_text_outside_runs_is_ignored() {
    let doc = import_body(
        "<w:p><w:hyperlink w:anchor=\"top\"><w:r><w:t>link</w:t></w:r></w:hyperlink><w:r><w:t>plain</w:t></w:r></w:p>",
    );
    let Block::Paragraph(p) = &doc.body[0] else { panic!("a paragraph") };
    assert_eq!(p.runs.len(), 2);
    assert_eq!(p.runs[0].hyperlink.as_deref(), Some("#top"));
    assert_eq!(p.runs[0].text, "link");
    assert!(p.runs[1].hyperlink.is_none());
}

#[test]
fn tables_keep_rows_cells_and_cell_paragraphs_in_order() {
    let doc = import_body(
        "<w:p><w:r><w:t>before</w:t></w:r></w:p>\
         <w:tbl><w:tblGrid><w:gridCol w:w=\"100\"/></w:tblGrid>\
         <w:tr><w:tc><w:p><w:r><w:t>a</w:t></w:r></w:p><w:p><w:r><w:t>b</w:t></w:r></w:p></w:tc></w:tr>\
         <w:tr><w:tc><w:tcPr><w:gridSpan w:val=\"3\"/></w:tcPr><w:p/></w:tc></w:tr>\
         </w:tbl>\
         <w:p/>",
    );
    assert_eq!(doc.body.len(), 3);
    let Block::Table(t) = &doc.body[1] else { panic!("a table") };
    assert_eq!(t.column_widths, vec![100]);
    assert_eq!(t.rows.len(), 2);
    assert_eq!(t.rows[0].cells[0].paragraphs.len(), 2);
    assert_eq!(t.rows[0].cells[0].paragraphs[1].runs[0].text, "b");
    assert_eq!(t.rows[1].cells[0].grid_span, 3);
    assert!(t.rows[1].cells[0].paragraphs[0].runs.is_empty());
}

#[test]
fn direct_run_and_paragraph_properties_are_read() {
    let doc = import_body(
        "<w:p><w:pPr><w:jc w:val=\"center\"/><w:spacing w:before=\"120\" w:after=\"240\"/>\
         <w:tabs><w:tab w:val=\"right\" w:pos=\"9000\"/></w:tabs></w:pPr>\
         <w:r><w:rPr><w:b/><w:color w:val=\"ff0000\"/><w:sz w:val=\"28\"/></w:rPr><w:t>x</w:t></w:r></w:p>",
    );
    let Block::Paragraph(p) = &doc.body[0] else { panic!("a paragraph") };
    assert!(p.props.justification.is_some());
    assert_eq!(p.props.space_before, Some(120));
    assert_eq!(p.props.space_after, Some(240));
    assert_eq!(p.props.tabs.len(), 1);
    assert_eq!(p.props.tabs[0].position, 9000);
    assert_eq!(p.props.tabs[0].alignment.as_deref(), Some("right"));
    let r = &p.runs[0].props;
    assert_eq!(r.bold, Some(true));
    assert_eq!(r.color.as_deref(), Some("FF0000"));
    assert_eq!(r.size_half_pts, Some(28));
}

#[test]
fn section_page_size_and_margins_are_read() {
    let doc = import_body(
        "<w:p/><w:sectPr><w:pgSz w:w=\"11906\" w:h=\"16838\"/><w:pgMar w:top=\"720\" w:left=\"1080\"/><w:cols w:num=\"2\"/></w:sectPr>",
    );
    assert_eq!(doc.sections.len(), 1);
    let s = &doc.sections[0];
    assert_eq!(s.page_width, 11906);
    assert_eq!(s.page_height, 16838);
    assert_eq!(s.margin_top, 720);
    assert_eq!(s.margin_left, 1080);
    assert_eq!(s.margin_bottom, 1440);
    assert_eq!(s.columns, 2);
}

#[test]
fn run_sources_count_direct_runs_and_runs_inside_each_hyperlink() {
    let doc = import_body(
        "<w:p><w:r><w:t>a</w:t></w:r>\
         <w:hyperlink w:anchor=\"x\"><w:r><w:t>b</w:t></w:r><w:r><w:t>c</w:t></w:r></w:hyperlink>\
         <w:r><w:t>d</w:t></w:r>\
         <w:hyperlink w:anchor=\"y\"><w:r><w:t>e</w:t></w:r></w:hyperlink></w:p>\
         <w:p><w:r><w:t>f</w:t></w:r></w:p>",
    );
    let Block::Paragraph(p) = &doc.body[0] else { panic!("a paragraph") };
    let sources: Vec<Option<RunSource>> = p.runs.iter().map(|r| r.source).collect();
    assert_eq!(
        sources,
        vec![
            Some(RunSource::DirectRun(0)),
            Some(RunSource::HyperlinkRun(0, 0)),
            Some(RunSource::HyperlinkRun(0, 1)),
            Some(RunSource::DirectRun(1)),
            Some(RunSource::HyperlinkRun(1, 0)),
        ]
    );
    assert_eq!(p.source_para_ord, 0);
    let Block::Paragraph(q) = &doc.body[1] else { panic!("a paragraph") };
    assert_eq!(q.source_para_ord, 1);
    assert_eq!(q.runs[0].source, Some(RunSource::DirectRun(0)));
}

#[test]
fn column_widths_follow_the_grid_columns_in_order() {
    let doc = import_body(
        "<w:tbl><w:tblGrid><w:gridCol w:w=\"1200\"/><w:gridCol w:w=\"800\"/><w:gridCol w:w=\"4000\"/></w:tblGrid>\
         <w:tr><w:tc><w:p/></w:tc></w:tr></w:tbl>",
    );
    let Block::Table(t) = &doc.body[0] else { panic!("a table") };
    assert_eq!(t.column_widths, vec![1200, 800, 4000]);
}
