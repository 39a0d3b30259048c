use std::collections::BTreeMap;

use paged_doc::model::RunProps;
use paged_doc::rpr::{render_paragraph, render_rpr, render_run, render_wt};
use paged_doc::splice::{
    patch_document_xml, patch_document_xml_full, ResolvedParaTarget, ResolvedTarget,
};

// Two paragraphs: p0 has a plain run, p1 has a bold run with an rPr.
const DOC: &[u8] = br#"<?xml version="1.0"?><w:document xmlns:w="urn:w"><w:body><w:p><w:r><w:t xml:space="preserve">Hello</w:t></w:r></w:p><w:p><w:r><w:rPr><w:b/><w:color w:val="FF0000"/></w:rPr><w:t>bold red</w:t></w:r></w:p></w:body></w:document>"#;

#[test]
fn text_change_rewrites_only_the_wt_and_is_byte_identical_elsewhere() {
    let targets = {
        let mut t = ResolvedTarget::edit(0, 0);
        t.new_text = Some("World".into());
        vec![t]
    };
    let out = patch_document_xml(DOC, &targets);
    let expected = String::from_utf8(DOC.to_vec())
        .unwrap()
        .replace(">Hello<", ">World<");
    assert_eq!(String::from_utf8(out).unwrap(), expected);
}

#[test]
fn prop_change_replaces_only_the_rpr_leaving_text_verbatim() {
    let new_rpr = render_rpr(
        &RunProps {
            color: Some("FF0000".into()),
            ..Default::default()
        },
        None,
    );
    let targets = {
        let mut t = ResolvedTarget::edit(1, 0);
        t.new_rpr = Some(new_rpr);
        vec![t]
    };
    let out = String::from_utf8(patch_document_xml(DOC, &targets)).unwrap();
    let expected = String::from_utf8(DOC.to_vec()).unwrap().replace(
        r#"<w:rPr><w:b/><w:color w:val="FF0000"/></w:rPr>"#,
        r#"<w:rPr><w:color w:val="FF0000"/></w:rPr>"#,
    );
    assert_eq!(out, expected);
    assert!(out.contains(">bold red<"));
}

#[test]
fn ordinals_target_the_right_paragraph_and_run() {
    let targets = {
        let mut t = ResolvedTarget::edit(1, 0);
        t.new_text = Some("BOLD".into());
        vec![t]
    };
    let out = String::from_utf8(patch_document_xml(DOC, &targets)).unwrap();
    assert!(out.contains(">Hello<"), "p0 run untouched");
    assert!(out.contains(">BOLD<"));
    assert!(!out.contains(">bold red<"));
}

#[test]
fn multi_wt_run_collapses_into_one() {
    let src = br#"<w:document xmlns:w="urn:w"><w:body><w:p><w:r><w:t>Hel</w:t><w:t>lo</w:t><w:t> there</w:t></w:r></w:p></w:body></w:document>"#;
    let mut t = ResolvedTarget::edit(0, 0);
    t.new_text = Some("Replaced".into());
    let out = String::from_utf8(patch_document_xml(src, &[t])).unwrap();
    assert!(
        out.contains("<w:r><w:t xml:space=\"preserve\">Replaced</w:t></w:r>"),
        "one <w:t> carries the whole new text:\n{out}"
    );
    assert!(!out.contains(">Hel<"), "stale fragment gone");
    assert!(!out.contains(">lo<"), "stale fragment gone");
    assert!(!out.contains("> there<"), "stale fragment gone");
    assert_eq!(out.matches("<w:t").count(), 1, "exactly one <w:t> remains");
}

#[test]
fn no_targets_is_byte_identical() {
    assert_eq!(patch_document_xml(DOC, &[]), DOC);
}

#[test]
fn delete_run_drops_the_whole_subtree() {
    let mut t = ResolvedTarget::edit(1, 0);
    t.delete = true;
    let out = String::from_utf8(patch_document_xml(DOC, &[t])).unwrap();
    assert!(!out.contains("bold red"), "run's text gone");
    assert!(!out.contains("<w:b/>"), "run's rPr gone");
    assert!(
        out.contains("<w:p></w:p>"),
        "the paragraph remains, now empty"
    );
    assert!(out.contains(">Hello<"), "the other paragraph is untouched");
}

#[test]
fn insert_run_after_places_the_fragment() {
    let mut t = ResolvedTarget::edit(0, 0);
    t.insert_after
        .push(render_run("added", &RunProps::default(), None));
    let out = String::from_utf8(patch_document_xml(DOC, &[t])).unwrap();
    assert!(
        out.contains(
            "<w:t xml:space=\"preserve\">Hello</w:t></w:r><w:r><w:t xml:space=\"preserve\">added</w:t></w:r>"
        ),
        "new run follows the existing one:\n{out}"
    );
}

#[test]
fn delete_and_insert_paragraphs() {
    let mut paras: BTreeMap<u32, ResolvedParaTarget> = BTreeMap::new();
    paras.entry(0).or_default().delete = true;
    paras
        .entry(1)
        .or_default()
        .insert_after
        .push(render_paragraph("new para", &RunProps::default(), None, None));
    let out = String::from_utf8(patch_document_xml_full(DOC, &[], &paras)).unwrap();
    assert!(!out.contains(">Hello<"), "p0 deleted");
    assert!(out.contains(">bold red<"), "p1 survives");
    assert!(
        out.contains("</w:p><w:p><w:r><w:t xml:space=\"preserve\">new para</w:t></w:r></w:p>"),
        "new paragraph appended after p1:\n{out}"
    );
    assert!(out.contains("</w:body>"), "document structure intact");
}

#[test]
fn prepend_run_lands_before_the_first_run() {
    let mut paras: BTreeMap<u32, ResolvedParaTarget> = BTreeMap::new();
    paras
        .entry(0)
        .or_default()
        .prepend_runs
        .push(render_run("first! ", &RunProps::default(), None));
    let out = String::from_utf8(patch_document_xml_full(DOC, &[], &paras)).unwrap();
    assert!(
        out.contains("<w:p><w:r><w:t xml:space=\"preserve\">first! </w:t></w:r><w:r>"),
        "prepended run precedes the original:\n{out}"
    );
    assert!(out.contains(">Hello<"), "original run kept");
}

#[test]
fn rpr_inserted_when_run_has_none() {
    let src = br#"<w:document xmlns:w="urn:w"><w:body><w:p><w:r><w:t>x</w:t></w:r></w:p></w:body></w:document>"#;
    let new_rpr = render_rpr(
        &RunProps {
            bold: Some(true),
            ..Default::default()
        },
        None,
    );
    let targets = {
        let mut t = ResolvedTarget::edit(0, 0);
        t.new_rpr = Some(new_rpr);
        vec![t]
    };
    let out = String::from_utf8(patch_document_xml(src, &targets)).unwrap();
    assert!(out.contains("<w:r><w:rPr><w:b/></w:rPr><w:t>x</w:t></w:r>"));
}

#[test]
fn wt_preserves_space_and_escapes() {
    assert_eq!(
        render_wt(" a & b "),
        b"<w:t xml:space=\"preserve\"> a &amp; b </w:t>"
    );
}

#[test]
fn rpr_bold_off_keeps_only_color() {
    let props = RunProps {
        color: Some("FF0000".into()),
        ..Default::default()
    };
    assert_eq!(
        render_rpr(&props, None),
        b"<w:rPr><w:color w:val=\"FF0000\"/></w:rPr>".to_vec()
    );
}

#[test]
fn rpr_child_order_and_toggles() {
    let props = RunProps {
        bold: Some(true),
        italic: Some(false),
        size_half_pts: Some(24),
        underline: Some(true),
        ..Default::default()
    };
    assert_eq!(
        String::from_utf8(render_rpr(&props, Some("Emphasis"))).unwrap(),
        "<w:rPr><w:rStyle w:val=\"Emphasis\"/><w:b/><w:i w:val=\"false\"/>\
         <w:sz w:val=\"24\"/><w:u w:val=\"single\"/></w:rPr>"
    );
}

#[test]
fn self_closing_paragraph_delete_drops_it() {
    let src = br#"<w:document xmlns:w="urn:w"><w:body><w:p/><w:p><w:r><w:t>a</w:t></w:r></w:p></w:body></w:document>"#;
    let mut paras = BTreeMap::new();
    paras.insert(0u32, ResolvedParaTarget { delete: true, ..Default::default() });
    let out = patch_document_xml_full(src, &[], &paras);
    assert_eq!(
        out,
        br#"<w:document xmlns:w="urn:w"><w:body><w:p><w:r><w:t>a</w:t></w:r></w:p></w:body></w:document>"#.to_vec()
    );
}

#[test]
fn self_closing_paragraph_insert_after_places_the_fragment() {
    let src = br#"<w:document xmlns:w="urn:w"><w:body><w:p/></w:body></w:document>"#;
    let mut paras = BTreeMap::new();
    paras.insert(
        0u32,
        ResolvedParaTarget { insert_after: vec![b"<w:p><w:r><w:t>n</w:t></w:r></w:p>".to_vec()], ..Default::default() },
    );
    let out = patch_document_xml_full(src, &[], &paras);
    assert_eq!(
        out,
        br#"<w:document xmlns:w="urn:w"><w:body><w:p/><w:p><w:r><w:t>n</w:t></w:r></w:p></w:body></w:document>"#.to_vec()
    );
}

#[test]
fn a_patch_with_no_actions_keeps_every_byte() {
    let paras = BTreeMap::new();
    assert_eq!(patch_document_xml_full(DOC, &[], &paras), DOC.to_vec());
}

#[test]
fn targets_past_the_last_paragraph_keep_every_byte() {
    let targets = {
        let mut t = ResolvedTarget::edit(7, 0);
        t.new_text = Some("never".into());
        vec![t]
    };
    let mut paras = BTreeMap::new();
    paras.insert(9u32, ResolvedParaTarget { delete: true, ..Default::default() });
    assert_eq!(patch_document_xml(DOC, &targets), DOC.to_vec());
    assert_eq!(patch_document_xml_full(DOC, &targets, &paras), DOC.to_vec());
}

#[test]
fn targets_naming_no_element_leave_the_part_byte_identical() {
    // Paragraph 0 has one run: run 3 of it, and a run of paragraph 7, name nothing.
    let mut past_runs = ResolvedTarget::edit(0, 3);
    past_runs.new_text = Some("never".into());
    past_runs.delete = true;
    let mut past_paras = ResolvedTarget::edit(7, 0);
    past_paras.new_text = Some("never".into());
    let out = patch_document_xml(DOC, &[past_runs, past_paras]);
    assert_eq!(out, DOC.to_vec());
}
