use paged_doc::rels::{part_dir, rels_part_name, resolve_target, Relationships};

const RELS: &[u8] = br#"<?xml version="1.0"?>
<Relationships xmlns="http://schemas.openxmlformats.org/package/2006/relationships">
  <Relationship Id="rId1" Type="http://schemas.openxmlformats.org/officeDocument/2006/relationships/styles" Target="styles.xml"/>
  <Relationship Id="rId2" Type="http://schemas.openxmlformats.org/officeDocument/2006/relationships/hyperlink" Target="https://paged.media/" TargetMode="External"/>
  <Relationship Id="rId3" Type="http://schemas.openxmlformats.org/officeDocument/2006/relationships/styles" Target="second.xml"/>
</Relationships>"#;

#[test]
fn parses_relationships_in_document_order() {
    let rels = Relationships::parse(RELS);
    assert_eq!(rels.items.len(), 3);
    assert_eq!(rels.items[0].id, "rId1");
    assert_eq!(rels.items[0].target, "styles.xml");
    assert_eq!(rels.items[0].target_mode, None);
    assert_eq!(rels.items[1].target_mode.as_deref(), Some("External"));
}

#[test]
fn by_id_and_by_type_suffix_find_the_first_match() {
    let rels = Relationships::parse(RELS);
    assert_eq!(rels.by_id("rId2").unwrap().target, "https://paged.media/");
    assert!(rels.by_id("rId9").is_none());
    assert_eq!(rels.by_type_suffix("/styles").unwrap().target, "styles.xml");
    assert!(rels.by_type_suffix("/numbering").is_none());
}

#[test]
fn malformed_rels_yield_what_was_scanned() {
    let rels = Relationships::parse(b"<Relationships><Relationship Id=\"a\" Target=\"t\"/><oops");
    assert_eq!(rels.items.len(), 1);
    assert_eq!(rels.items[0].id, "a");
    assert_eq!(rels.items[0].rel_type, "");
    assert!(Relationships::parse(b"").items.is_empty());
}

#[test]
fn entities_in_targets_are_resolved() {
    let rels = Relationships::parse(b"<Relationships><Relationship Id=\"a\" Target=\"a&amp;b.xml\"/></Relationships>");
    assert_eq!(rels.items[0].target, "a&b.xml");
}

#[test]
fn resolve_target_joins_relative_paths() {
    assert_eq!(resolve_target("word", "styles.xml"), "word/styles.xml");
    assert_eq!(resolve_target("", "word/document.xml"), "word/document.xml");
    assert_eq!(resolve_target("word", "../customXml/item1.xml"), "customXml/item1.xml");
    assert_eq!(resolve_target("word", "./media/./image1.png"), "word/media/image1.png");
    assert_eq!(resolve_target("word/sub", "/word/abs.xml"), "word/abs.xml");
    assert_eq!(resolve_target("", "../../x.xml"), "x.xml");
    assert_eq!(resolve_target("a//b/", "c"), "a/b/c");
}

#[test]
fn rels_part_name_and_part_dir() {
    assert_eq!(rels_part_name("word/document.xml"), "word/_rels/document.xml.rels");
    assert_eq!(rels_part_name(""), "_rels/.rels");
    assert_eq!(rels_part_name("x.xml"), "_rels/x.xml.rels");
    assert_eq!(part_dir("word/document.xml"), "word");
    assert_eq!(part_dir("a/b/c.xml"), "a/b");
    assert_eq!(part_dir("x.xml"), "");
}

#[test]
fn resolving_a_part_file_name_against_its_directory_gives_the_part_back() {
    let part = "word/document.xml";
    assert_eq!(part_dir(part), "word");
    assert_eq!(resolve_target(part_dir(part), "document.xml"), part);
    assert_eq!(part_dir("styles.xml"), "");
    assert_eq!(resolve_target(part_dir("styles.xml"), "styles.xml"), "styles.xml");
}

#[test]
fn resolving_a_deep_part_file_name_against_its_directory_gives_the_part_back() {
    let part = "word/media/sub/image1.png";
    assert_eq!(part_dir(part), "word/media/sub");
    assert_eq!(resolve_target(part_dir(part), "image1.png"), part);
}
