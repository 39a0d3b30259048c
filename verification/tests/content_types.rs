use paged_doc::content_types::ContentTypes;
use paged_doc::error::OoxmlError;

#[test]
fn parses_defaults_and_overrides_and_resolves() {
    let xml = br#"<?xml version="1.0"?>
<Types xmlns="http://schemas.openxmlformats.org/package/2006/content-types">
  <Default Extension="rels" ContentType="application/vnd.openxmlformats-package.relationships+xml"/>
  <Default Extension="xml" ContentType="application/xml"/>
  <Override PartName="/word/document.xml" ContentType="application/vnd.openxmlformats-officedocument.wordprocessingml.document.main+xml"/>
</Types>"#;
    let ct = ContentTypes::parse(xml).unwrap();
    assert_eq!(ct.defaults.len(), 2);
    assert_eq!(ct.overrides.len(), 1);
    assert!(ct.has_override("/word/document.xml"));
    assert!(ct
        .content_type_of("/word/document.xml")
        .unwrap()
        .contains("wordprocessingml.document.main"));
    // resolves by extension default when no override
    assert!(ct
        .content_type_of("/word/_rels/document.xml.rels")
        .is_some());
}

#[test]
fn tolerates_garbage_without_panicking() {
    assert!(
        ContentTypes::parse(b"not xml at all <<<").is_ok()
            || ContentTypes::parse(b"<<<").is_err()
    );
}

#[test]
fn override_wins_over_the_extension_default() {
    let xml = br#"<Types><Default Extension="xml" ContentType="application/xml"/><Override PartName="/word/document.xml" ContentType="main"/></Types>"#;
    let ct = ContentTypes::parse(xml).unwrap();
    assert_eq!(ct.content_type_of("/word/document.xml"), Some("main"));
    assert_eq!(ct.content_type_of("/word/other.xml"), Some("application/xml"));
    assert!(!ct.has_override("/word/other.xml"));
}

#[test]
fn extension_match_ignores_ascii_case() {
    let xml = br#"<Types><Default Extension="PNG" ContentType="image/png"/></Types>"#;
    let ct = ContentTypes::parse(xml).unwrap();
    assert_eq!(ct.content_type_of("/word/media/image1.png"), Some("image/png"));
    assert_eq!(ct.content_type_of("/word/media/image1.jpeg"), None);
}

#[test]
fn a_name_without_a_dot_is_its_own_extension() {
    let xml = br#"<Types><Default Extension="README" ContentType="text/plain"/></Types>"#;
    let ct = ContentTypes::parse(xml).unwrap();
    assert_eq!(ct.content_type_of("README"), Some("text/plain"));
}

#[test]
fn defaults_need_both_attributes() {
    let xml = br#"<Types><Default Extension="xml"/><Override ContentType="x"/><Default Extension="rels" ContentType="r"/></Types>"#;
    let ct = ContentTypes::parse(xml).unwrap();
    assert_eq!(ct.defaults, vec![("rels".to_string(), "r".to_string())]);
    assert!(ct.overrides.is_empty());
}

#[test]
fn malformed_xml_is_an_xml_error_on_the_content_types_part() {
    match ContentTypes::parse(b"<Types><Default Extension=\"a\" ContentType=\"b\"/></Other>") {
        Err(OoxmlError::Xml { part, .. }) => assert_eq!(part, "[Content_Types].xml"),
        other => panic!("expected an xml error, got {:?}", other.map(|c| c.defaults.len())),
    }
}

#[test]
fn a_malformed_attribute_is_an_error() {
    match ContentTypes::parse(b"<Types><Default Extension=\"a\" Extension=\"b\" ContentType=\"c\"/></Types>") {
        Err(OoxmlError::Xml { part, detail }) => {
            assert_eq!(part, "[Content_Types].xml");
            assert_eq!(detail, "malformed attribute");
        }
        other => panic!("expected an attribute error, got {:?}", other.map(|c| c.defaults.len())),
    }
}
