//! Fixture builders: minimal, real `.docx` packages assembled in memory, so
//! the conformance checks carry no binary files. Each builder zips the parts
//! it needs (`[Content_Types].xml`, `_rels/.rels`, `word/document.xml`, and
//! what the scenario adds) in a fixed order.

use vstd::prelude::*;
use crate::bytes::sbytes;
use crate::opc::{ends_sep, written_cost, zip_add_file, zip_archive, zip_finish, zip_sound, zip_writer_new, zip_written};

verus! {

/// The content-type table of the fixtures that carry a styles part.
pub const CONTENT_TYPES: &'static str = r#"<?xml version="1.0" encoding="UTF-8" standalone="yes"?>
<Types xmlns="http://schemas.openxmlformats.org/package/2006/content-types">
  <Default Extension="rels" ContentType="application/vnd.openxmlformats-package.relationships+xml"/>
  <Default Extension="xml" ContentType="application/xml"/>
  <Override PartName="/word/document.xml" ContentType="application/vnd.openxmlformats-officedocument.wordprocessingml.document.main+xml"/>
  <Override PartName="/word/styles.xml" ContentType="application/vnd.openxmlformats-officedocument.wordprocessingml.styles+xml"/>
</Types>"#;

/// The root relationships: the main document at `word/document.xml`.
pub const ROOT_RELS: &'static str = r#"<?xml version="1.0" encoding="UTF-8" standalone="yes"?>
<Relationships xmlns="http://schemas.openxmlformats.org/package/2006/relationships">
  <Relationship Id="rId1" Type="http://schemas.openxmlformats.org/officeDocument/2006/relationships/officeDocument" Target="word/document.xml"/>
</Relationships>"#;

/// The main document relationships: the styles part.
pub const DOC_RELS: &'static str = r#"<?xml version="1.0" encoding="UTF-8" standalone="yes"?>
<Relationships xmlns="http://schemas.openxmlformats.org/package/2006/relationships">
  <Relationship Id="rId1" Type="http://schemas.openxmlformats.org/officeDocument/2006/relationships/styles" Target="styles.xml"/>
</Relationships>"#;

/// A styles part with `Normal` and a centered, bold `Heading1` based on it.
pub const STYLES: &'static str = r#"<?xml version="1.0" encoding="UTF-8" standalone="yes"?>
<w:styles xmlns:w="http://schemas.openxmlformats.org/wordprocessingml/2006/main">
  <w:style w:type="paragraph" w:styleId="Normal">
    <w:name w:val="Normal"/>
  </w:style>
  <w:style w:type="paragraph" w:styleId="Heading1">
    <w:name w:val="heading 1"/>
    <w:basedOn w:val="Normal"/>
    <w:pPr><w:jc w:val="center"/></w:pPr>
    <w:rPr><w:b/><w:sz w:val="48"/></w:rPr>
  </w:style>
</w:styles>"#;

/// Three paragraphs: plain, `Heading1`, and a plain/bold-red/plain run mix; A4 section.
pub const MEMO_DOCUMENT: &'static str = r#"<?xml version="1.0" encoding="UTF-8" standalone="yes"?>
<w:document xmlns:w="http://schemas.openxmlformats.org/wordprocessingml/2006/main">
  <w:body>
    <w:p>
      <w:r><w:t xml:space="preserve">Plain body text.</w:t></w:r>
    </w:p>
    <w:p>
      <w:pPr><w:pStyle w:val="Heading1"/></w:pPr>
      <w:r><w:t>A Centered Heading</w:t></w:r>
    </w:p>
    <w:p>
      <w:r><w:t xml:space="preserve">Mix of normal and </w:t></w:r>
      <w:r><w:rPr><w:b/><w:color w:val="FF0000"/></w:rPr><w:t>bold red</w:t></w:r>
      <w:r><w:t xml:space="preserve"> text.</w:t></w:r>
    </w:p>
    <w:sectPr>
      <w:pgSz w:w="11906" w:h="16838"/>
      <w:pgMar w:top="1440" w:right="1440" w:bottom="1440" w:left="1440"/>
    </w:sectPr>
  </w:body>
</w:document>"#;

/// Document defaults (Calibri, 11pt, 8pt after) and `Normal`.
pub const TIER1_STYLES: &'static str = r#"<?xml version="1.0" encoding="UTF-8" standalone="yes"?>
<w:styles xmlns:w="http://schemas.openxmlformats.org/wordprocessingml/2006/main">
  <w:docDefaults>
    <w:rPrDefault><w:rPr><w:rFonts w:ascii="Calibri"/><w:sz w:val="22"/></w:rPr></w:rPrDefault>
    <w:pPrDefault><w:pPr><w:spacing w:after="160"/></w:pPr></w:pPrDefault>
  </w:docDefaults>
  <w:style w:type="paragraph" w:styleId="Normal"><w:name w:val="Normal"/></w:style>
</w:styles>"#;

/// One paragraph with keep-next and tab stops, runs with underline on and off.
pub const TIER1_DOCUMENT: &'static str = r#"<?xml version="1.0" encoding="UTF-8" standalone="yes"?>
<w:document xmlns:w="http://schemas.openxmlformats.org/wordprocessingml/2006/main">
  <w:body>
    <w:p>
      <w:pPr>
        <w:keepNext/>
        <w:tabs>
          <w:tab w:val="left" w:pos="720"/>
          <w:tab w:val="right" w:pos="4320"/>
          <w:tab w:val="clear" w:pos="1440"/>
        </w:tabs>
      </w:pPr>
      <w:r><w:t>Name</w:t></w:r>
      <w:r><w:rPr><w:u w:val="single"/></w:rPr><w:t>underlined</w:t></w:r>
      <w:r><w:rPr><w:u w:val="none"/></w:rPr><w:t>plain</w:t></w:r>
    </w:p>
  </w:body>
</w:document>"#;

/// The content-type table of the list fixture.
pub const LIST_CONTENT_TYPES: &'static str = r#"<?xml version="1.0" encoding="UTF-8" standalone="yes"?>
<Types xmlns="http://schemas.openxmlformats.org/package/2006/content-types">
  <Default Extension="rels" ContentType="application/vnd.openxmlformats-package.relationships+xml"/>
  <Default Extension="xml" ContentType="application/xml"/>
  <Override PartName="/word/document.xml" ContentType="application/vnd.openxmlformats-officedocument.wordprocessingml.document.main+xml"/>
  <Override PartName="/word/numbering.xml" ContentType="application/vnd.openxmlformats-officedocument.wordprocessingml.numbering+xml"/>
</Types>"#;

/// The list fixture's main document relationships: the numbering part.
pub const LIST_DOC_RELS: &'static str = r#"<?xml version="1.0" encoding="UTF-8" standalone="yes"?>
<Relationships xmlns="http://schemas.openxmlformats.org/package/2006/relationships">
  <Relationship Id="rId1" Type="http://schemas.openxmlformats.org/officeDocument/2006/relationships/numbering" Target="numbering.xml"/>
</Relationships>"#;

/// A bullet list definition (numId 1) and a decimal one (numId 2).
pub const LIST_NUMBERING: &'static str = r#"<?xml version="1.0" encoding="UTF-8" standalone="yes"?>
<w:numbering xmlns:w="http://schemas.openxmlformats.org/wordprocessingml/2006/main">
  <w:abstractNum w:abstractNumId="0">
    <w:lvl w:ilvl="0"><w:numFmt w:val="bullet"/><w:lvlText w:val="&#61623;"/></w:lvl>
  </w:abstractNum>
  <w:abstractNum w:abstractNumId="1">
    <w:lvl w:ilvl="0"><w:numFmt w:val="decimal"/><w:lvlText w:val="%1."/></w:lvl>
  </w:abstractNum>
  <w:num w:numId="1"><w:abstractNumId w:val="0"/></w:num>
  <w:num w:numId="2"><w:abstractNumId w:val="1"/></w:num>
</w:numbering>"#;

/// Two bullet paragraphs and two numbered paragraphs.
pub const LIST_DOCUMENT: &'static str = r#"<?xml version="1.0" encoding="UTF-8" standalone="yes"?>
<w:document xmlns:w="http://schemas.openxmlformats.org/wordprocessingml/2006/main">
  <w:body>
    <w:p><w:pPr><w:numPr><w:ilvl w:val="0"/><w:numId w:val="1"/></w:numPr></w:pPr><w:r><w:t>First bullet</w:t></w:r></w:p>
    <w:p><w:pPr><w:numPr><w:ilvl w:val="0"/><w:numId w:val="1"/></w:numPr></w:pPr><w:r><w:t>Second bullet</w:t></w:r></w:p>
    <w:p><w:pPr><w:numPr><w:ilvl w:val="0"/><w:numId w:val="2"/></w:numPr></w:pPr><w:r><w:t>Step one</w:t></w:r></w:p>
    <w:p><w:pPr><w:numPr><w:ilvl w:val="0"/><w:numId w:val="2"/></w:numPr></w:pPr><w:r><w:t>Step two</w:t></w:r></w:p>
  </w:body>
</w:document>"#;

/// The content-type table of fixtures with only a main document.
pub const PLAIN_CONTENT_TYPES: &'static str = r#"<?xml version="1.0" encoding="UTF-8" standalone="yes"?>
<Types xmlns="http://schemas.openxmlformats.org/package/2006/content-types">
  <Default Extension="rels" ContentType="application/vnd.openxmlformats-package.relationships+xml"/>
  <Default Extension="xml" ContentType="application/xml"/>
  <Override PartName="/word/document.xml" ContentType="application/vnd.openxmlformats-officedocument.wordprocessingml.document.main+xml"/>
</Types>"#;

/// A paragraph, a table with a spanning title row and a vertical merge, a paragraph.
pub const TABLE_DOCUMENT: &'static str = r#"<?xml version="1.0" encoding="UTF-8" standalone="yes"?>
<w:document xmlns:w="http://schemas.openxmlformats.org/wordprocessingml/2006/main">
  <w:body>
    <w:p><w:r><w:t>Before the table.</w:t></w:r></w:p>
    <w:tbl>
      <w:tblGrid><w:gridCol w:w="2000"/><w:gridCol w:w="3000"/></w:tblGrid>
      <w:tr>
        <w:tc><w:tcPr><w:gridSpan w:val="2"/></w:tcPr><w:p><w:r><w:t>Title spanning</w:t></w:r></w:p></w:tc>
      </w:tr>
      <w:tr>
        <w:tc><w:tcPr><w:vMerge w:val="restart"/></w:tcPr><w:p><w:r><w:t>Merged</w:t></w:r></w:p></w:tc>
        <w:tc><w:p><w:r><w:t>Right top</w:t></w:r></w:p></w:tc>
      </w:tr>
      <w:tr>
        <w:tc><w:tcPr><w:vMerge/></w:tcPr><w:p/></w:tc>
        <w:tc><w:p><w:r><w:t>Right bottom</w:t></w:r></w:p></w:tc>
      </w:tr>
    </w:tbl>
    <w:p><w:r><w:t>After the table.</w:t></w:r></w:p>
  </w:body>
</w:document>"#;

/// The content-type table of the image fixture (with `png`).
pub const IMAGE_CONTENT_TYPES: &'static str = r#"<?xml version="1.0" encoding="UTF-8" standalone="yes"?>
<Types xmlns="http://schemas.openxmlformats.org/package/2006/content-types">
  <Default Extension="rels" ContentType="application/vnd.openxmlformats-package.relationships+xml"/>
  <Default Extension="xml" ContentType="application/xml"/>
  <Default Extension="png" ContentType="image/png"/>
  <Override PartName="/word/document.xml" ContentType="application/vnd.openxmlformats-officedocument.wordprocessingml.document.main+xml"/>
</Types>"#;

/// The image fixture's main document relationships: the picture.
pub const IMAGE_DOC_RELS: &'static str = r#"<?xml version="1.0" encoding="UTF-8" standalone="yes"?>
<Relationships xmlns="http://schemas.openxmlformats.org/package/2006/relationships">
  <Relationship Id="rId100" Type="http://schemas.openxmlformats.org/officeDocument/2006/relationships/image" Target="media/image1.png"/>
</Relationships>"#;

/// A paragraph, then a paragraph whose run holds an inline picture (72 x 54 pt).
pub const IMAGE_DOCUMENT: &'static str = r#"<?xml version="1.0" encoding="UTF-8" standalone="yes"?>
<w:document xmlns:w="http://schemas.openxmlformats.org/wordprocessingml/2006/main" xmlns:wp="http://schemas.openxmlformats.org/drawingml/2006/wordprocessingDrawing" xmlns:a="http://schemas.openxmlformats.org/drawingml/2006/main" xmlns:pic="http://schemas.openxmlformats.org/drawingml/2006/picture" xmlns:r="http://schemas.openxmlformats.org/officeDocument/2006/relationships">
  <w:body>
    <w:p><w:r><w:t>Text before image.</w:t></w:r></w:p>
    <w:p>
      <w:r>
        <w:drawing>
          <wp:inline distT="0" distB="0" distL="0" distR="0">
            <wp:extent cx="914400" cy="685800"/>
            <wp:docPr id="1" name="Picture 1"/>
            <a:graphic>
              <a:graphicData uri="http://schemas.openxmlformats.org/drawingml/2006/picture">
                <pic:pic>
                  <pic:nvPicPr><pic:cNvPr id="0" name="image1.png"/><pic:cNvPicPr/></pic:nvPicPr>
                  <pic:blipFill><a:blip r:embed="rId100"/><a:stretch><a:fillRect/></a:stretch></pic:blipFill>
                  <pic:spPr><a:xfrm><a:off x="0" y="0"/><a:ext cx="914400" cy="685800"/></a:xfrm><a:prstGeom prst="rect"><a:avLst/></a:prstGeom></pic:spPr>
                </pic:pic>
              </a:graphicData>
            </a:graphic>
          </wp:inline>
        </w:drawing>
      </w:r>
    </w:p>
  </w:body>
</w:document>"#;

/// The hyperlink fixture's main document relationships: an external link.
pub const HYPERLINK_DOC_RELS: &'static str = r#"<?xml version="1.0" encoding="UTF-8" standalone="yes"?>
<Relationships xmlns="http://schemas.openxmlformats.org/package/2006/relationships">
  <Relationship Id="rId50" Type="http://schemas.openxmlformats.org/officeDocument/2006/relationships/hyperlink" Target="https://paged.media/" TargetMode="External"/>
</Relationships>"#;

/// One paragraph: a run, a `w:hyperlink` run, a run.
pub const HYPERLINK_DOCUMENT: &'static str = r#"<?xml version="1.0" encoding="UTF-8" standalone="yes"?>
<w:document xmlns:w="http://schemas.openxmlformats.org/wordprocessingml/2006/main" xmlns:r="http://schemas.openxmlformats.org/officeDocument/2006/relationships">
  <w:body>
    <w:p>
      <w:r><w:t xml:space="preserve">Visit </w:t></w:r>
      <w:hyperlink r:id="rId50"><w:r><w:t>Paged Media</w:t></w:r></w:hyperlink>
      <w:r><w:t xml:space="preserve"> today.</w:t></w:r>
    </w:p>
  </w:body>
</w:document>"#;

/// One paragraph with a complex `HYPERLINK` field and a simple one.
pub const FIELD_HYPERLINK_DOCUMENT: &'static str = r#"<?xml version="1.0" encoding="UTF-8" standalone="yes"?>
<w:document xmlns:w="http://schemas.openxmlformats.org/wordprocessingml/2006/main" xmlns:r="http://schemas.openxmlformats.org/officeDocument/2006/relationships">
  <w:body>
    <w:p>
      <w:r><w:t xml:space="preserve">Go </w:t></w:r>
      <w:r><w:fldChar w:fldCharType="begin"/></w:r>
      <w:r><w:instrText xml:space="preserve"> HYPERLINK &quot;https://example.com/</w:instrText></w:r>
      <w:r><w:instrText xml:space="preserve">complex&quot; </w:instrText></w:r>
      <w:r><w:fldChar w:fldCharType="separate"/></w:r>
      <w:r><w:t>complex link</w:t></w:r>
      <w:r><w:fldChar w:fldCharType="end"/></w:r>
      <w:r><w:t xml:space="preserve"> and </w:t></w:r>
      <w:fldSimple w:instr="HYPERLINK &quot;https://example.com/simple&quot;"><w:r><w:t>simple link</w:t></w:r></w:fldSimple>
      <w:r><w:t xml:space="preserve"> done.</w:t></w:r>
    </w:p>
  </w:body>
</w:document>"#;

/// The content-type table of the footnote fixture.
pub const FOOTNOTE_CONTENT_TYPES: &'static str = r#"<?xml version="1.0" encoding="UTF-8" standalone="yes"?>
<Types xmlns="http://schemas.openxmlformats.org/package/2006/content-types">
  <Default Extension="rels" ContentType="application/vnd.openxmlformats-package.relationships+xml"/>
  <Default Extension="xml" ContentType="application/xml"/>
  <Override PartName="/word/document.xml" ContentType="application/vnd.openxmlformats-officedocument.wordprocessingml.document.main+xml"/>
  <Override PartName="/word/footnotes.xml" ContentType="application/vnd.openxmlformats-officedocument.wordprocessingml.footnotes+xml"/>
</Types>"#;

/// The footnote fixture's main document relationships: the footnotes part.
pub const FOOTNOTE_DOC_RELS: &'static str = r#"<?xml version="1.0" encoding="UTF-8" standalone="yes"?>
<Relationships xmlns="http://schemas.openxmlformats.org/package/2006/relationships">
  <Relationship Id="rId3" Type="http://schemas.openxmlformats.org/officeDocument/2006/relationships/footnotes" Target="footnotes.xml"/>
</Relationships>"#;

/// One paragraph with a footnote reference between two runs.
pub const FOOTNOTE_DOCUMENT: &'static str = r#"<?xml version="1.0" encoding="UTF-8" standalone="yes"?>
<w:document xmlns:w="http://schemas.openxmlformats.org/wordprocessingml/2006/main">
  <w:body>
    <w:p>
      <w:r><w:t xml:space="preserve">Body with a note</w:t></w:r>
      <w:r><w:footnoteReference w:id="2"/></w:r>
      <w:r><w:t xml:space="preserve"> and more.</w:t></w:r>
    </w:p>
  </w:body>
</w:document>"#;

/// The two separator pseudo-notes and footnote 2.
pub const FOOTNOTES: &'static str = r#"<?xml version="1.0" encoding="UTF-8" standalone="yes"?>
<w:footnotes xmlns:w="http://schemas.openxmlformats.org/wordprocessingml/2006/main">
  <w:footnote w:type="separator" w:id="-1"><w:p><w:r><w:separator/></w:r></w:p></w:footnote>
  <w:footnote w:type="continuationSeparator" w:id="0"><w:p><w:r><w:continuationSeparator/></w:r></w:p></w:footnote>
  <w:footnote w:id="2"><w:p><w:r><w:t>The note body.</w:t></w:r></w:p></w:footnote>
</w:footnotes>"#;

/// A 3 x 2 table, each row marked by a distinct `w:trHeight`.
pub const SIMPLE_TABLE_DOCUMENT: &'static str = r#"<?xml version="1.0" encoding="UTF-8" standalone="yes"?>
<w:document xmlns:w="http://schemas.openxmlformats.org/wordprocessingml/2006/main">
  <w:body>
    <w:tbl><w:tblGrid><w:gridCol w:w="2000"/><w:gridCol w:w="2000"/></w:tblGrid><w:tr><w:trPr><w:trHeight w:val="100"/></w:trPr><w:tc><w:p><w:r><w:t>R0C0</w:t></w:r></w:p></w:tc><w:tc><w:p><w:r><w:t>R0C1</w:t></w:r></w:p></w:tc></w:tr><w:tr><w:trPr><w:trHeight w:val="101"/></w:trPr><w:tc><w:p><w:r><w:t>R1C0</w:t></w:r></w:p></w:tc><w:tc><w:p><w:r><w:t>R1C1</w:t></w:r></w:p></w:tc></w:tr><w:tr><w:trPr><w:trHeight w:val="102"/></w:trPr><w:tc><w:p><w:r><w:t>R2C0</w:t></w:r></w:p></w:tc><w:tc><w:p><w:r><w:t>R2C1</w:t></w:r></w:p></w:tc></w:tr></w:tbl>
  </w:body>
</w:document>"#;

/// One paragraph with one run.
pub const ONE_PARAGRAPH_DOCUMENT: &'static str = r#"<?xml version="1.0" encoding="UTF-8" standalone="yes"?>
<w:document xmlns:w="http://schemas.openxmlformats.org/wordprocessingml/2006/main">
  <w:body><w:p><w:r><w:t>Hello, world.</w:t></w:r></w:p></w:body>
</w:document>"#;

/// The stand-in media bytes of the image fixture: a PNG signature and a
/// marker.
pub open spec fn png_bytes() -> Seq<u8> {
    seq![0x89u8, 0x50u8, 0x4eu8, 0x47u8, 0x0du8, 0x0au8, 0x1au8, 0x0au8, 0x2du8, 0x66u8, 0x61u8, 0x6bu8, 0x65u8, 0x2du8, 0x69u8, 0x6du8, 0x61u8, 0x67u8, 0x65u8, 0x2du8, 0x62u8, 0x79u8, 0x74u8, 0x65u8, 0x73u8, 0x2du8, 0x66u8, 0x6fu8, 0x72u8, 0x2du8, 0x63u8, 0x6fu8, 0x6eu8, 0x66u8, 0x6fu8, 0x72u8, 0x6du8, 0x61u8, 0x6eu8, 0x63u8, 0x65u8, 0x2du8]
}

/// An archive entry for a file part.
pub type EntryView = (Seq<char>, bool, Seq<u8>);

/// The entries a list of parts is written as: each with its bytes, read
/// back as a directory when its name ends with a separator.
pub open spec fn part_entries(parts: Seq<(&str, &[u8])>) -> Seq<EntryView> {
    parts.map_values(|p: (&str, &[u8])| (p.0@, ends_sep(p.0@), p.1@))
}

/// What a fixture gives: nothing when the zip writer failed, else an archive
/// that reads back as exactly the given entries.
pub open spec fn zipped(r: Seq<u8>, es: Seq<EntryView>) -> bool {
    r.len() == 0 || zip_archive(r) == Some(es)
}

/// Entries the zip writer takes by name: names are distinct, and each local
/// header (30 bytes and the name) stays under 64 KiB.
pub open spec fn names_fit(es: Seq<EntryView>) -> bool {
    &&& forall|k: int| 0 <= k < es.len() ==> crate::bytes::ubytes(#[trigger] es[k].0).len() + 30 < 0xFFFF
    &&& forall|x: int, y: int| 0 <= x < y < es.len() ==> es[x].0 != es[y].0
}

/// The entries stay within the archive budget (see
/// [`crate::opc::entry_fits`]).
pub open spec fn sizes_fit(es: Seq<EntryView>) -> bool {
    written_cost(es) < 0x4000_0000
}

/// Entries whose names are short and distinct fit by name.
proof fn lemma_names_fit(es: Seq<EntryView>)
    requires
        forall|k: int| 0 <= k < es.len() ==> #[trigger] es[k].0.len() < 1000,
        forall|x: int, y: int| 0 <= x < y < es.len() ==> es[x].0 != es[y].0,
    ensures
        names_fit(es),
{
    assert forall|k: int| 0 <= k < es.len() implies crate::bytes::ubytes(#[trigger] es[k].0).len() + 30 < 0xFFFF by {
        crate::bytes::lemma_ubytes_len_bound(es[k].0);
    }
}

/// Zip a set of `(name, bytes)` parts into a package, in the given order,
/// each part deflated as a file entry. Empty when the writer fails. Parts
/// whose names and sizes fit are written, and the archive reads back as
/// exactly those entries.
pub fn zip_parts(parts: &[(&str, &[u8])]) -> (r: Vec<u8>)
    ensures
        zipped(r@, part_entries(parts@)),
        names_fit(part_entries(parts@)) && sizes_fit(part_entries(parts@)) ==> zip_archive(r@) == Some(part_entries(parts@)),
{
    let ghost es = part_entries(parts@);
    let ghost fits = names_fit(es) && sizes_fit(es);
    let mut w = zip_writer_new();
    let mut i: usize = 0;
    while i < parts.len()
        invariant
            i <= parts@.len(),
            es == part_entries(parts@),
            fits == (names_fit(es) && sizes_fit(es)),
            zip_written(w) == part_entries(parts@.take(i as int)),
            part_entries(parts@.take(i as int)) == es.subrange(0, i as int),
            fits ==> zip_sound(w),
        decreases parts@.len() - i,
    {
        let (name, bytes) = parts[i];
        let ghost before = zip_written(w);
        proof {
            if fits {
                assert(es[i as int].0 == name@);
                assert forall|k: int| 0 <= k < before.len() implies #[trigger] before[k].0 != name@ by {
                    assert(before[k] == es[k]);
                }
                crate::opc::lemma_prefix_cost(es, i + 1);
                assert(es.subrange(0, i + 1).drop_last() =~= before);
            }
        }
        match zip_add_file(&mut w, name, bytes) {
            Ok(()) => {},
            Err(_) => {
                return Vec::new();
            },
        }
        assert(part_entries(parts@.take(i + 1)) =~= part_entries(parts@.take(i as int)).push((name@, ends_sep(name@), bytes@)));
        assert(part_entries(parts@.take(i + 1)) =~= es.subrange(0, i + 1));
        i = i + 1;
    }
    assert(parts@.take(parts@.len() as int) =~= parts@);
    match zip_finish(w) {
        Ok(b) => b,
        Err(_) => Vec::new(),
    }
}

/// The parts of [`memo_docx`], in order.
pub open spec fn memo_entries() -> Seq<EntryView> {
    seq![
        ("[Content_Types].xml"@, false, sbytes(CONTENT_TYPES)),
        ("_rels/.rels"@, false, sbytes(ROOT_RELS)),
        ("word/_rels/document.xml.rels"@, false, sbytes(DOC_RELS)),
        ("word/document.xml"@, false, sbytes(MEMO_DOCUMENT)),
        ("word/styles.xml"@, false, sbytes(STYLES)),
        ("customXml/unknown.txt"@, false, sbytes("paged preserves unknown parts")),
    ]
}

/// A document with a Normal paragraph, a centered `Heading1` paragraph, and a
/// paragraph mixing a plain run with a bold red run, plus a part the model
/// does not read (it must survive a save unchanged).
pub fn memo_docx() -> (r: Vec<u8>)
    ensures
        zipped(r@, memo_entries()),
        sizes_fit(memo_entries()) ==> zip_archive(r@) == Some(memo_entries()),
{
    let parts: [(&str, &[u8]); 6] = [
        ("[Content_Types].xml", CONTENT_TYPES.as_bytes()),
        ("_rels/.rels", ROOT_RELS.as_bytes()),
        ("word/_rels/document.xml.rels", DOC_RELS.as_bytes()),
        ("word/document.xml", MEMO_DOCUMENT.as_bytes()),
        ("word/styles.xml", STYLES.as_bytes()),
        ("customXml/unknown.txt", "paged preserves unknown parts".as_bytes()),
    ];
    let r = zip_parts(parts.as_slice());
    proof {
        broadcast use vstd::string::group_string_axioms;
        reveal_strlit("[Content_Types].xml");
        reveal_strlit("_rels/.rels");
        reveal_strlit("word/_rels/document.xml.rels");
        reveal_strlit("word/document.xml");
        reveal_strlit("word/styles.xml");
        reveal_strlit("customXml/unknown.txt");
        let es = memo_entries();
        assert forall|x: int, y: int| 0 <= x < y < es.len() implies es[x].0 != es[y].0 by {
            assert(x == 0 || x == 1 || x == 2 || x == 3 || x == 4);
            assert(y == 1 || y == 2 || y == 3 || y == 4 || y == 5);
            assert(es[x].0.len() != es[y].0.len());
        }
        lemma_names_fit(es);
        assert(part_entries(parts@) =~= memo_entries());
    }
    r
}

/// The parts of [`tier1_docx`], in order.
pub open spec fn tier1_entries() -> Seq<EntryView> {
    seq![
        ("[Content_Types].xml"@, false, sbytes(CONTENT_TYPES)),
        ("_rels/.rels"@, false, sbytes(ROOT_RELS)),
        ("word/_rels/document.xml.rels"@, false, sbytes(DOC_RELS)),
        ("word/document.xml"@, false, sbytes(TIER1_DOCUMENT)),
        ("word/styles.xml"@, false, sbytes(TIER1_STYLES)),
    ]
}

/// A document with document defaults (Calibri 11pt), a paragraph with tab
/// stops and keep-next, and runs with underline on and off.
pub fn tier1_docx() -> (r: Vec<u8>)
    ensures
        zipped(r@, tier1_entries()),
        sizes_fit(tier1_entries()) ==> zip_archive(r@) == Some(tier1_entries()),
{
    let parts: [(&str, &[u8]); 5] = [
        ("[Content_Types].xml", CONTENT_TYPES.as_bytes()),
        ("_rels/.rels", ROOT_RELS.as_bytes()),
        ("word/_rels/document.xml.rels", DOC_RELS.as_bytes()),
        ("word/document.xml", TIER1_DOCUMENT.as_bytes()),
        ("word/styles.xml", TIER1_STYLES.as_bytes()),
    ];
    let r = zip_parts(parts.as_slice());
    proof {
        broadcast use vstd::string::group_string_axioms;
        reveal_strlit("[Content_Types].xml");
        reveal_strlit("_rels/.rels");
        reveal_strlit("word/_rels/document.xml.rels");
        reveal_strlit("word/document.xml");
        reveal_strlit("word/styles.xml");
        let es = tier1_entries();
        assert forall|x: int, y: int| 0 <= x < y < es.len() implies es[x].0 != es[y].0 by {
            assert(x == 0 || x == 1 || x == 2 || x == 3);
            assert(y == 1 || y == 2 || y == 3 || y == 4);
            assert(es[x].0.len() != es[y].0.len());
        }
        lemma_names_fit(es);
        assert(part_entries(parts@) =~= tier1_entries());
    }
    r
}

/// The parts of [`list_docx`], in order.
pub open spec fn list_entries() -> Seq<EntryView> {
    seq![
        ("[Content_Types].xml"@, false, sbytes(LIST_CONTENT_TYPES)),
        ("_rels/.rels"@, false, sbytes(ROOT_RELS)),
        ("word/_rels/document.xml.rels"@, false, sbytes(LIST_DOC_RELS)),
        ("word/document.xml"@, false, sbytes(LIST_DOCUMENT)),
        ("word/numbering.xml"@, false, sbytes(LIST_NUMBERING)),
    ]
}

/// A document with a bullet list (numId 1) and a numbered list (numId 2,
/// decimal), plus the numbering part they resolve through.
pub fn list_docx() -> (r: Vec<u8>)
    ensures
        zipped(r@, list_entries()),
        sizes_fit(list_entries()) ==> zip_archive(r@) == Some(list_entries()),
{
    let parts: [(&str, &[u8]); 5] = [
        ("[Content_Types].xml", LIST_CONTENT_TYPES.as_bytes()),
        ("_rels/.rels", ROOT_RELS.as_bytes()),
        ("word/_rels/document.xml.rels", LIST_DOC_RELS.as_bytes()),
        ("word/document.xml", LIST_DOCUMENT.as_bytes()),
        ("word/numbering.xml", LIST_NUMBERING.as_bytes()),
    ];
    let r = zip_parts(parts.as_slice());
    proof {
        broadcast use vstd::string::group_string_axioms;
        reveal_strlit("[Content_Types].xml");
        reveal_strlit("_rels/.rels");
        reveal_strlit("word/_rels/document.xml.rels");
        reveal_strlit("word/document.xml");
        reveal_strlit("word/numbering.xml");
        let es = list_entries();
        assert forall|x: int, y: int| 0 <= x < y < es.len() implies es[x].0 != es[y].0 by {
            assert(x == 0 || x == 1 || x == 2 || x == 3);
            assert(y == 1 || y == 2 || y == 3 || y == 4);
            assert(es[x].0.len() != es[y].0.len());
        }
        lemma_names_fit(es);
        assert(part_entries(parts@) =~= list_entries());
    }
    r
}

/// The parts of [`table_docx`], in order.
pub open spec fn table_entries() -> Seq<EntryView> {
    seq![
        ("[Content_Types].xml"@, false, sbytes(PLAIN_CONTENT_TYPES)),
        ("_rels/.rels"@, false, sbytes(ROOT_RELS)),
        ("word/document.xml"@, false, sbytes(TABLE_DOCUMENT)),
    ]
}

/// A document with a two-column table exercising `gridSpan` (a spanning
/// title) and `vMerge` (a vertically merged cell).
pub fn table_docx() -> (r: Vec<u8>)
    ensures
        zipped(r@, table_entries()),
        sizes_fit(table_entries()) ==> zip_archive(r@) == Some(table_entries()),
{
    let parts: [(&str, &[u8]); 3] = [
        ("[Content_Types].xml", PLAIN_CONTENT_TYPES.as_bytes()),
        ("_rels/.rels", ROOT_RELS.as_bytes()),
        ("word/document.xml", TABLE_DOCUMENT.as_bytes()),
    ];
    let r = zip_parts(parts.as_slice());
    proof {
        broadcast use vstd::string::group_string_axioms;
        reveal_strlit("[Content_Types].xml");
        reveal_strlit("_rels/.rels");
        reveal_strlit("word/document.xml");
        let es = table_entries();
        assert forall|x: int, y: int| 0 <= x < y < es.len() implies es[x].0 != es[y].0 by {
            assert(x == 0 || x == 1);
            assert(y == 1 || y == 2);
            assert(es[x].0.len() != es[y].0.len());
        }
        lemma_names_fit(es);
        assert(part_entries(parts@) =~= table_entries());
    }
    r
}

/// The parts of [`image_docx`], in order.
pub open spec fn image_entries() -> Seq<EntryView> {
    seq![
        ("[Content_Types].xml"@, false, sbytes(IMAGE_CONTENT_TYPES)),
        ("_rels/.rels"@, false, sbytes(ROOT_RELS)),
        ("word/_rels/document.xml.rels"@, false, sbytes(IMAGE_DOC_RELS)),
        ("word/document.xml"@, false, sbytes(IMAGE_DOCUMENT)),
        ("word/media/image1.png"@, false, png_bytes()),
    ]
}

/// A document with an inline image and the `word/media/image1.png` part it
/// embeds.
pub fn image_docx() -> (r: Vec<u8>)
    ensures
        zipped(r@, image_entries()),
        sizes_fit(image_entries()) ==> zip_archive(r@) == Some(image_entries()),
{
    let png: [u8; 42] = [0x89u8, 0x50u8, 0x4eu8, 0x47u8, 0x0du8, 0x0au8, 0x1au8, 0x0au8, 0x2du8, 0x66u8, 0x61u8, 0x6bu8, 0x65u8, 0x2du8, 0x69u8, 0x6du8, 0x61u8, 0x67u8, 0x65u8, 0x2du8, 0x62u8, 0x79u8, 0x74u8, 0x65u8, 0x73u8, 0x2du8, 0x66u8, 0x6fu8, 0x72u8, 0x2du8, 0x63u8, 0x6fu8, 0x6eu8, 0x66u8, 0x6fu8, 0x72u8, 0x6du8, 0x61u8, 0x6eu8, 0x63u8, 0x65u8, 0x2du8];
    let parts: [(&str, &[u8]); 5] = [
        ("[Content_Types].xml", IMAGE_CONTENT_TYPES.as_bytes()),
        ("_rels/.rels", ROOT_RELS.as_bytes()),
        ("word/_rels/document.xml.rels", IMAGE_DOC_RELS.as_bytes()),
        ("word/document.xml", IMAGE_DOCUMENT.as_bytes()),
        ("word/media/image1.png", png.as_slice()),
    ];
    let r = zip_parts(parts.as_slice());
    proof {
        broadcast use vstd::string::group_string_axioms;
        reveal_strlit("[Content_Types].xml");
        reveal_strlit("_rels/.rels");
        reveal_strlit("word/_rels/document.xml.rels");
        reveal_strlit("word/document.xml");
        reveal_strlit("word/media/image1.png");
        let es = image_entries();
        assert forall|x: int, y: int| 0 <= x < y < es.len() implies es[x].0 != es[y].0 by {
            assert(x == 0 || x == 1 || x == 2 || x == 3);
            assert(y == 1 || y == 2 || y == 3 || y == 4);
            assert(es[x].0.len() != es[y].0.len());
        }
        lemma_names_fit(es);
        assert(part_entries(parts@) =~= image_entries());
    }
    r
}

/// The parts of [`hyperlink_docx`], in order.
pub open spec fn hyperlink_entries() -> Seq<EntryView> {
    seq![
        ("[Content_Types].xml"@, false, sbytes(PLAIN_CONTENT_TYPES)),
        ("_rels/.rels"@, false, sbytes(ROOT_RELS)),
        ("word/_rels/document.xml.rels"@, false, sbytes(HYPERLINK_DOC_RELS)),
        ("word/document.xml"@, false, sbytes(HYPERLINK_DOCUMENT)),
    ]
}

/// A document with an external hyperlink (`w:hyperlink r:id=..` to an
/// external relationship).
pub fn hyperlink_docx() -> (r: Vec<u8>)
    ensures
        zipped(r@, hyperlink_entries()),
        sizes_fit(hyperlink_entries()) ==> zip_archive(r@) == Some(hyperlink_entries()),
{
    let parts: [(&str, &[u8]); 4] = [
        ("[Content_Types].xml", PLAIN_CONTENT_TYPES.as_bytes()),
        ("_rels/.rels", ROOT_RELS.as_bytes()),
        ("word/_rels/document.xml.rels", HYPERLINK_DOC_RELS.as_bytes()),
        ("word/document.xml", HYPERLINK_DOCUMENT.as_bytes()),
    ];
    let r = zip_parts(parts.as_slice());
    proof {
        broadcast use vstd::string::group_string_axioms;
        reveal_strlit("[Content_Types].xml");
        reveal_strlit("_rels/.rels");
        reveal_strlit("word/_rels/document.xml.rels");
        reveal_strlit("word/document.xml");
        let es = hyperlink_entries();
        assert forall|x: int, y: int| 0 <= x < y < es.len() implies es[x].0 != es[y].0 by {
            assert(x == 0 || x == 1 || x == 2);
            assert(y == 1 || y == 2 || y == 3);
            assert(es[x].0.len() != es[y].0.len());
        }
        lemma_names_fit(es);
        assert(part_entries(parts@) =~= hyperlink_entries());
    }
    r
}

/// The parts of [`field_hyperlink_docx`], in order.
pub open spec fn field_hyperlink_entries() -> Seq<EntryView> {
    seq![
        ("[Content_Types].xml"@, false, sbytes(PLAIN_CONTENT_TYPES)),
        ("_rels/.rels"@, false, sbytes(ROOT_RELS)),
        ("word/document.xml"@, false, sbytes(FIELD_HYPERLINK_DOCUMENT)),
    ]
}

/// A document whose hyperlinks are fields: one complex field and one
/// `w:fldSimple`, both with a `HYPERLINK "url"` instruction.
pub fn field_hyperlink_docx() -> (r: Vec<u8>)
    ensures
        zipped(r@, field_hyperlink_entries()),
        sizes_fit(field_hyperlink_entries()) ==> zip_archive(r@) == Some(field_hyperlink_entries()),
{
    let parts: [(&str, &[u8]); 3] = [
        ("[Content_Types].xml", PLAIN_CONTENT_TYPES.as_bytes()),
        ("_rels/.rels", ROOT_RELS.as_bytes()),
        ("word/document.xml", FIELD_HYPERLINK_DOCUMENT.as_bytes()),
    ];
    let r = zip_parts(parts.as_slice());
    proof {
        broadcast use vstd::string::group_string_axioms;
        reveal_strlit("[Content_Types].xml");
        reveal_strlit("_rels/.rels");
        reveal_strlit("word/document.xml");
        let es = field_hyperlink_entries();
        assert forall|x: int, y: int| 0 <= x < y < es.len() implies es[x].0 != es[y].0 by {
            assert(x == 0 || x == 1);
            assert(y == 1 || y == 2);
            assert(es[x].0.len() != es[y].0.len());
        }
        lemma_names_fit(es);
        assert(part_entries(parts@) =~= field_hyperlink_entries());
    }
    r
}

/// The parts of [`footnote_docx`], in order.
pub open spec fn footnote_entries() -> Seq<EntryView> {
    seq![
        ("[Content_Types].xml"@, false, sbytes(FOOTNOTE_CONTENT_TYPES)),
        ("_rels/.rels"@, false, sbytes(ROOT_RELS)),
        ("word/_rels/document.xml.rels"@, false, sbytes(FOOTNOTE_DOC_RELS)),
        ("word/document.xml"@, false, sbytes(FOOTNOTE_DOCUMENT)),
        ("word/footnotes.xml"@, false, sbytes(FOOTNOTES)),
    ]
}

/// A document with a footnote reference and the footnotes part (with the two
/// separator pseudo-notes).
pub fn footnote_docx() -> (r: Vec<u8>)
    ensures
        zipped(r@, footnote_entries()),
        sizes_fit(footnote_entries()) ==> zip_archive(r@) == Some(footnote_entries()),
{
    let parts: [(&str, &[u8]); 5] = [
        ("[Content_Types].xml", FOOTNOTE_CONTENT_TYPES.as_bytes()),
        ("_rels/.rels", ROOT_RELS.as_bytes()),
        ("word/_rels/document.xml.rels", FOOTNOTE_DOC_RELS.as_bytes()),
        ("word/document.xml", FOOTNOTE_DOCUMENT.as_bytes()),
        ("word/footnotes.xml", FOOTNOTES.as_bytes()),
    ];
    let r = zip_parts(parts.as_slice());
    proof {
        broadcast use vstd::string::group_string_axioms;
        reveal_strlit("[Content_Types].xml");
        reveal_strlit("_rels/.rels");
        reveal_strlit("word/_rels/document.xml.rels");
        reveal_strlit("word/document.xml");
        reveal_strlit("word/footnotes.xml");
        let es = footnote_entries();
        assert forall|x: int, y: int| 0 <= x < y < es.len() implies es[x].0 != es[y].0 by {
            assert(x == 0 || x == 1 || x == 2 || x == 3);
            assert(y == 1 || y == 2 || y == 3 || y == 4);
            assert(es[x].0.len() != es[y].0.len());
        }
        lemma_names_fit(es);
        assert(part_entries(parts@) =~= footnote_entries());
    }
    r
}

/// The parts of [`simple_table_docx`], in order.
pub open spec fn simple_table_entries() -> Seq<EntryView> {
    seq![
        ("[Content_Types].xml"@, false, sbytes(PLAIN_CONTENT_TYPES)),
        ("_rels/.rels"@, false, sbytes(ROOT_RELS)),
        ("word/document.xml"@, false, sbytes(SIMPLE_TABLE_DOCUMENT)),
    ]
}

/// A plain 3 x 2 table (no merges), each row marked by a property the model
/// does not read.
pub fn simple_table_docx() -> (r: Vec<u8>)
    ensures
        zipped(r@, simple_table_entries()),
        sizes_fit(simple_table_entries()) ==> zip_archive(r@) == Some(simple_table_entries()),
{
    let parts: [(&str, &[u8]); 3] = [
        ("[Content_Types].xml", PLAIN_CONTENT_TYPES.as_bytes()),
        ("_rels/.rels", ROOT_RELS.as_bytes()),
        ("word/document.xml", SIMPLE_TABLE_DOCUMENT.as_bytes()),
    ];
    let r = zip_parts(parts.as_slice());
    proof {
        broadcast use vstd::string::group_string_axioms;
        reveal_strlit("[Content_Types].xml");
        reveal_strlit("_rels/.rels");
        reveal_strlit("word/document.xml");
        let es = simple_table_entries();
        assert forall|x: int, y: int| 0 <= x < y < es.len() implies es[x].0 != es[y].0 by {
            assert(x == 0 || x == 1);
            assert(y == 1 || y == 2);
            assert(es[x].0.len() != es[y].0.len());
        }
        lemma_names_fit(es);
        assert(part_entries(parts@) =~= simple_table_entries());
    }
    r
}

/// The parts of [`one_paragraph_docx`], in order.
pub open spec fn one_paragraph_entries() -> Seq<EntryView> {
    seq![
        ("[Content_Types].xml"@, false, sbytes(PLAIN_CONTENT_TYPES)),
        ("_rels/.rels"@, false, sbytes(ROOT_RELS)),
        ("word/document.xml"@, false, sbytes(ONE_PARAGRAPH_DOCUMENT)),
    ]
}

/// The smallest well-formed document: one paragraph, one run, no styles part.
pub fn one_paragraph_docx() -> (r: Vec<u8>)
    ensures
        zipped(r@, one_paragraph_entries()),
        sizes_fit(one_paragraph_entries()) ==> zip_archive(r@) == Some(one_paragraph_entries()),
{
    let parts: [(&str, &[u8]); 3] = [
        ("[Content_Types].xml", PLAIN_CONTENT_TYPES.as_bytes()),
        ("_rels/.rels", ROOT_RELS.as_bytes()),
        ("word/document.xml", ONE_PARAGRAPH_DOCUMENT.as_bytes()),
    ];
    let r = zip_parts(parts.as_slice());
    proof {
        broadcast use vstd::string::group_string_axioms;
        reveal_strlit("[Content_Types].xml");
        reveal_strlit("_rels/.rels");
        reveal_strlit("word/document.xml");
        let es = one_paragraph_entries();
        assert forall|x: int, y: int| 0 <= x < y < es.len() implies es[x].0 != es[y].0 by {
            assert(x == 0 || x == 1);
            assert(y == 1 || y == 2);
            assert(es[x].0.len() != es[y].0.len());
        }
        lemma_names_fit(es);
        assert(part_entries(parts@) =~= one_paragraph_entries());
    }
    r
}

} // verus!
