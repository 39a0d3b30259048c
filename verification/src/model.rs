//! The semantic WordprocessingML model: the parts of a `.docx` that lowering and
//! save-back read — the body, the style catalog and section page geometry.
//!
//! Units are Word's own: twips (1/1440 inch) for lengths, half-points for font
//! sizes, `RRGGBB` hex for colors.

use vstd::prelude::*;

verus! {

/// A parsed Word document: body in reading order, style catalog, sections.
#[derive(Debug, Clone)]
pub struct DocxDocument {
    pub body: Vec<Block>,
    pub styles: StyleCatalog,
    pub sections: Vec<Section>,
}

impl Default for DocxDocument {
    fn default() -> (d: Self)
        ensures
            d.body@.len() == 0,
            d.sections@.len() == 0,
            d.styles.styles@.len() == 0,
    {
        DocxDocument { body: Vec::new(), styles: StyleCatalog::default(), sections: Vec::new() }
    }
}

/// A top-level body block.
#[derive(Debug, Clone)]
pub enum Block {
    /// A paragraph (`w:p`).
    Paragraph(Paragraph),
    /// A table (`w:tbl`).
    Table(Table),
}

/// Where a run came from in `word/document.xml`, for targeted save-back.
#[derive(Debug, Clone, Copy, PartialEq, Eq, Structural)]
pub enum RunSource {
    /// The n-th direct `<w:r>` child of its `<w:p>`.
    DirectRun(u32),
    /// The n-th `<w:r>` inside the paragraph's k-th `<w:hyperlink>` (k, n).
    HyperlinkRun(u32, u32),
}

/// A Word paragraph: applied style, direct properties, runs.
#[derive(Debug, Clone)]
pub struct Paragraph {
    pub style_id: Option<String>,
    pub props: ParaProps,
    pub runs: Vec<Run>,
    pub list: Option<ListMarker>,
    /// The paragraph's ordinal among the `<w:p>` children of `<w:body>`.
    pub source_para_ord: u32,
}

impl Default for Paragraph {
    fn default() -> (p: Self)
        ensures
            p.style_id is None,
            p.props.is_empty(),
            p.runs@.len() == 0,
            p.list is None,
            p.source_para_ord == 0,
    {
        Paragraph {
            style_id: None,
            props: ParaProps::default(),
            runs: Vec::new(),
            list: None,
            source_para_ord: 0,
        }
    }
}

/// A list marker resolved from `w:numPr` + `numbering.xml`.
#[derive(Debug, Clone)]
pub struct ListMarker {
    pub kind: ListKind,
    pub level: u8,
    pub bullet_char: Option<String>,
    pub number_format: Option<String>,
}

/// Bulleted or numbered list.
#[derive(Debug, Clone, Copy, PartialEq, Eq, Structural)]
pub enum ListKind {
    Bullet,
    Numbered,
}

/// A Word run: direct character formatting plus its text.
#[derive(Debug, Clone)]
pub struct Run {
    pub style_id: Option<String>,
    pub props: RunProps,
    /// Concatenated `w:t` text (tabs/breaks as `\t` / `\n`).
    pub text: String,
    pub image: Option<Image>,
    /// The resolved target when the run sits inside a `w:hyperlink`.
    pub hyperlink: Option<String>,
    pub source: Option<RunSource>,
}

impl Default for Run {
    fn default() -> (r: Self)
        ensures
            r.style_id is None,
            r.props.is_empty(),
            r.text@.len() == 0,
            r.image is None,
            r.hyperlink is None,
            r.source is None,
    {
        Run {
            style_id: None,
            props: RunProps::default(),
            text: String::new(),
            image: None,
            hyperlink: None,
            source: None,
        }
    }
}

/// An inline image with its media bytes and intrinsic size in EMU.
#[derive(Debug, Clone)]
pub struct Image {
    pub bytes: Vec<u8>,
    pub mime: String,
    pub width_emu: i64,
    pub height_emu: i64,
}

/// Direct paragraph formatting; `None` inherits. Lengths in twips.
#[derive(Debug, Clone, PartialEq)]
pub struct ParaProps {
    pub justification: Option<Justification>,
    pub left_indent: Option<i32>,
    pub right_indent: Option<i32>,
    pub first_line_indent: Option<i32>,
    /// A hanging indent, stored as a positive twip value.
    pub hanging_indent: Option<i32>,
    pub space_before: Option<i32>,
    pub space_after: Option<i32>,
    pub keep_next: Option<bool>,
    pub keep_lines: Option<bool>,
    pub tabs: Vec<TabStop>,
}

impl ParaProps {
    /// No property is set.
    pub open spec fn is_empty(&self) -> bool {
        &&& self.justification is None
        &&& self.left_indent is None
        &&& self.right_indent is None
        &&& self.first_line_indent is None
        &&& self.hanging_indent is None
        &&& self.space_before is None
        &&& self.space_after is None
        &&& self.keep_next is None
        &&& self.keep_lines is None
        &&& self.tabs@.len() == 0
    }
}

impl Default for ParaProps {
    fn default() -> (p: Self)
        ensures
            p.is_empty(),
    {
        ParaProps {
            justification: None,
            left_indent: None,
            right_indent: None,
            first_line_indent: None,
            hanging_indent: None,
            space_before: None,
            space_after: None,
            keep_next: None,
            keep_lines: None,
            tabs: Vec::new(),
        }
    }
}

/// A tab stop (`w:tab`).
#[derive(Debug, Clone, PartialEq)]
pub struct TabStop {
    pub position: i32,
    pub alignment: Option<String>,
    pub leader: Option<String>,
}

/// Direct character formatting; `None` inherits.
#[derive(Debug, Clone, PartialEq)]
pub struct RunProps {
    pub bold: Option<bool>,
    pub italic: Option<bool>,
    pub underline: Option<bool>,
    pub strike: Option<bool>,
    pub caps: Option<bool>,
    pub small_caps: Option<bool>,
    /// `RRGGBB`, never `auto`.
    pub color: Option<String>,
    pub size_half_pts: Option<u32>,
    pub font: Option<String>,
    pub vert_align: Option<VertAlign>,
    /// `w:position` — signed baseline shift in half-points.
    pub baseline_half_pts: Option<i32>,
}

impl RunProps {
    /// No property is set.
    pub open spec fn is_empty(&self) -> bool {
        &&& self.bold is None
        &&& self.italic is None
        &&& self.underline is None
        &&& self.strike is None
        &&& self.caps is None
        &&& self.small_caps is None
        &&& self.color is None
        &&& self.size_half_pts is None
        &&& self.font is None
        &&& self.vert_align is None
        &&& self.baseline_half_pts is None
    }

    /// True when no property is set (equal to the default).
    pub fn is_default(&self) -> (r: bool)
        ensures
            r == self.is_empty(),
    {
        self.bold.is_none() && self.italic.is_none() && self.underline.is_none()
            && self.strike.is_none() && self.caps.is_none() && self.small_caps.is_none()
            && self.color.is_none() && self.size_half_pts.is_none() && self.font.is_none()
            && self.vert_align.is_none() && self.baseline_half_pts.is_none()
    }
}

impl Default for RunProps {
    fn default() -> (p: Self)
        ensures
            p.is_empty(),
    {
        RunProps {
            bold: None,
            italic: None,
            underline: None,
            strike: None,
            caps: None,
            small_caps: None,
            color: None,
            size_half_pts: None,
            font: None,
            vert_align: None,
            baseline_half_pts: None,
        }
    }
}

/// Paragraph alignment (`w:jc`).
#[derive(Debug, Clone, Copy, PartialEq, Eq, Structural)]
pub enum Justification {
    Left,
    Center,
    Right,
    Both,
    Distribute,
    Start,
    End,
}

/// Run vertical alignment (`w:vertAlign`).
#[derive(Debug, Clone, Copy, PartialEq, Eq, Structural)]
pub enum VertAlign {
    Baseline,
    Superscript,
    Subscript,
}

/// The style catalog (`styles.xml`).
#[derive(Debug, Clone)]
pub struct StyleCatalog {
    pub doc_defaults: Defaults,
    pub styles: Vec<Style>,
}

impl Default for StyleCatalog {
    fn default() -> (c: Self)
        ensures
            c.styles@.len() == 0,
            c.doc_defaults.para.is_empty(),
            c.doc_defaults.run.is_empty(),
    {
        StyleCatalog { doc_defaults: Defaults::default(), styles: Vec::new() }
    }
}

/// `w:docDefaults`.
#[derive(Debug, Clone)]
pub struct Defaults {
    pub para: ParaProps,
    pub run: RunProps,
}

impl Default for Defaults {
    fn default() -> (d: Self)
        ensures
            d.para.is_empty(),
            d.run.is_empty(),
    {
        Defaults { para: ParaProps::default(), run: RunProps::default() }
    }
}

/// A named Word style (`w:style`).
#[derive(Debug, Clone)]
pub struct Style {
    pub style_id: String,
    pub name: Option<String>,
    pub kind: StyleKind,
    pub based_on: Option<String>,
    pub para: ParaProps,
    pub run: RunProps,
}

impl Default for Style {
    fn default() -> (s: Self)
        ensures
            s.style_id@.len() == 0,
            s.name is None,
            s.kind == StyleKind::Paragraph,
            s.based_on is None,
            s.para.is_empty(),
            s.run.is_empty(),
    {
        Style {
            style_id: String::new(),
            name: None,
            kind: StyleKind::Paragraph,
            based_on: None,
            para: ParaProps::default(),
            run: RunProps::default(),
        }
    }
}

/// `w:style/@w:type`.
#[derive(Debug, Clone, Copy, PartialEq, Eq, Structural)]
pub enum StyleKind {
    Paragraph,
    Character,
    Table,
    Numbering,
}

impl Default for StyleKind {
    fn default() -> (k: Self)
        ensures
            k == StyleKind::Paragraph,
    {
        StyleKind::Paragraph
    }
}

/// A table (`w:tbl`): column grid and rows.
#[derive(Debug, Clone)]
pub struct Table {
    /// `w:tblGrid/w:gridCol/@w:w` in twips.
    pub column_widths: Vec<i32>,
    pub rows: Vec<TableRow>,
}

/// A table row (`w:tr`).
#[derive(Debug, Clone)]
pub struct TableRow {
    pub cells: Vec<TableCell>,
}

/// A table cell (`w:tc`).
#[derive(Debug, Clone)]
pub struct TableCell {
    pub paragraphs: Vec<Paragraph>,
    /// `w:gridSpan` — horizontal span (default 1).
    pub grid_span: u32,
    pub v_merge: VMerge,
}

/// A cell's vertical-merge role (`w:vMerge`).
#[derive(Debug, Clone, Copy, PartialEq, Eq, Structural)]
pub enum VMerge {
    /// Not vertically merged.
    Unmerged,
    Restart,
    Continue,
}

/// Section page geometry (`w:sectPr`), in twips.
#[derive(Debug, Clone)]
pub struct Section {
    pub page_width: i32,
    pub page_height: i32,
    pub margin_top: i32,
    pub margin_bottom: i32,
    pub margin_left: i32,
    pub margin_right: i32,
    pub columns: u32,
}

impl Default for Section {
    /// US Letter, 1-inch margins, single column — Word's default when `sectPr`
    /// is absent.
    fn default() -> (s: Self)
        ensures
            s.page_width == 12240 && s.page_height == 15840,
            s.margin_top == 1440 && s.margin_bottom == 1440,
            s.margin_left == 1440 && s.margin_right == 1440,
            s.columns == 1,
    {
        Section {
            page_width: 12240,
            page_height: 15840,
            margin_top: 1440,
            margin_bottom: 1440,
            margin_left: 1440,
            margin_right: 1440,
            columns: 1,
        }
    }
}

} // verus!
