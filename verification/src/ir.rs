//! The lowered intermediate representation: what the host turns into document
//! mutations. Lengths are carried exactly, in twips (1/20 point); image sizes
//! in EMU; swatch channels as bytes. The host boundary renders them in points.

use vstd::prelude::*;
use crate::text::owned;

verus! {

/// Which style collection a lowered style belongs to.
#[derive(Debug, Clone, Copy, PartialEq, Eq, Structural)]
pub enum StyleCollection {
    Paragraph,
    Character,
}

/// A color to mint before styles reference it.
#[derive(Debug, Clone, PartialEq)]
pub struct LoweredSwatch {
    /// `Color/docx-RRGGBB`.
    pub id: String,
    pub name: String,
    /// The color space: `"RGB"`.
    pub space: String,
    /// Channel values `[r, g, b]`.
    pub value: Vec<u8>,
}

/// A tab stop, positioned in twips.
#[derive(Debug, Clone, PartialEq)]
pub struct LoweredTabStop {
    pub position: i64,
    pub alignment: Option<String>,
    pub alignment_character: Option<String>,
    pub leader: Option<String>,
}

/// A style property value. Lengths are in twips.
#[derive(Debug, Clone, PartialEq)]
pub enum PropValue {
    Text(String),
    Length(i64),
    Bool(bool),
    ColorRef(String),
    TabStops(Vec<LoweredTabStop>),
}

/// One style property assignment: a property path and its value.
#[derive(Debug, Clone, PartialEq)]
pub struct StyleProp {
    pub path: String,
    pub value: PropValue,
}

/// A native style to create: its token, display name, collection, parent
/// token and properties.
#[derive(Debug, Clone)]
pub struct LoweredStyle {
    pub id: String,
    pub name: String,
    pub collection: StyleCollection,
    pub based_on: Option<String>,
    pub props: Vec<StyleProp>,
}

/// An inline image: its size in EMU and a self-contained `data:` URI.
#[derive(Debug, Clone)]
pub struct LoweredImage {
    pub width_emu: i64,
    pub height_emu: i64,
    pub uri: String,
}

/// A paragraph: the style applied over it, its runs and inline images, and
/// the index of its source body block.
#[derive(Debug, Clone)]
pub struct LoweredParagraph {
    pub para_style_id: Option<String>,
    pub runs: Vec<LoweredRun>,
    pub images: Vec<LoweredImage>,
    pub source_index: u32,
}

/// One table cell at its resolved grid position, with its spans.
#[derive(Debug, Clone)]
pub struct LoweredCell {
    pub row: u32,
    pub col: u32,
    pub row_span: u32,
    pub col_span: u32,
    pub paragraphs: Vec<LoweredParagraph>,
}

/// A table: grid size, column widths (twips) and the cells that are not
/// absorbed by a vertical merge.
#[derive(Debug, Clone)]
pub struct LoweredTable {
    pub rows: u32,
    pub cols: u32,
    pub column_widths: Vec<i32>,
    pub cells: Vec<LoweredCell>,
}

/// One story block.
#[derive(Debug, Clone)]
pub enum LoweredBlock {
    Paragraph(LoweredParagraph),
    Table(LoweredTable),
}

/// The body as one story of blocks in document order.
#[derive(Debug, Clone)]
pub struct LoweredStory {
    pub blocks: Vec<LoweredBlock>,
}

/// The paragraph blocks of a story, in order.
pub open spec fn paragraph_blocks(bs: Seq<LoweredBlock>) -> Seq<LoweredParagraph>
    decreases bs.len(),
{
    if bs.len() == 0 {
        Seq::empty()
    } else {
        paragraph_blocks(bs.drop_last()) + match bs.last() {
            LoweredBlock::Paragraph(p) => seq![p],
            LoweredBlock::Table(_) => Seq::empty(),
        }
    }
}

impl LoweredStory {
    /// Just the paragraph blocks, in order (table blocks skipped).
    pub fn paragraphs(&self) -> (r: Vec<&LoweredParagraph>)
        ensures
            r@.len() == paragraph_blocks(self.blocks@).len(),
            forall|k: int| 0 <= k < r@.len() ==> *(#[trigger] r@[k]) == paragraph_blocks(self.blocks@)[k],
    {
        let mut out: Vec<&LoweredParagraph> = Vec::new();
        let mut i: usize = 0;
        assert(self.blocks@.take(0) =~= Seq::<LoweredBlock>::empty());
        while i < self.blocks.len()
            invariant
                i <= self.blocks@.len(),
                out@.len() == paragraph_blocks(self.blocks@.take(i as int)).len(),
                forall|k: int| 0 <= k < out@.len() ==> *(#[trigger] out@[k]) == paragraph_blocks(self.blocks@.take(i as int))[k],
            decreases self.blocks@.len() - i,
        {
            assert(self.blocks@.take(i + 1).drop_last() =~= self.blocks@.take(i as int));
            assert(self.blocks@.take(i + 1).last() == self.blocks@[i as int]);
            match &self.blocks[i] {
                LoweredBlock::Paragraph(p) => {
                    out.push(p);
                },
                LoweredBlock::Table(_) => {},
            }
            i = i + 1;
        }
        assert(self.blocks@.take(self.blocks@.len() as int) =~= self.blocks@);
        out
    }
}

/// Page geometry of the first section, in twips.
#[derive(Debug, Clone)]
pub struct LoweredSection {
    pub page_width: i32,
    pub page_height: i32,
    pub margin_top: i32,
    pub margin_bottom: i32,
    pub margin_left: i32,
    pub margin_right: i32,
    pub columns: u32,
}

impl Default for LoweredSection {
    /// US Letter, one-inch margins, one column (Word's default), in twips.
    fn default() -> (r: Self)
        ensures
            r.page_width == 12240 && r.page_height == 15840,
            r.margin_top == 1440 && r.margin_bottom == 1440 && r.margin_left == 1440 && r.margin_right == 1440,
            r.columns == 1,
    {
        LoweredSection {
            page_width: 12240,
            page_height: 15840,
            margin_top: 1440,
            margin_bottom: 1440,
            margin_left: 1440,
            margin_right: 1440,
            columns: 1,
        }
    }
}

/// The whole lowering of one document: swatches, styles (parents before
/// children), the story, the first section's geometry and diagnostics.
#[derive(Debug, Clone)]
pub struct LoweredDoc {
    pub swatches: Vec<LoweredSwatch>,
    pub styles: Vec<LoweredStyle>,
    pub story: LoweredStory,
    pub section: LoweredSection,
    pub diagnostics: Vec<Diagnostic>,
}

/// A lowered run: its text and the character-style token applied over it.
#[derive(Debug, Clone)]
pub struct LoweredRun {
    pub text: String,
    /// Full `CharacterStyle/…` token to apply over the run, or `None`.
    pub char_style_id: Option<String>,
}

impl Default for LoweredRun {
    fn default() -> (r: Self)
        ensures
            r.text@.len() == 0,
            r.char_style_id is None,
    {
        LoweredRun { text: String::new(), char_style_id: None }
    }
}

/// A diagnostic for a construct that is not lowered natively.
#[derive(Debug, Clone)]
pub struct Diagnostic {
    /// `"info" | "warning" | "error"`.
    pub severity: String,
    pub message: String,
    /// The fidelity tier the construct belongs to (0–4).
    pub tier: u8,
}

impl Diagnostic {
    /// An informational diagnostic.
    pub fn info(message: String, tier: u8) -> (d: Self)
        ensures
            d.severity@ == "info"@,
            d.message == message,
            d.tier == tier,
    {
        Diagnostic { severity: owned("info"), message, tier }
    }
}

/// The host's read-back of a story: paragraphs of runs with their applied
/// styles.
#[derive(Debug, Clone)]
pub struct StoryContentIn {
    pub self_id: String,
    pub paragraphs: Vec<ParagraphContentIn>,
}

/// One read-back paragraph.
#[derive(Debug, Clone)]
pub struct ParagraphContentIn {
    pub paragraph_style: Option<String>,
    pub runs: Vec<RunContentIn>,
}

/// One read-back run: its text and applied character style.
#[derive(Debug, Clone)]
pub struct RunContentIn {
    pub text: String,
    pub character_style: Option<String>,
}

} // verus!
