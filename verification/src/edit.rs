//! The edit model: what changed, keyed by lowered story coordinates (the same
//! `(block, run)` space the lowering and the host mutations use).

use vstd::prelude::*;
use crate::model::{ParaProps, RunProps};
use crate::text::owned;

verus! {

/// A set of edits to apply to one document: in-place run edits plus structural
/// insert/delete of runs, paragraphs and table rows. Every coordinate addresses
/// the unedited (baseline) document, so edits never shift each other.
#[derive(Debug, Clone)]
pub struct EditSet {
    /// In-place edits (text / properties) on existing runs.
    pub runs: Vec<RunEdit>,
    /// Insert/delete of runs, paragraphs and rows.
    pub structural: Vec<StructuralEdit>,
    /// In-place edits on table-cell runs, addressed by lowered
    /// `(block, cell, paragraph, run)`.
    pub cells: Vec<CellRunEdit>,
    /// In-place paragraph-property edits, addressed by lowered story block.
    pub paragraphs: Vec<ParaEdit>,
}

impl Default for EditSet {
    fn default() -> (r: Self)
        ensures
            r.runs@.len() == 0,
            r.structural@.len() == 0,
            r.cells@.len() == 0,
            r.paragraphs@.len() == 0,
    {
        EditSet { runs: Vec::new(), structural: Vec::new(), cells: Vec::new(), paragraphs: Vec::new() }
    }
}

/// One paragraph's `<w:pPr>` edit: its effective direct paragraph formatting
/// and the real Word `<w:pStyle>` it should carry.
#[derive(Debug, Clone)]
pub struct ParaEdit {
    pub block: usize,
    pub new_props: ParaProps,
    /// `Some(Some(id))` sets a real `<w:pStyle>`, `Some(None)` clears it.
    pub pstyle: Option<Option<String>>,
}

impl Default for ParaEdit {
    fn default() -> (r: Self)
        ensures
            r.block == 0,
            r.new_props.is_empty(),
            r.pstyle is None,
    {
        ParaEdit { block: 0, new_props: ParaProps::default(), pstyle: None }
    }
}

/// One table-cell run's edit. `block` is the lowered story block (the table),
/// `cell` its index in the lowered cell list, then the paragraph and run
/// within that cell.
#[derive(Debug, Clone)]
pub struct CellRunEdit {
    pub block: usize,
    pub cell: usize,
    pub para: usize,
    pub run: usize,
    pub new_text: Option<String>,
    pub new_props: Option<RunProps>,
    pub rstyle: Option<Option<String>>,
}

impl Default for CellRunEdit {
    fn default() -> (r: Self)
        ensures
            r.block == 0 && r.cell == 0 && r.para == 0 && r.run == 0,
            r.new_text is None,
            r.new_props is None,
            r.rstyle is None,
    {
        CellRunEdit { block: 0, cell: 0, para: 0, run: 0, new_text: None, new_props: None, rstyle: None }
    }
}

impl CellRunEdit {
    /// A pure text change on a cell run.
    pub fn text(block: usize, cell: usize, para: usize, run: usize, new_text: &str) -> (r: Self)
        ensures
            r.block == block && r.cell == cell && r.para == para && r.run == run,
            r.new_text matches Some(t) && t@ == new_text@,
            r.new_props is None,
            r.rstyle is None,
    {
        CellRunEdit { block, cell, para, run, new_text: Some(owned(new_text)), new_props: None, rstyle: None }
    }
}

/// A structural change. All indices address the baseline document.
#[derive(Debug, Clone)]
pub enum StructuralEdit {
    /// Remove the run's entire `<w:r>` subtree.
    DeleteRun { block: usize, run: usize },
    /// Insert a new `<w:r>` immediately after the given run (or at the start of
    /// the paragraph when `run` is `None`).
    InsertRun { block: usize, run: Option<usize>, text: String, props: RunProps, rstyle: Option<String> },
    /// Remove the paragraph's entire `<w:p>` subtree.
    DeleteParagraph { block: usize },
    /// Remove the `row`-th `<w:tr>` of the table at `block`.
    DeleteRow { block: usize, row: u32 },
    /// Insert a new `<w:tr>` immediately after the `after_row`-th row of the
    /// table at `block`, with one `<w:tc>` per entry of `cells` carrying its text.
    InsertRow { block: usize, after_row: u32, cells: Vec<String> },
    /// Insert a new `<w:p>` immediately after the given paragraph block, with a
    /// single run carrying `text`.
    InsertParagraph {
        block: usize,
        text: String,
        props: RunProps,
        para_style: Option<String>,
        rstyle: Option<String>,
    },
}

/// One run's edit, addressed by lowered story `block` index and lowered `run`
/// index within that block's paragraph. `None` fields are "unchanged".
#[derive(Debug, Clone)]
pub struct RunEdit {
    pub block: usize,
    pub run: usize,
    /// Replace the run's text (`Some`) — its single `<w:t>` is rewritten.
    pub new_text: Option<String>,
    /// Replace the run's effective direct character properties (`Some`) — its
    /// `<w:rPr>` is rewritten.
    pub new_props: Option<RunProps>,
    /// Set (`Some(Some(id))`) or clear (`Some(None)`) the `<w:rStyle>`; `None`
    /// leaves it untouched. Used only alongside `new_props`.
    pub rstyle: Option<Option<String>>,
}

impl Default for RunEdit {
    fn default() -> (r: Self)
        ensures
            r.block == 0 && r.run == 0,
            r.new_text is None,
            r.new_props is None,
            r.rstyle is None,
    {
        RunEdit { block: 0, run: 0, new_text: None, new_props: None, rstyle: None }
    }
}

impl RunEdit {
    /// A pure text change at `(block, run)`.
    pub fn text(block: usize, run: usize, new_text: &str) -> (r: Self)
        ensures
            r.block == block && r.run == run,
            r.new_text matches Some(t) && t@ == new_text@,
            r.new_props is None,
            r.rstyle is None,
    {
        RunEdit { block, run, new_text: Some(owned(new_text)), new_props: None, rstyle: None }
    }

    /// A pure character-property change at `(block, run)`.
    pub fn props(block: usize, run: usize, new_props: RunProps) -> (r: Self)
        ensures
            r.block == block && r.run == run,
            r.new_text is None,
            r.new_props == Some(new_props),
            r.rstyle is None,
    {
        RunEdit { block, run, new_text: None, new_props: Some(new_props), rstyle: None }
    }
}

} // verus!
