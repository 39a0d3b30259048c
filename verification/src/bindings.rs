//! The native↔OOXML provenance map, built once at import time. It resolves a
//! lowered story coordinate to the source `<w:p>`/`<w:r>` (or table
//! `<w:tbl>`/`<w:tr>`/`<w:tc>`/`<w:p>`) ordinals the byte-splice patcher
//! locates on.
//!
//! `blocks[i]` corresponds to lowered story block `i` (`doc.body[i]`). Within a
//! paragraph, run indices replay the lowering's filter (runs with text) so they
//! line up one for one with lowered runs; table cells follow the lowered cell
//! list (row-major, vertically merged continuation cells left out).

use vstd::prelude::*;
use crate::bytes::{sbytes, ubytes, utf8_str};
use crate::model::{Block, DocxDocument, Paragraph, Run, RunSource, StyleKind, TableCell, TableRow};
use crate::text::{append, owned};

verus! {

/// A lowered run's provenance.
#[derive(Debug, Clone, Copy, PartialEq, Eq, Structural)]
pub enum RunBinding {
    /// The `run_ord`-th direct `<w:r>` child of the paragraph — patchable.
    Direct { run_ord: u32 },
    /// A run with no stable direct-`<w:r>` provenance (hyperlink or
    /// field-flattened) — not patched.
    NonPatchable,
}

/// One lowered table cell's provenance: its row, its `<w:tc>` ordinal within
/// the row, and a run binding list per paragraph.
#[derive(Debug, Clone)]
pub struct CellBinding {
    pub row: u32,
    pub cell: u32,
    pub paras: Vec<Vec<RunBinding>>,
}

/// A cell binding as values.
pub type CellView = (u32, u32, Seq<Seq<RunBinding>>);

impl View for CellBinding {
    type V = CellView;

    open spec fn view(&self) -> CellView {
        (self.row, self.cell, self.paras@.map_values(|v: Vec<RunBinding>| v@))
    }
}

/// A lowered story block's provenance.
#[derive(Debug, Clone)]
pub enum BlockBinding {
    /// A body paragraph: its `<w:p>` ordinal and a binding per lowered run.
    Paragraph { para_ord: u32, runs: Vec<RunBinding> },
    /// A table: its `<w:tbl>` ordinal and a binding per lowered cell.
    Table { table_ord: u32, cells: Vec<CellBinding> },
}

/// A block binding as values.
pub enum BlockView {
    Paragraph(u32, Seq<RunBinding>),
    Table(u32, Seq<CellView>),
}

impl View for BlockBinding {
    type V = BlockView;

    open spec fn view(&self) -> BlockView {
        match self {
            BlockBinding::Paragraph { para_ord, runs } => BlockView::Paragraph(*para_ord, runs@),
            BlockBinding::Table { table_ord, cells } => BlockView::Table(
                *table_ord,
                cells@.map_values(|c: CellBinding| c@),
            ),
        }
    }
}

/// The provenance map for one document.
#[derive(Debug, Clone)]
pub struct DocxBindings {
    /// One entry per lowered story block, in order.
    pub blocks: Vec<BlockBinding>,
    /// Lowered character-style token → the original Word `styleId`, one entry
    /// per character style in catalog order (a later entry takes precedence).
    pub char_token_to_style_id: Vec<(String, String)>,
}

impl Default for DocxBindings {
    fn default() -> (r: Self)
        ensures
            r.blocks@.len() == 0,
            r.char_token_to_style_id@.len() == 0,
    {
        DocxBindings { blocks: Vec::new(), char_token_to_style_id: Vec::new() }
    }
}

/// The block bindings as values.
pub open spec fn block_views(v: Seq<BlockBinding>) -> Seq<BlockView> {
    v.map_values(|b: BlockBinding| b@)
}

/// The binding of one model run: a direct run that is not a link is patchable.
pub open spec fn run_binding_of(r: Run) -> RunBinding {
    match (r.source, r.hyperlink) {
        (Some(RunSource::DirectRun(n)), None) => RunBinding::Direct { run_ord: n },
        _ => RunBinding::NonPatchable,
    }
}

/// The bindings of a paragraph's runs, replaying the lowering filter: only
/// runs with text are lowered.
pub open spec fn run_bindings_of(runs: Seq<Run>) -> Seq<RunBinding>
    decreases runs.len(),
{
    if runs.len() == 0 {
        Seq::empty()
    } else {
        run_bindings_of(runs.drop_last()) + if runs.last().text@.len() > 0 {
            seq![run_binding_of(runs.last())]
        } else {
            Seq::empty()
        }
    }
}

/// The run bindings of each paragraph.
pub open spec fn para_bindings_of(ps: Seq<Paragraph>) -> Seq<Seq<RunBinding>> {
    ps.map_values(|p: Paragraph| run_bindings_of(p.runs@))
}

/// The lowered cells of one row (`row` is its index): every cell but the
/// vertically merged continuations, with its ordinal in the row.
pub open spec fn row_cells_of(row: int, cells: Seq<TableCell>) -> Seq<CellView>
    decreases cells.len(),
{
    if cells.len() == 0 {
        Seq::empty()
    } else {
        let c = cells.last();
        row_cells_of(row, cells.drop_last()) + if c.v_merge is Continue {
            Seq::empty()
        } else {
            seq![(row as u32, (cells.len() - 1) as u32, para_bindings_of(c.paragraphs@))]
        }
    }
}

/// The lowered cells of a table, row by row.
pub open spec fn table_cells_of(rows: Seq<TableRow>) -> Seq<CellView>
    decreases rows.len(),
{
    if rows.len() == 0 {
        Seq::empty()
    } else {
        table_cells_of(rows.drop_last()) + row_cells_of(rows.len() - 1, rows.last().cells@)
    }
}

/// How many tables precede block `i`.
pub open spec fn tables_before(body: Seq<Block>, i: int) -> nat
    decreases i,
{
    if i <= 0 {
        0
    } else {
        tables_before(body, i - 1) + if body[i - 1] is Table {
            1nat
        } else {
            0nat
        }
    }
}

/// The binding of body block `i`.
pub open spec fn block_binding_of(body: Seq<Block>, i: int) -> BlockView {
    match body[i] {
        Block::Paragraph(p) => BlockView::Paragraph(p.source_para_ord, run_bindings_of(p.runs@)),
        Block::Table(t) => BlockView::Table(tables_before(body, i) as u32, table_cells_of(t.rows@)),
    }
}

/// Bytes of an identifier kept in a lowered style token: ASCII letters and
/// digits.
pub open spec fn is_ascii_alnum(b: u8) -> bool {
    (0x30 <= b <= 0x39) || (0x41 <= b <= 0x5a) || (0x61 <= b <= 0x7a)
}

/// An identifier with every character that is not an ASCII letter or digit
/// replaced by `-` (one `-` per character, read from its UTF-8 bytes).
pub open spec fn sanitize_bytes(b: Seq<u8>) -> Seq<u8>
    decreases b.len(),
{
    if b.len() == 0 {
        Seq::empty()
    } else {
        let x = b.last();
        sanitize_bytes(b.drop_last()) + if vstd::utf8::is_continuation_byte(x) {
            Seq::empty()
        } else if is_ascii_alnum(x) {
            seq![x]
        } else {
            seq![0x2du8]
        }
    }
}

/// The lowered character-style token of a Word style id.
pub open spec fn char_token_of(style_id: Seq<u8>) -> Seq<u8> {
    sbytes("CharacterStyle/docx-") + sanitize_bytes(style_id)
}

/// The token → style id entries of a style catalog: its character styles in order.
pub open spec fn char_entries_of(styles: Seq<crate::model::Style>) -> Seq<(Seq<u8>, Seq<char>)>
    decreases styles.len(),
{
    if styles.len() == 0 {
        Seq::empty()
    } else {
        let s = styles.last();
        char_entries_of(styles.drop_last()) + if s.kind == StyleKind::Character {
            seq![(char_token_of(ubytes(s.style_id@)), s.style_id@)]
        } else {
            Seq::empty()
        }
    }
}

/// The token entries as values (token as UTF-8 bytes).
pub open spec fn token_entries(v: Seq<(String, String)>) -> Seq<(Seq<u8>, Seq<char>)> {
    v.map_values(|e: (String, String)| (ubytes(e.0@), e.1@))
}

/// ASCII bytes are well-formed UTF-8.
proof fn lemma_ascii_valid(b: Seq<u8>)
    requires
        forall|i: int| 0 <= i < b.len() ==> b[i] < 0x80,
    ensures
        vstd::utf8::valid_utf8(b),
{
    assert(b.subrange(0, 0) =~= Seq::<u8>::empty());
    assert(vstd::utf8::partial_valid_utf8(b, 0));
    vstd::utf8::partial_valid_utf8_extend_ascii_block(b, 0, b.len() as int);
    assert(b.subrange(0, b.len() as int) =~= b);
}

/// The lowered character-style token of a Word style id
/// (`CharacterStyle/docx-` followed by the sanitized id).
pub fn char_style_token(style_id: &str) -> (r: String)
    ensures
        ubytes(r@) == char_token_of(sbytes(style_id)),
{
    style_token("CharacterStyle/docx-", style_id)
}

/// A lowered style token: `prefix` followed by the sanitized id.
pub fn style_token(prefix: &str, style_id: &str) -> (r: String)
    ensures
        ubytes(r@) == sbytes(prefix) + sanitize_bytes(sbytes(style_id)),
{
    let b = style_id.as_bytes();
    let mut out: Vec<u8> = Vec::new();
    let mut i: usize = 0;
    while i < b.len()
        invariant
            i <= b@.len(),
            out@ == sanitize_bytes(b@.take(i as int)),
            forall|k: int| 0 <= k < out@.len() ==> out@[k] < 0x80,
        decreases b@.len() - i,
    {
        assert(b@.take(i + 1).drop_last() =~= b@.take(i as int));
        let x = b[i];
        if 0x80 <= x && x <= 0xbf {
        } else if (0x30 <= x && x <= 0x39) || (0x41 <= x && x <= 0x5a) || (0x61 <= x && x <= 0x7a) {
            out.push(x);
        } else {
            out.push(0x2du8);
        }
        i = i + 1;
    }
    assert(b@.take(b@.len() as int) =~= b@);
    proof { lemma_ascii_valid(out@); }
    let mut r = owned(prefix);
    match utf8_str(&out) {
        Some(s) => {
            append(&mut r, s);
            r
        },
        None => {
            assert(false);
            r
        },
    }
}

/// The bindings of a paragraph's runs (see [`run_bindings_of`]).
fn run_bindings(runs: &Vec<Run>) -> (r: Vec<RunBinding>)
    ensures
        r@ == run_bindings_of(runs@),
{
    let mut out: Vec<RunBinding> = Vec::new();
    let mut i: usize = 0;
    while i < runs.len()
        invariant
            i <= runs@.len(),
            out@ == run_bindings_of(runs@.take(i as int)),
        decreases runs@.len() - i,
    {
        assert(runs@.take(i + 1).drop_last() =~= runs@.take(i as int));
        let r = &runs[i];
        if r.text.as_str().as_bytes().len() > 0 {
            proof {
                if r.text@.len() == 0 {
                    assert(ubytes(r.text@) =~= Seq::<u8>::empty());
                }
            }
            let b = match (&r.source, &r.hyperlink) {
                (Some(RunSource::DirectRun(n)), None) => RunBinding::Direct { run_ord: *n },
                _ => RunBinding::NonPatchable,
            };
            out.push(b);
        } else {
            proof {
                if r.text@.len() > 0 {
                    assert(ubytes(r.text@).len() > 0) by {
                        reveal_with_fuel(vstd::utf8::encode_utf8, 1);
                    }
                }
            }
        }
        i = i + 1;
    }
    assert(runs@.take(runs@.len() as int) =~= runs@);
    out
}

/// The lowered cells of one row.
fn row_cell_bindings(row: usize, cells: &Vec<TableCell>, out: &mut Vec<CellBinding>)
    ensures
        final(out)@.map_values(|c: CellBinding| c@) == old(out)@.map_values(|c: CellBinding| c@)
            + row_cells_of(row as int, cells@),
{
    let ghost start = out@.map_values(|c: CellBinding| c@);
    let mut j: usize = 0;
    assert(cells@.take(0) =~= Seq::<TableCell>::empty());
    assert(start + row_cells_of(row as int, cells@.take(0)) =~= start);
    while j < cells.len()
        invariant
            j <= cells@.len(),
            out@.map_values(|c: CellBinding| c@) == start + row_cells_of(row as int, cells@.take(j as int)),
        decreases cells@.len() - j,
    {
        assert(cells@.take(j + 1).drop_last() =~= cells@.take(j as int));
        let c = &cells[j];
        let ghost before = out@.map_values(|c: CellBinding| c@);
        let cont = match c.v_merge {
            crate::model::VMerge::Continue => true,
            _ => false,
        };
        if !cont {
            let mut paras: Vec<Vec<RunBinding>> = Vec::new();
            let mut k: usize = 0;
            while k < c.paragraphs.len()
                invariant
                    k <= c.paragraphs@.len(),
                    paras@.len() == k,
                    forall|m: int| 0 <= m < k ==> #[trigger] paras@[m]@ == run_bindings_of(c.paragraphs@[m].runs@),
                decreases c.paragraphs@.len() - k,
            {
                paras.push(run_bindings(&c.paragraphs[k].runs));
                k = k + 1;
            }
            let cb = CellBinding { row: row as u32, cell: j as u32, paras };
            assert(cb@.2 =~= para_bindings_of(c.paragraphs@));
            out.push(cb);
            assert(out@.map_values(|c: CellBinding| c@) =~= before.push(cb@));
        } else {
            assert(out@.map_values(|c: CellBinding| c@) =~= before);
        }
        j = j + 1;
    }
    assert(cells@.take(cells@.len() as int) =~= cells@);
}

/// Build the bindings from the imported model. `Run.source` and
/// `Paragraph.source_para_ord` were stamped at import; here they are projected
/// onto lowered story coordinates.
pub fn build_bindings(doc: &DocxDocument) -> (r: DocxBindings)
    ensures
        block_views(r.blocks@).len() == doc.body@.len(),
        forall|i: int| 0 <= i < doc.body@.len() ==> #[trigger] block_views(r.blocks@)[i] == block_binding_of(doc.body@, i),
        token_entries(r.char_token_to_style_id@) == char_entries_of(doc.styles.styles@),
{
    let mut blocks: Vec<BlockBinding> = Vec::new();
    let mut tables: usize = 0;
    let mut i: usize = 0;
    while i < doc.body.len()
        invariant
            i <= doc.body@.len(),
            blocks@.len() == i,
            tables == tables_before(doc.body@, i as int),
            tables <= i,
            forall|k: int| 0 <= k < i ==> #[trigger] blocks@[k]@ == block_binding_of(doc.body@, k),
        decreases doc.body@.len() - i,
    {
        match &doc.body[i] {
            Block::Paragraph(p) => {
                blocks.push(BlockBinding::Paragraph { para_ord: p.source_para_ord, runs: run_bindings(&p.runs) });
            },
            Block::Table(t) => {
                let mut cells: Vec<CellBinding> = Vec::new();
                let mut rix: usize = 0;
                assert(t.rows@.take(0) =~= Seq::<TableRow>::empty());
                assert(cells@.map_values(|c: CellBinding| c@) =~= Seq::<CellView>::empty());
                while rix < t.rows.len()
                    invariant
                        rix <= t.rows@.len(),
                        cells@.map_values(|c: CellBinding| c@) == table_cells_of(t.rows@.take(rix as int)),
                    decreases t.rows@.len() - rix,
                {
                    assert(t.rows@.take(rix + 1).drop_last() =~= t.rows@.take(rix as int));
                    row_cell_bindings(rix, &t.rows[rix].cells, &mut cells);
                    rix = rix + 1;
                }
                assert(t.rows@.take(t.rows@.len() as int) =~= t.rows@);
                #[verifier::truncate]
                let ord = tables as u32;
                blocks.push(BlockBinding::Table { table_ord: ord, cells });
                tables = tables + 1;
            },
        }
        proof {
            assert(tables == tables_before(doc.body@, i + 1)) by {
                if doc.body@[i as int] is Table {
                    assert(tables_before(doc.body@, i + 1) == tables_before(doc.body@, i as int) + 1);
                }
            }
        }
        i = i + 1;
    }
    let ghost bv = block_views(blocks@);
    assert forall|i: int| 0 <= i < doc.body@.len() implies #[trigger] bv[i] == block_binding_of(doc.body@, i) by {
        assert(bv[i] == blocks@[i]@);
    }
    let styles = &doc.styles.styles;
    let mut entries: Vec<(String, String)> = Vec::new();
    let mut k: usize = 0;
    assert(styles@.take(0) =~= Seq::<crate::model::Style>::empty());
    assert(token_entries(entries@) =~= Seq::<(Seq<u8>, Seq<char>)>::empty());
    while k < styles.len()
        invariant
            k <= styles@.len(),
            token_entries(entries@) == char_entries_of(styles@.take(k as int)),
        decreases styles@.len() - k,
    {
        assert(styles@.take(k + 1).drop_last() =~= styles@.take(k as int));
        let s = &styles[k];
        let ghost before = token_entries(entries@);
        if s.kind == StyleKind::Character {
            let token = char_style_token(s.style_id.as_str());
            entries.push((token, s.style_id.clone()));
            assert(token_entries(entries@) =~= before.push((char_token_of(ubytes(s.style_id@)), s.style_id@)));
        } else {
            assert(token_entries(entries@) =~= before);
        }
        k = k + 1;
    }
    assert(styles@.take(styles@.len() as int) =~= styles@);
    DocxBindings { blocks, char_token_to_style_id: entries }
}

/// Where a lowered `(block, run)` lands: `(para_ord, run_ord)` when the block
/// is a paragraph and the run is a patchable direct run.
pub open spec fn resolve_spec(blocks: Seq<BlockView>, block: int, run: int) -> Option<(u32, u32)> {
    if 0 <= block < blocks.len() {
        match blocks[block] {
            BlockView::Paragraph(p, runs) => if 0 <= run < runs.len() {
                match runs[run] {
                    RunBinding::Direct { run_ord } => Some((p, run_ord)),
                    RunBinding::NonPatchable => None,
                }
            } else {
                None
            },
            BlockView::Table(..) => None,
        }
    } else {
        None
    }
}

/// The `<w:p>` ordinal of a paragraph block.
pub open spec fn para_ord_spec(blocks: Seq<BlockView>, block: int) -> Option<u32> {
    if 0 <= block < blocks.len() {
        match blocks[block] {
            BlockView::Paragraph(p, _) => Some(p),
            BlockView::Table(..) => None,
        }
    } else {
        None
    }
}

/// The `<w:tbl>` ordinal of a table block.
pub open spec fn table_ord_spec(blocks: Seq<BlockView>, block: int) -> Option<u32> {
    if 0 <= block < blocks.len() {
        match blocks[block] {
            BlockView::Table(t, _) => Some(t),
            BlockView::Paragraph(..) => None,
        }
    } else {
        None
    }
}

/// Where a lowered `(block, cell, para, run)` lands: `(table_ord, row, cell
/// ordinal, paragraph ordinal, run_ord)` for a patchable direct run of a table
/// cell.
pub open spec fn resolve_cell_spec(blocks: Seq<BlockView>, block: int, cell: int, para: int, run: int) -> Option<(u32, u32, u32, u32, u32)> {
    if 0 <= block < blocks.len() {
        match blocks[block] {
            BlockView::Table(t, cells) => if 0 <= cell < cells.len() && 0 <= para < cells[cell].2.len() && 0 <= run
                < cells[cell].2[para].len() {
                match cells[cell].2[para][run] {
                    RunBinding::Direct { run_ord } => Some((t, cells[cell].0, cells[cell].1, para as u32, run_ord)),
                    RunBinding::NonPatchable => None,
                }
            } else {
                None
            },
            BlockView::Paragraph(..) => None,
        }
    } else {
        None
    }
}

/// The last entry for a token, if any.
pub open spec fn style_for_token_spec(entries: Seq<(Seq<u8>, Seq<char>)>, token: Seq<u8>) -> Option<Seq<char>>
    decreases entries.len(),
{
    if entries.len() == 0 {
        None
    } else if entries.last().0 == token {
        Some(entries.last().1)
    } else {
        style_for_token_spec(entries.drop_last(), token)
    }
}

impl DocxBindings {
    /// Resolve a lowered `(block, run)` to `(para_ord, run_ord)` in the source
    /// document part, or `None` when the target is not patchable (a table, an
    /// out-of-range index, or a hyperlink/field run).
    pub fn resolve(&self, block: usize, run: usize) -> (r: Option<(u32, u32)>)
        ensures
            r == resolve_spec(block_views(self.blocks@), block as int, run as int),
    {
        if block >= self.blocks.len() {
            return None;
        }
        assert(block_views(self.blocks@)[block as int] == self.blocks@[block as int]@);
        match &self.blocks[block] {
            BlockBinding::Paragraph { para_ord, runs } => {
                if run >= runs.len() {
                    return None;
                }
                match runs[run] {
                    RunBinding::Direct { run_ord } => Some((*para_ord, run_ord)),
                    RunBinding::NonPatchable => None,
                }
            },
            BlockBinding::Table { .. } => None,
        }
    }

    /// The `<w:p>` ordinal of a paragraph block (`None` for a table or an
    /// out-of-range index).
    pub fn para_ord(&self, block: usize) -> (r: Option<u32>)
        ensures
            r == para_ord_spec(block_views(self.blocks@), block as int),
    {
        if block >= self.blocks.len() {
            return None;
        }
        assert(block_views(self.blocks@)[block as int] == self.blocks@[block as int]@);
        match &self.blocks[block] {
            BlockBinding::Paragraph { para_ord, .. } => Some(*para_ord),
            BlockBinding::Table { .. } => None,
        }
    }

    /// The `<w:tbl>` ordinal of a table block (`None` for a paragraph or an
    /// out-of-range index).
    pub fn table_ord(&self, block: usize) -> (r: Option<u32>)
        ensures
            r == table_ord_spec(block_views(self.blocks@), block as int),
    {
        if block >= self.blocks.len() {
            return None;
        }
        assert(block_views(self.blocks@)[block as int] == self.blocks@[block as int]@);
        match &self.blocks[block] {
            BlockBinding::Table { table_ord, .. } => Some(*table_ord),
            BlockBinding::Paragraph { .. } => None,
        }
    }

    /// Resolve a lowered table-cell run to its source path (see
    /// [`resolve_cell_spec`]).
    pub fn resolve_cell(&self, block: usize, cell: usize, para: usize, run: usize) -> (r: Option<(u32, u32, u32, u32, u32)>)
        ensures
            r == resolve_cell_spec(block_views(self.blocks@), block as int, cell as int, para as int, run as int),
    {
        if block >= self.blocks.len() {
            return None;
        }
        assert(block_views(self.blocks@)[block as int] == self.blocks@[block as int]@);
        match &self.blocks[block] {
            BlockBinding::Table { table_ord, cells } => {
                if cell >= cells.len() {
                    return None;
                }
                let c = &cells[cell];
                assert(cells@.map_values(|c: CellBinding| c@)[cell as int] == c@);
                if para >= c.paras.len() {
                    return None;
                }
                assert(c@.2[para as int] == c.paras@[para as int]@);
                if run >= c.paras[para].len() {
                    return None;
                }
                match c.paras[para][run] {
                    RunBinding::Direct { run_ord } => Some((*table_ord, c.row, c.cell, para as u32, run_ord)),
                    RunBinding::NonPatchable => None,
                }
            },
            BlockBinding::Paragraph { .. } => None,
        }
    }

    /// The Word style id a lowered character-style token came from.
    pub fn style_id_for_token(&self, token: &str) -> (r: Option<&String>)
        ensures
            style_for_token_spec(token_entries(self.char_token_to_style_id@), sbytes(token)) == match r {
                Some(s) => Some(s@),
                None => None,
            },
    {
        let ghost es = token_entries(self.char_token_to_style_id@);
        let mut i: usize = self.char_token_to_style_id.len();
        assert(es.take(es.len() as int) =~= es);
        while i > 0
            invariant
                i <= self.char_token_to_style_id@.len(),
                es == token_entries(self.char_token_to_style_id@),
                style_for_token_spec(es, sbytes(token)) == style_for_token_spec(es.take(i as int), sbytes(token)),
            decreases i,
        {
            let e = &self.char_token_to_style_id[i - 1];
            assert(es.take(i as int).drop_last() =~= es.take(i - 1));
            assert(es.take(i as int).last() == (ubytes(e.0@), e.1@));
            if crate::bytes::bytes_eq(e.0.as_str().as_bytes(), token.as_bytes()) {
                return Some(&e.1);
            }
            i = i - 1;
        }
        None
    }
}

/// The run bindings are those of the runs lowering keeps, one for one.
proof fn lemma_run_bindings_kept(runs: Seq<Run>)
    ensures
        run_bindings_of(runs) == crate::lower::kept_runs(runs).map_values(|r: Run| run_binding_of(r)),
    decreases runs.len(),
{
    if runs.len() > 0 {
        lemma_run_bindings_kept(runs.drop_last());
        let front = crate::lower::kept_runs(runs.drop_last());
        if runs.last().text@.len() > 0 {
            assert(crate::lower::kept_runs(runs) == front.push(runs.last()));
        } else {
            assert(crate::lower::kept_runs(runs) == front);
        }
        assert(run_bindings_of(runs) =~= crate::lower::kept_runs(runs).map_values(|r: Run| run_binding_of(r)));
    } else {
        assert(run_bindings_of(runs) =~= Seq::<RunBinding>::empty());
    }
}

/// The bindings line up with the lowering: for a body paragraph, its binding
/// names the paragraph's source ordinal and holds one run binding per run of
/// the lowered paragraph, the `k`-th that of the `k`-th run lowering kept
/// (a direct run by its ordinal, anything else not patchable).
pub proof fn law_bindings_follow_lowering(doc: DocxDocument, r: crate::ir::LoweredDoc, i: int)
    requires
        crate::lower::lowers(doc, r),
        0 <= i < doc.body@.len(),
        doc.body@[i] is Paragraph,
    ensures
        ({
            let p = doc.body@[i]->Paragraph_0;
            &&& r.story.blocks@[i] is Paragraph
            &&& block_binding_of(doc.body@, i) matches BlockView::Paragraph(ord, rbs) && ord == p.source_para_ord
                && rbs.len() == (r.story.blocks@[i]->Paragraph_0).runs@.len()
                && forall|k: int| 0 <= k < rbs.len() ==> #[trigger] rbs[k] == run_binding_of(crate::lower::kept_runs(p.runs@)[k])
        }),
{
    let p = doc.body@[i]->Paragraph_0;
    assert(crate::lower::block_lowered(r.story.blocks@[i], doc.body@[i], i, crate::lower::defaults_base(doc), r.styles@));
    lemma_run_bindings_kept(p.runs@);
}

} // verus!
