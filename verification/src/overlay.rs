//! The host's read-back of a story overlaid onto the import lowering: the
//! "edited" lowering that the differ compares against the baseline. The
//! read-back paragraphs map one for one onto the baseline's paragraph blocks
//! in order; each takes the read-back runs (text and applied character
//! style). Tables are left as they are, and paragraphs past the end of the
//! read-back keep their baseline runs.

use vstd::prelude::*;
use crate::diff::{block_v, blocks_v, cell_shape, ctx_of, run_id, run_ids, styles_v, swatches_v, table_shape, BlockV, RunId};
use crate::ir::{
    Diagnostic, LoweredBlock, LoweredCell, LoweredDoc, LoweredImage, LoweredParagraph, LoweredRun, LoweredSection,
    LoweredStory, LoweredStyle, LoweredSwatch, LoweredTable, ParagraphContentIn, RunContentIn, StoryContentIn,
};
use crate::lower::{copy_opt, copy_style, diags_view, opt_chars, style_view};

verus! {

/// A read-back run's identity: its text and applied character style.
pub open spec fn content_run(r: RunContentIn) -> RunId {
    (r.text@, opt_chars(r.character_style))
}

/// The run identities of each read-back paragraph.
pub open spec fn content_v(c: StoryContentIn) -> Seq<Seq<RunId>> {
    c.paragraphs@.map_values(|p: ParagraphContentIn| p.runs@.map_values(|r: RunContentIn| content_run(r)))
}

/// The number of paragraph blocks.
pub open spec fn para_count(bb: Seq<BlockV>) -> nat
    decreases bb.len(),
{
    if bb.len() == 0 {
        0
    } else {
        para_count(bb.drop_last()) + if bb.last() is Para { 1nat } else { 0nat }
    }
}

/// Block `k` after the overlay: the `i`-th paragraph block takes the
/// `i`-th read-back paragraph's runs, when there is one.
pub open spec fn overlay_block(bb: Seq<BlockV>, cp: Seq<Seq<RunId>>, k: int) -> BlockV {
    match bb[k] {
        BlockV::Para(runs) => {
            let i = para_count(bb.take(k));
            if i < cp.len() {
                BlockV::Para(cp[i as int])
            } else {
                BlockV::Para(runs)
            }
        },
        BlockV::Tab(t) => BlockV::Tab(t),
    }
}

/// The blocks after the overlay.
pub open spec fn overlay_spec(bb: Seq<BlockV>, cp: Seq<Seq<RunId>>) -> Seq<BlockV> {
    Seq::new(bb.len(), |k: int| overlay_block(bb, cp, k))
}

fn copy_run(r: &LoweredRun) -> (c: LoweredRun)
    ensures
        run_id(c) == run_id(*r),
{
    LoweredRun { text: r.text.clone(), char_style_id: copy_opt(&r.char_style_id) }
}

fn copy_runs(v: &Vec<LoweredRun>) -> (c: Vec<LoweredRun>)
    ensures
        run_ids(c@) == run_ids(v@),
{
    let mut out: Vec<LoweredRun> = Vec::new();
    let mut i: usize = 0;
    while i < v.len()
        invariant
            i <= v@.len(),
            run_ids(out@) == run_ids(v@.take(i as int)),
        decreases v@.len() - i,
    {
        let ghost before = out@;
        out.push(copy_run(&v[i]));
        assert(run_ids(out@) =~= run_ids(before).push(run_id(v@[i as int])));
        assert(v@.take(i + 1) =~= v@.take(i as int).push(v@[i as int]));
        assert(run_ids(v@.take(i + 1)) =~= run_ids(v@.take(i as int)).push(run_id(v@[i as int])));
        i = i + 1;
    }
    assert(v@.take(v@.len() as int) =~= v@);
    out
}

/// Inline images as values: size and URI.
pub open spec fn images_v(v: Seq<LoweredImage>) -> Seq<(i64, i64, Seq<char>)> {
    v.map_values(|m: LoweredImage| (m.width_emu, m.height_emu, m.uri@))
}

/// What the overlay keeps of a block: a paragraph's style, images and source
/// index; a table whole (its grid, widths and cells).
pub open spec fn same_frame(a: LoweredBlock, b: LoweredBlock) -> bool {
    match (a, b) {
        (LoweredBlock::Paragraph(x), LoweredBlock::Paragraph(y)) => opt_chars(x.para_style_id) == opt_chars(y.para_style_id)
            && images_v(x.images@) == images_v(y.images@) && x.source_index == y.source_index,
        (LoweredBlock::Table(x), LoweredBlock::Table(y)) => table_shape(x) == table_shape(y) && x.rows == y.rows && x.cols
            == y.cols && x.column_widths@ == y.column_widths@,
        _ => false,
    }
}

fn copy_images(v: &Vec<LoweredImage>) -> (c: Vec<LoweredImage>)
    ensures
        c@.len() == v@.len(),
        images_v(c@) == images_v(v@),
{
    let mut out: Vec<LoweredImage> = Vec::new();
    let mut i: usize = 0;
    while i < v.len()
        invariant
            i <= v@.len(),
            out@.len() == i,
            images_v(out@) == images_v(v@.take(i as int)),
        decreases v@.len() - i,
    {
        let ghost before = out@;
        out.push(LoweredImage { width_emu: v[i].width_emu, height_emu: v[i].height_emu, uri: v[i].uri.clone() });
        assert(images_v(out@) =~= images_v(before).push((v@[i as int].width_emu, v@[i as int].height_emu, v@[i as int].uri@)));
        assert(v@.take(i + 1) =~= v@.take(i as int).push(v@[i as int]));
        assert(images_v(v@.take(i + 1)) =~= images_v(v@.take(i as int)).push((v@[i as int].width_emu, v@[i as int].height_emu, v@[i as int].uri@)));
        i = i + 1;
    }
    assert(v@.take(v@.len() as int) =~= v@);
    out
}

fn copy_paragraph(p: &LoweredParagraph) -> (c: LoweredParagraph)
    ensures
        run_ids(c.runs@) == run_ids(p.runs@),
        opt_chars(c.para_style_id) == opt_chars(p.para_style_id),
        c.source_index == p.source_index,
        c.images@.len() == p.images@.len(),
        images_v(c.images@) == images_v(p.images@),
{
    LoweredParagraph {
        para_style_id: copy_opt(&p.para_style_id),
        runs: copy_runs(&p.runs),
        images: copy_images(&p.images),
        source_index: p.source_index,
    }
}

fn copy_cell(c: &LoweredCell) -> (r: LoweredCell)
    ensures
        cell_shape(r) == cell_shape(*c),
        r.row == c.row && r.col == c.col && r.row_span == c.row_span && r.col_span == c.col_span,
{
    let mut paras: Vec<LoweredParagraph> = Vec::new();
    let mut i: usize = 0;
    while i < c.paragraphs.len()
        invariant
            i <= c.paragraphs@.len(),
            paras@.len() == i,
            forall|k: int| 0 <= k < i ==> run_ids((#[trigger] paras@[k]).runs@) == run_ids(c.paragraphs@[k].runs@),
        decreases c.paragraphs@.len() - i,
    {
        paras.push(copy_paragraph(&c.paragraphs[i]));
        i = i + 1;
    }
    let r = LoweredCell { row: c.row, col: c.col, row_span: c.row_span, col_span: c.col_span, paragraphs: paras };
    assert(cell_shape(r) =~= cell_shape(*c));
    r
}

fn copy_table(t: &LoweredTable) -> (r: LoweredTable)
    ensures
        table_shape(r) == table_shape(*t),
        r.rows == t.rows && r.cols == t.cols,
        r.column_widths@ == t.column_widths@,
{
    let mut cells: Vec<LoweredCell> = Vec::new();
    let mut i: usize = 0;
    while i < t.cells.len()
        invariant
            i <= t.cells@.len(),
            cells@.len() == i,
            forall|k: int| 0 <= k < i ==> cell_shape(#[trigger] cells@[k]) == cell_shape(t.cells@[k]),
        decreases t.cells@.len() - i,
    {
        cells.push(copy_cell(&t.cells[i]));
        i = i + 1;
    }
    let mut widths: Vec<i32> = Vec::new();
    let mut w: usize = 0;
    while w < t.column_widths.len()
        invariant
            w <= t.column_widths@.len(),
            widths@ == t.column_widths@.take(w as int),
        decreases t.column_widths@.len() - w,
    {
        widths.push(t.column_widths[w]);
        assert(t.column_widths@.take(w + 1) =~= t.column_widths@.take(w as int).push(t.column_widths@[w as int]));
        w = w + 1;
    }
    assert(t.column_widths@.take(t.column_widths@.len() as int) =~= t.column_widths@);
    let r = LoweredTable { rows: t.rows, cols: t.cols, column_widths: widths, cells };
    assert(table_shape(r) =~= table_shape(*t));
    r
}

fn copy_swatches(v: &Vec<LoweredSwatch>) -> (c: Vec<LoweredSwatch>)
    ensures
        swatches_v(c@) == swatches_v(v@),
{
    let mut out: Vec<LoweredSwatch> = Vec::new();
    let mut i: usize = 0;
    while i < v.len()
        invariant
            i <= v@.len(),
            out@.len() == i,
            forall|k: int| 0 <= k < i ==> (#[trigger] out@[k]).id@ == v@[k].id@ && out@[k].value@ == v@[k].value@,
        decreases v@.len() - i,
    {
        let mut value: Vec<u8> = Vec::new();
        let mut q: usize = 0;
        while q < v[i].value.len()
            invariant
                i < v@.len(),
                q <= v@[i as int].value@.len(),
                value@ == v@[i as int].value@.take(q as int),
            decreases v@[i as int].value@.len() - q,
        {
            value.push(v[i].value[q]);
            assert(v@[i as int].value@.take(q + 1) =~= v@[i as int].value@.take(q as int).push(v@[i as int].value@[q as int]));
            q = q + 1;
        }
        assert(v@[i as int].value@.take(v@[i as int].value@.len() as int) =~= v@[i as int].value@);
        out.push(LoweredSwatch { id: v[i].id.clone(), name: v[i].name.clone(), space: v[i].space.clone(), value });
        i = i + 1;
    }
    assert(swatches_v(out@) =~= swatches_v(v@));
    out
}

fn copy_styles(v: &Vec<LoweredStyle>) -> (c: Vec<LoweredStyle>)
    ensures
        styles_v(c@) == styles_v(v@),
{
    let mut out: Vec<LoweredStyle> = Vec::new();
    let mut i: usize = 0;
    while i < v.len()
        invariant
            i <= v@.len(),
            out@.len() == i,
            forall|k: int| 0 <= k < i ==> style_view(#[trigger] out@[k]) == style_view(v@[k]),
        decreases v@.len() - i,
    {
        out.push(copy_style(&v[i]));
        i = i + 1;
    }
    assert(styles_v(out@) =~= styles_v(v@));
    out
}

fn copy_diagnostics(v: &Vec<Diagnostic>) -> (c: Vec<Diagnostic>)
    ensures
        c@.len() == v@.len(),
        diags_view(c@) == diags_view(v@),
{
    let mut out: Vec<Diagnostic> = Vec::new();
    let mut i: usize = 0;
    while i < v.len()
        invariant
            i <= v@.len(),
            out@.len() == i,
            diags_view(out@) == diags_view(v@.take(i as int)),
        decreases v@.len() - i,
    {
        let ghost before = out@;
        out.push(Diagnostic { severity: v[i].severity.clone(), message: v[i].message.clone(), tier: v[i].tier });
        assert(diags_view(out@) =~= diags_view(before).push((v@[i as int].severity@, v@[i as int].message@, v@[i as int].tier)));
        assert(v@.take(i + 1) =~= v@.take(i as int).push(v@[i as int]));
        assert(diags_view(v@.take(i + 1)) =~= diags_view(v@.take(i as int)).push((v@[i as int].severity@, v@[i as int].message@, v@[i as int].tier)));
        i = i + 1;
    }
    assert(v@.take(v@.len() as int) =~= v@);
    out
}

/// The runs of a read-back paragraph as lowered runs.
fn content_runs(p: &ParagraphContentIn) -> (r: Vec<LoweredRun>)
    ensures
        run_ids(r@) == p.runs@.map_values(|x: RunContentIn| content_run(x)),
{
    let mut out: Vec<LoweredRun> = Vec::new();
    let mut i: usize = 0;
    while i < p.runs.len()
        invariant
            i <= p.runs@.len(),
            run_ids(out@) == p.runs@.take(i as int).map_values(|x: RunContentIn| content_run(x)),
        decreases p.runs@.len() - i,
    {
        let ghost before = out@;
        out.push(LoweredRun { text: p.runs[i].text.clone(), char_style_id: copy_opt(&p.runs[i].character_style) });
        assert(run_ids(out@) =~= run_ids(before).push(content_run(p.runs@[i as int])));
        assert(p.runs@.take(i + 1) =~= p.runs@.take(i as int).push(p.runs@[i as int]));
        assert(p.runs@.take(i + 1).map_values(|x: RunContentIn| content_run(x)) =~= p.runs@.take(i as int).map_values(
            |x: RunContentIn| content_run(x),
        ).push(content_run(p.runs@[i as int])));
        i = i + 1;
    }
    assert(p.runs@.take(p.runs@.len() as int) =~= p.runs@);
    out
}

/// Overlay the read-back story onto the import `baseline`, producing the
/// edited lowering (see [`overlay_spec`]); styles and swatches are the
/// baseline's.
pub fn overlay_story_content(baseline: &LoweredDoc, content: &StoryContentIn) -> (edited: LoweredDoc)
    ensures
        ctx_of(edited) == ctx_of(*baseline),
        blocks_v(edited) == overlay_spec(blocks_v(*baseline), content_v(*content)),
        edited.section == baseline.section,
        diags_view(edited.diagnostics@) == diags_view(baseline.diagnostics@),
        edited.story.blocks@.len() == baseline.story.blocks@.len(),
        forall|q: int| 0 <= q < baseline.story.blocks@.len() ==> same_frame(#[trigger] edited.story.blocks@[q], baseline.story.blocks@[q]),
{
    let ghost bb = blocks_v(*baseline);
    let ghost cp = content_v(*content);
    let mut blocks: Vec<LoweredBlock> = Vec::new();
    let mut ci: usize = 0;
    let mut k: usize = 0;
    assert(bb.take(0) =~= Seq::<BlockV>::empty());
    while k < baseline.story.blocks.len()
        invariant
            k <= baseline.story.blocks@.len(),
            bb == blocks_v(*baseline),
            cp == content_v(*content),
            ci as int == para_count(bb.take(k as int)),
            ci <= k,
            blocks@.len() == k,
            forall|q: int| 0 <= q < k ==> block_v(#[trigger] blocks@[q]) == overlay_block(bb, cp, q),
            forall|q: int| 0 <= q < k ==> same_frame(#[trigger] blocks@[q], baseline.story.blocks@[q]),
        decreases baseline.story.blocks@.len() - k,
    {
        assert(bb[k as int] == block_v(baseline.story.blocks@[k as int]));
        assert(bb.take(k + 1).drop_last() =~= bb.take(k as int));
        assert(bb.take(k + 1).last() == bb[k as int]);
        match &baseline.story.blocks[k] {
            LoweredBlock::Paragraph(p) => {
                if ci < content.paragraphs.len() {
                    let runs = content_runs(&content.paragraphs[ci]);
                    assert(cp[ci as int] == content.paragraphs@[ci as int].runs@.map_values(|x: RunContentIn| content_run(x)));
                    blocks.push(LoweredBlock::Paragraph(LoweredParagraph {
                        para_style_id: copy_opt(&p.para_style_id),
                        runs,
                        images: copy_images(&p.images),
                        source_index: p.source_index,
                    }));
                } else {
                    blocks.push(LoweredBlock::Paragraph(copy_paragraph(p)));
                }
                ci = ci + 1;
            },
            LoweredBlock::Table(t) => {
                blocks.push(LoweredBlock::Table(copy_table(t)));
            },
        }
        k = k + 1;
    }
    let edited = LoweredDoc {
        swatches: copy_swatches(&baseline.swatches),
        styles: copy_styles(&baseline.styles),
        story: LoweredStory { blocks },
        section: LoweredSection {
            page_width: baseline.section.page_width,
            page_height: baseline.section.page_height,
            margin_top: baseline.section.margin_top,
            margin_bottom: baseline.section.margin_bottom,
            margin_left: baseline.section.margin_left,
            margin_right: baseline.section.margin_right,
            columns: baseline.section.columns,
        },
        diagnostics: copy_diagnostics(&baseline.diagnostics),
    };
    assert(blocks_v(edited) =~= overlay_spec(bb, cp));
    edited
}


/// The run identities of each paragraph block, in order: what a read-back
/// of the unedited story gives.
pub open spec fn para_runs(bb: Seq<BlockV>) -> Seq<Seq<RunId>>
    decreases bb.len(),
{
    if bb.len() == 0 {
        Seq::empty()
    } else {
        para_runs(bb.drop_last()) + match bb.last() {
            BlockV::Para(r) => seq![r],
            BlockV::Tab(_) => Seq::empty(),
        }
    }
}

proof fn lemma_para_runs(bb: Seq<BlockV>, k: int)
    requires
        0 <= k < bb.len(),
    ensures
        para_runs(bb).len() == para_count(bb),
        para_count(bb.take(k)) < para_count(bb) || !(bb[k] is Para),
        bb[k] matches BlockV::Para(r) ==> para_runs(bb)[para_count(bb.take(k)) as int] == r,
    decreases bb.len(),
{
    let last = bb.len() - 1;
    if k < last {
        lemma_para_runs(bb.drop_last(), k);
        assert(bb.drop_last().take(k) =~= bb.take(k));
        assert(bb.drop_last()[k] == bb[k]);
    } else {
        assert(bb.take(k) =~= bb.drop_last());
        if k > 0 {
            lemma_para_runs(bb.drop_last(), k - 1);
        } else {
            assert(bb.drop_last() =~= Seq::<BlockV>::empty());
        }
    }
}

/// A read-back of the unedited story changes nothing: overlaying each
/// paragraph block's own runs gives the blocks back.
pub proof fn law_identity_overlay(bb: Seq<BlockV>)
    ensures
        overlay_spec(bb, para_runs(bb)) == bb,
{
    assert forall|k: int| 0 <= k < bb.len() implies overlay_block(bb, para_runs(bb), k) == bb[k] by {
        lemma_para_runs(bb, k);
    }
    assert(overlay_spec(bb, para_runs(bb)) =~= bb);
}

/// The overlay keeps the number of blocks and every table block; the
/// paragraph block with `i` paragraph blocks before it takes the runs of the
/// `i`-th read-back paragraph when there is one, and keeps its own runs when
/// there is none.
pub proof fn law_overlay_takes_read_back_runs(bb: Seq<BlockV>, cp: Seq<Seq<RunId>>, k: int)
    requires
        0 <= k < bb.len(),
    ensures
        overlay_spec(bb, cp).len() == bb.len(),
        bb[k] is Tab ==> overlay_spec(bb, cp)[k] == bb[k],
        bb[k] is Para && para_count(bb.take(k)) < cp.len() ==> overlay_spec(bb, cp)[k] == BlockV::Para(cp[para_count(bb.take(k)) as int]),
        bb[k] is Para && para_count(bb.take(k)) >= cp.len() ==> overlay_spec(bb, cp)[k] == bb[k],
{
}

} // verus!
