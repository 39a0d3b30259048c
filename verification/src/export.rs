//! Edited save-back: the targeted-patch export engine. `apply_edits` resolves
//! an [`EditSet`] (keyed by lowered story coordinates) through the bindings to
//! source ordinals, renders the replacement fragments, byte-splices only those
//! holes in the main document part, and writes the patched part back into the
//! package. Every other part, and every untouched byte, stays as it was.

use vstd::prelude::*;
use std::collections::BTreeMap;
use crate::bindings::{block_views, para_ord_spec, resolve_cell_spec, resolve_spec, table_ord_spec, BlockView, DocxBindings};
use crate::edit::{CellRunEdit, EditSet, ParaEdit, RunEdit, StructuralEdit};
use crate::error::OoxmlError;
use crate::opc::{part_of, set_part_of, OpcPackage};
use crate::bytes::{sbytes, ubytes};
use crate::lower::{copy_opt, opt_chars};
use crate::model::RunProps;
use crate::rpr::{cells_spec, opt_bytes, paragraph_spec, ppr_spec, render_paragraph, render_ppr, render_rpr, render_run, render_table_row, rpr_spec, run_spec, wt_spec};
use crate::splice::{cell_writes, holes_ok, para_writes, patch_document_xml_rows, patch_fragment, row_writes, spliced, target_writes, patch_holes, Acts, Hole, ResolvedCellTarget, ResolvedParaTarget, ResolvedRowTarget, ResolvedTarget, Wrapper};

verus! {

broadcast use vstd::std_specs::btree::group_btree_axioms;

/// Does a run edit resolve to a patchable run and change something?
pub open spec fn run_edit_works(b: Seq<BlockView>, e: RunEdit) -> bool {
    resolve_spec(b, e.block as int, e.run as int) is Some && (e.new_text is Some || e.new_props is Some)
}

/// Does a structural edit resolve to something in the source?
pub open spec fn structural_works(b: Seq<BlockView>, s: StructuralEdit) -> bool {
    match s {
        StructuralEdit::DeleteRun { block, run } => resolve_spec(b, block as int, run as int) is Some,
        StructuralEdit::InsertRun { block, run, .. } => match run {
            Some(r) => resolve_spec(b, block as int, r as int) is Some,
            None => para_ord_spec(b, block as int) is Some,
        },
        StructuralEdit::DeleteParagraph { block } => para_ord_spec(b, block as int) is Some,
        StructuralEdit::DeleteRow { block, .. } => table_ord_spec(b, block as int) is Some,
        StructuralEdit::InsertRow { block, .. } => table_ord_spec(b, block as int) is Some,
        StructuralEdit::InsertParagraph { block, .. } => para_ord_spec(b, block as int) is Some,
    }
}

/// Does a paragraph-property edit address a paragraph?
pub open spec fn para_edit_works(b: Seq<BlockView>, e: ParaEdit) -> bool {
    para_ord_spec(b, e.block as int) is Some
}

/// Does a cell edit resolve to a patchable cell run and change something?
pub open spec fn cell_edit_works(b: Seq<BlockView>, e: CellRunEdit) -> bool {
    resolve_cell_spec(b, e.block as int, e.cell as int, e.para as int, e.run as int) is Some && (e.new_text is Some
        || e.new_props is Some)
}

/// Is there anything in `edits` that reaches the source document? Edits that
/// resolve to nothing (tables for run edits, link runs, out-of-range indices)
/// are skipped.
pub open spec fn has_work(bindings: DocxBindings, edits: EditSet) -> bool {
    let b = block_views(bindings.blocks@);
    ||| exists|i: int| 0 <= i < edits.runs@.len() && run_edit_works(b, #[trigger] edits.runs@[i])
    ||| exists|i: int| 0 <= i < edits.structural@.len() && structural_works(b, #[trigger] edits.structural@[i])
    ||| exists|i: int| 0 <= i < edits.paragraphs@.len() && para_edit_works(b, #[trigger] edits.paragraphs@[i])
    ||| exists|i: int| 0 <= i < edits.cells@.len() && cell_edit_works(b, #[trigger] edits.cells@[i])
}

/// Does a map hold any entry?
pub open spec fn map_nonempty<K, V>(m: Map<K, V>) -> bool {
    exists|k: K| m.dom().contains(k)
}

/// The `rStyle` bytes an edit asks for: only `Some(Some(id))` names one.
pub open spec fn rstyle_bytes(r: Option<Option<String>>) -> Option<Seq<u8>> {
    match r {
        Some(Some(id)) => Some(ubytes(id@)),
        _ => None,
    }
}

/// A run edit writes its rendered `<w:t>` or `<w:rPr>`.
pub open spec fn run_edit_writes(e: RunEdit, h: Seq<u8>) -> bool {
    ||| (e.new_text matches Some(t) && h == wt_spec(ubytes(t@)))
    ||| (e.new_props matches Some(p) && h == rpr_spec(p, rstyle_bytes(e.rstyle)))
}

/// A cell edit writes its rendered `<w:t>` or `<w:rPr>`.
pub open spec fn cell_edit_writes(e: CellRunEdit, h: Seq<u8>) -> bool {
    ||| (e.new_text matches Some(t) && h == wt_spec(ubytes(t@)))
    ||| (e.new_props matches Some(p) && h == rpr_spec(p, rstyle_bytes(e.rstyle)))
}

/// A structural edit writes its rendered run, paragraph or row.
pub open spec fn structural_writes(s: StructuralEdit, h: Seq<u8>) -> bool {
    match s {
        StructuralEdit::InsertRun { text, props, rstyle, .. } => h == run_spec(ubytes(text@), props, opt_bytes(rstyle)),
        StructuralEdit::InsertParagraph { text, props, para_style, rstyle, .. } => h == paragraph_spec(
            ubytes(text@),
            props,
            opt_bytes(rstyle),
            opt_bytes(para_style),
        ),
        StructuralEdit::InsertRow { cells, .. } => h == sbytes("<w:tr>") + cells_spec(cells@) + sbytes("</w:tr>"),
        _ => false,
    }
}

/// A paragraph edit writes its rendered `<w:pPr>`.
pub open spec fn para_edit_writes(e: ParaEdit, h: Seq<u8>) -> bool {
    h == ppr_spec(e.new_props, rstyle_bytes(e.pstyle))
}

/// Bytes that rendering one of the edits gives.
pub open spec fn edit_fragment(h: Seq<u8>, edits: EditSet) -> bool {
    ||| exists|i: int| 0 <= i < edits.runs@.len() && #[trigger] run_edit_writes(edits.runs@[i], h)
    ||| exists|i: int| 0 <= i < edits.structural@.len() && #[trigger] structural_writes(edits.structural@[i], h)
    ||| exists|i: int| 0 <= i < edits.paragraphs@.len() && #[trigger] para_edit_writes(edits.paragraphs@[i], h)
    ||| exists|i: int| 0 <= i < edits.cells@.len() && #[trigger] cell_edit_writes(edits.cells@[i], h)
}

/// Everything the run targets write is a rendering of an edit.
pub open spec fn targets_ok(targets: Seq<ResolvedTarget>, edits: EditSet) -> bool {
    forall|i: int, h: Seq<u8>| 0 <= i < targets.len() && #[trigger] target_writes(targets[i], h) ==> edit_fragment(h, edits)
}

/// Everything the paragraph actions write is a rendering of an edit.
pub open spec fn paras_ok(paras: Map<u32, ResolvedParaTarget>, edits: EditSet) -> bool {
    forall|k: u32, h: Seq<u8>| paras.dom().contains(k) && #[trigger] para_writes(paras[k], h) ==> edit_fragment(h, edits)
}

/// Everything the row actions write is a rendering of an edit.
pub open spec fn rows_ok(rows: Map<(u32, u32), ResolvedRowTarget>, edits: EditSet) -> bool {
    forall|k: (u32, u32), h: Seq<u8>| rows.dom().contains(k) && #[trigger] row_writes(rows[k], h) ==> edit_fragment(h, edits)
}

/// Everything the cell targets write is a rendering of an edit.
pub open spec fn cells_ok(cells: Seq<ResolvedCellTarget>, edits: EditSet) -> bool {
    forall|i: int, h: Seq<u8>| 0 <= i < cells.len() && #[trigger] cell_writes(cells[i], h) ==> edit_fragment(h, edits)
}

/// A list of byte fragments as values.
pub open spec fn frags_v(v: Seq<Vec<u8>>) -> Seq<Seq<u8>> {
    v.map_values(|f: Vec<u8>| f@)
}

/// Optional bytes as values.
pub open spec fn obytes_v(v: Option<Vec<u8>>) -> Option<Seq<u8>> {
    match v {
        Some(b) => Some(b@),
        None => None,
    }
}

/// A run target as values: paragraph and run ordinals, new text, new
/// `<w:rPr>` bytes, delete flag, runs inserted after it, wrapper.
pub open spec fn target_v(t: ResolvedTarget) -> (u32, u32, Option<Seq<char>>, Option<Seq<u8>>, bool, Seq<Seq<u8>>, Option<Wrapper>) {
    (t.para_ord, t.run_ord, opt_chars(t.new_text), obytes_v(t.new_rpr), t.delete, frags_v(t.insert_after@), t.wrapper)
}

/// Run targets as values.
pub open spec fn targets_v(ts: Seq<ResolvedTarget>) -> Seq<(u32, u32, Option<Seq<char>>, Option<Seq<u8>>, bool, Seq<Seq<u8>>, Option<Wrapper>)> {
    ts.map_values(|t: ResolvedTarget| target_v(t))
}

/// A paragraph action as values: delete flag, paragraphs inserted after it,
/// runs prepended to it, new `<w:pPr>` bytes.
pub open spec fn para_v(t: ResolvedParaTarget) -> (bool, Seq<Seq<u8>>, Seq<Seq<u8>>, Option<Seq<u8>>) {
    (t.delete, frags_v(t.insert_after@), frags_v(t.prepend_runs@), obytes_v(t.new_ppr))
}

/// Paragraph actions as values.
pub open spec fn paras_v(m: Map<u32, ResolvedParaTarget>) -> Map<u32, (bool, Seq<Seq<u8>>, Seq<Seq<u8>>, Option<Seq<u8>>)> {
    Map::new(|k: u32| m.dom().contains(k), |k: u32| para_v(m[k]))
}

/// A cell target as values: table, row, cell, paragraph and run ordinals,
/// new text, new `<w:rPr>` bytes.
pub open spec fn cell_v(t: ResolvedCellTarget) -> (u32, u32, u32, u32, u32, Option<Seq<char>>, Option<Seq<u8>>) {
    (t.table_ord, t.row, t.cell, t.para, t.run_ord, opt_chars(t.new_text), obytes_v(t.new_rpr))
}

/// Cell targets as values.
pub open spec fn cells_v(cs: Seq<ResolvedCellTarget>) -> Seq<(u32, u32, u32, u32, u32, Option<Seq<char>>, Option<Seq<u8>>)> {
    cs.map_values(|t: ResolvedCellTarget| cell_v(t))
}

/// A row action as values: delete flag, rows inserted after it.
pub open spec fn row_v(t: ResolvedRowTarget) -> (bool, Seq<Seq<u8>>) {
    (t.delete, frags_v(t.insert_after@))
}

/// Row actions as values.
pub open spec fn rows_v(m: Map<(u32, u32), ResolvedRowTarget>) -> Map<(u32, u32), (bool, Seq<Seq<u8>>)> {
    Map::new(|k: (u32, u32)| m.dom().contains(k), |k: (u32, u32)| row_v(m[k]))
}

/// The `<w:rPr>` bytes an edit's properties render to.
pub open spec fn opt_rpr(p: Option<RunProps>, rs: Option<Option<String>>) -> Option<Seq<u8>> {
    match p {
        Some(props) => Some(rpr_spec(props, rstyle_bytes(rs))),
        None => None,
    }
}

/// The run targets the run edits resolve to, in order: one per edit that
/// reaches a run and changes something.
pub open spec fn run_targets(b: Seq<BlockView>, runs: Seq<RunEdit>) -> Seq<(u32, u32, Option<Seq<char>>, Option<Seq<u8>>, bool, Seq<Seq<u8>>, Option<Wrapper>)>
    decreases runs.len(),
{
    if runs.len() == 0 {
        Seq::empty()
    } else {
        let prev = run_targets(b, runs.drop_last());
        let e = runs.last();
        match resolve_spec(b, e.block as int, e.run as int) {
            Some((p, r)) => if e.new_text is Some || e.new_props is Some {
                prev.push((p, r, opt_chars(e.new_text), opt_rpr(e.new_props, e.rstyle), false, Seq::empty(), None))
            } else {
                prev
            },
            None => prev,
        }
    }
}

/// The first unwrapped target at or after `i` for run `r` of paragraph `p`.
pub open spec fn first_touch(ts: Seq<(u32, u32, Option<Seq<char>>, Option<Seq<u8>>, bool, Seq<Seq<u8>>, Option<Wrapper>)>, p: u32, r: u32, i: int) -> Option<int>
    decreases ts.len() - i,
{
    if i < 0 || i >= ts.len() {
        None
    } else if ts[i].0 == p && ts[i].1 == r && ts[i].6 is None {
        Some(i)
    } else {
        first_touch(ts, p, r, i + 1)
    }
}

/// Mark run `r` of paragraph `p` deleted (with `del`) and append `frag` to
/// what follows it: on its first unwrapped target, or on a new one.
pub open spec fn touch_spec(
    ts: Seq<(u32, u32, Option<Seq<char>>, Option<Seq<u8>>, bool, Seq<Seq<u8>>, Option<Wrapper>)>,
    p: u32,
    r: u32,
    del: bool,
    frag: Option<Seq<u8>>,
) -> Seq<(u32, u32, Option<Seq<char>>, Option<Seq<u8>>, bool, Seq<Seq<u8>>, Option<Wrapper>)> {
    let add = match frag {
        Some(f) => seq![f],
        None => Seq::empty(),
    };
    match first_touch(ts, p, r, 0) {
        Some(i) => ts.update(i, (ts[i].0, ts[i].1, ts[i].2, ts[i].3, ts[i].4 || del, ts[i].5 + add, ts[i].6)),
        None => ts.push((p, r, None, None, del, add, None)),
    }
}

/// The paragraph action at `p`, or a fresh one.
pub open spec fn para_at(m: Map<u32, (bool, Seq<Seq<u8>>, Seq<Seq<u8>>, Option<Seq<u8>>)>, p: u32) -> (bool, Seq<Seq<u8>>, Seq<Seq<u8>>, Option<Seq<u8>>) {
    if m.dom().contains(p) {
        m[p]
    } else {
        (false, Seq::empty(), Seq::empty(), None)
    }
}

/// The row action at `k`, or a fresh one.
pub open spec fn row_at(m: Map<(u32, u32), (bool, Seq<Seq<u8>>)>, k: (u32, u32)) -> (bool, Seq<Seq<u8>>) {
    if m.dom().contains(k) {
        m[k]
    } else {
        (false, Seq::empty())
    }
}

/// Run targets, paragraph actions and row actions as values.
pub type StructV = (
    Seq<(u32, u32, Option<Seq<char>>, Option<Seq<u8>>, bool, Seq<Seq<u8>>, Option<Wrapper>)>,
    Map<u32, (bool, Seq<Seq<u8>>, Seq<Seq<u8>>, Option<Seq<u8>>)>,
    Map<(u32, u32), (bool, Seq<Seq<u8>>)>,
);

/// What one structural edit does to the actions.
pub open spec fn struct_step(b: Seq<BlockView>, st: StructV, s: StructuralEdit) -> StructV {
    let (ts, m, rows) = st;
    match s {
        StructuralEdit::DeleteRun { block, run } => match resolve_spec(b, block as int, run as int) {
            Some((p, r)) => (touch_spec(ts, p, r, true, None), m, rows),
            None => st,
        },
        StructuralEdit::InsertRun { block, run, text, props, rstyle } => {
            let frag = run_spec(ubytes(text@), props, opt_bytes(rstyle));
            match run {
                Some(rr) => match resolve_spec(b, block as int, rr as int) {
                    Some((p, r)) => (touch_spec(ts, p, r, false, Some(frag)), m, rows),
                    None => st,
                },
                None => match para_ord_spec(b, block as int) {
                    Some(p) => {
                        let a = para_at(m, p);
                        (ts, m.insert(p, (a.0, a.1, a.2.push(frag), a.3)), rows)
                    },
                    None => st,
                },
            }
        },
        StructuralEdit::DeleteRow { block, row } => match table_ord_spec(b, block as int) {
            Some(t) => {
                let a = row_at(rows, (t, row));
                (ts, m, rows.insert((t, row), (true, a.1)))
            },
            None => st,
        },
        StructuralEdit::InsertRow { block, after_row, cells } => match table_ord_spec(b, block as int) {
            Some(t) => {
                let a = row_at(rows, (t, after_row));
                (ts, m, rows.insert((t, after_row), (a.0, a.1.push(sbytes("<w:tr>") + cells_spec(cells@) + sbytes("</w:tr>")))))
            },
            None => st,
        },
        StructuralEdit::DeleteParagraph { block } => match para_ord_spec(b, block as int) {
            Some(p) => {
                let a = para_at(m, p);
                (ts, m.insert(p, (true, a.1, a.2, a.3)), rows)
            },
            None => st,
        },
        StructuralEdit::InsertParagraph { block, text, props, para_style, rstyle } => match para_ord_spec(b, block as int) {
            Some(p) => {
                let a = para_at(m, p);
                let frag = paragraph_spec(ubytes(text@), props, opt_bytes(rstyle), opt_bytes(para_style));
                (ts, m.insert(p, (a.0, a.1.push(frag), a.2, a.3)), rows)
            },
            None => st,
        },
    }
}

/// The actions after the structural edits, in order, starting from `init`.
pub open spec fn struct_fold(b: Seq<BlockView>, s: Seq<StructuralEdit>, init: StructV) -> StructV
    decreases s.len(),
{
    if s.len() == 0 {
        init
    } else {
        struct_step(b, struct_fold(b, s.drop_last(), init), s.last())
    }
}

/// The paragraph actions after the paragraph-property edits, in order: each
/// edit that addresses a paragraph sets its new `<w:pPr>`.
pub open spec fn para_fold(b: Seq<BlockView>, es: Seq<ParaEdit>, init: Map<u32, (bool, Seq<Seq<u8>>, Seq<Seq<u8>>, Option<Seq<u8>>)>) -> Map<u32, (bool, Seq<Seq<u8>>, Seq<Seq<u8>>, Option<Seq<u8>>)>
    decreases es.len(),
{
    if es.len() == 0 {
        init
    } else {
        let m = para_fold(b, es.drop_last(), init);
        let e = es.last();
        match para_ord_spec(b, e.block as int) {
            Some(p) => {
                let a = para_at(m, p);
                m.insert(p, (a.0, a.1, a.2, Some(ppr_spec(e.new_props, rstyle_bytes(e.pstyle)))))
            },
            None => m,
        }
    }
}

/// The cell targets the cell edits resolve to, in order: one per edit that
/// reaches a cell run and changes something.
pub open spec fn cell_targets(b: Seq<BlockView>, es: Seq<CellRunEdit>) -> Seq<(u32, u32, u32, u32, u32, Option<Seq<char>>, Option<Seq<u8>>)>
    decreases es.len(),
{
    if es.len() == 0 {
        Seq::empty()
    } else {
        let prev = cell_targets(b, es.drop_last());
        let e = es.last();
        match resolve_cell_spec(b, e.block as int, e.cell as int, e.para as int, e.run as int) {
            Some((t, row, cell, para, run)) => if e.new_text is Some || e.new_props is Some {
                prev.push((t, row, cell, para, run, opt_chars(e.new_text), opt_rpr(e.new_props, e.rstyle)))
            } else {
                prev
            },
            None => prev,
        }
    }
}

/// The structural stage's result for `edits`.
pub open spec fn struct_of(b: Seq<BlockView>, edits: EditSet) -> StructV {
    struct_fold(b, edits.structural@, (run_targets(b, edits.runs@), Map::empty(), Map::empty()))
}

/// The patch actions `edits` resolve to through the bindings `b`: run
/// targets, paragraph actions, cell targets, row actions (as values).
pub open spec fn resolved_acts(b: Seq<BlockView>, edits: EditSet) -> (
    Seq<(u32, u32, Option<Seq<char>>, Option<Seq<u8>>, bool, Seq<Seq<u8>>, Option<Wrapper>)>,
    Map<u32, (bool, Seq<Seq<u8>>, Seq<Seq<u8>>, Option<Seq<u8>>)>,
    Seq<(u32, u32, u32, u32, u32, Option<Seq<char>>, Option<Seq<u8>>)>,
    Map<(u32, u32), (bool, Seq<Seq<u8>>)>,
) {
    let st = struct_of(b, edits);
    (st.0, para_fold(b, edits.paragraphs@, st.1), cell_targets(b, edits.cells@), st.2)
}

/// Actions whose values are those `edits` resolve to.
pub open spec fn acts_resolve(a: Acts, b: Seq<BlockView>, edits: EditSet) -> bool {
    (targets_v(a.0), paras_v(a.1), cells_v(a.2), rows_v(a.3)) == resolved_acts(b, edits)
}

/// A copy of a byte-fragment list.
fn copy_frags(v: &Vec<Vec<u8>>) -> (r: Vec<Vec<u8>>)
    ensures
        r@.len() == v@.len(),
        forall|j: int| 0 <= j < v@.len() ==> (#[trigger] r@[j])@ == v@[j]@,
{
    let mut out: Vec<Vec<u8>> = Vec::new();
    let mut i: usize = 0;
    while i < v.len()
        invariant
            i <= v@.len(),
            out@.len() == i,
            forall|j: int| 0 <= j < i ==> (#[trigger] out@[j])@ == v@[j]@,
        decreases v@.len() - i,
    {
        out.push(crate::bytes::to_vec(v[i].as_slice()));
        i = i + 1;
    }
    out
}

/// A copy of an optional byte fragment.
fn copy_frag(v: &Option<Vec<u8>>) -> (r: Option<Vec<u8>>)
    ensures
        match (r, *v) {
            (Some(a), Some(b)) => a@ == b@,
            (None, None) => true,
            _ => false,
        },
{
    match v {
        Some(b) => Some(crate::bytes::to_vec(b.as_slice())),
        None => None,
    }
}

/// The `rStyle` an edit asks for: only `Some(Some(id))` names one.
fn rstyle_of(r: &Option<Option<String>>) -> (s: Option<&str>)
    ensures
        match s {
            Some(x) => r matches Some(Some(id)) && x@ == id@,
            None => !(r matches Some(Some(_))),
        },
{
    match r {
        Some(Some(id)) => Some(id.as_str()),
        _ => None,
    }
}

/// Mark a run target for deletion or append an inserted fragment after it,
/// creating the target when the run has none yet.
fn touch_target(targets: &mut Vec<ResolvedTarget>, para_ord: u32, run_ord: u32, delete: bool, frag: Option<Vec<u8>>, Ghost(edits): Ghost<EditSet>)
    requires
        targets_ok(old(targets)@, edits),
        frag matches Some(f) ==> edit_fragment(f@, edits),
    ensures
        final(targets)@.len() > 0,
        targets_ok(final(targets)@, edits),
        targets_v(final(targets)@) == touch_spec(targets_v(old(targets)@), para_ord, run_ord, delete, obytes_v(frag)),
{
    let ghost tv = targets_v(targets@);
    let ghost fv = obytes_v(frag);
    let mut i: usize = 0;
    while i < targets.len()
        invariant
            i <= targets@.len(),
            targets@ == old(targets)@,
            tv == targets_v(targets@),
            fv == obytes_v(frag),
            first_touch(tv, para_ord, run_ord, 0) == first_touch(tv, para_ord, run_ord, i as int),
            targets_ok(targets@, edits),
            frag matches Some(f) ==> edit_fragment(f@, edits),
        decreases targets@.len() - i,
    {
        if targets[i].para_ord == para_ord && targets[i].run_ord == run_ord && targets[i].wrapper.is_none() {
            let old_t = &targets[i];
            let mut after = copy_frags(&old_t.insert_after);
            let ghost before = after@;
            if let Some(f) = frag {
                after.push(f);
            }
            let t = ResolvedTarget {
                para_ord: old_t.para_ord,
                run_ord: old_t.run_ord,
                new_text: copy_opt(&old_t.new_text),
                new_rpr: copy_frag(&old_t.new_rpr),
                delete: old_t.delete || delete,
                insert_after: after,
                wrapper: old_t.wrapper,
            };
            proof {
                let ot = old(targets)@[i as int];
                assert forall|h: Seq<u8>| #[trigger] target_writes(t, h) implies edit_fragment(h, edits) by {
                    if exists|j: int| 0 <= j < t.insert_after@.len() && h == (#[trigger] t.insert_after@[j])@ {
                        let j = choose|j: int| 0 <= j < t.insert_after@.len() && h == (#[trigger] t.insert_after@[j])@;
                        if j < before.len() {
                            assert(t.insert_after@[j] == before[j]);
                            assert(h == ot.insert_after@[j]@);
                            assert(target_writes(ot, h));
                            assert(edit_fragment(h, edits));
                        } else {
                            assert(frag is Some);
                            assert(h == frag->0@);
                            assert(edit_fragment(h, edits));
                        }
                    } else if t.new_text is Some && h == wt_spec(ubytes(t.new_text->0@)) {
                        assert(target_writes(ot, h));
                        assert(edit_fragment(h, edits));
                    } else {
                        assert(t.new_rpr is Some && h == t.new_rpr->0@);
                        assert(target_writes(ot, h));
                        assert(edit_fragment(h, edits));
                    }
                }
            }
            proof {
                let add = match fv {
                    Some(f) => seq![f],
                    None => Seq::<Seq<u8>>::empty(),
                };
                assert(tv[i as int] == target_v(old(targets)@[i as int]));
                assert(frags_v(before) =~= frags_v(old_t.insert_after@));
                assert(frags_v(t.insert_after@) =~= frags_v(old_t.insert_after@) + add);
                assert(target_v(t) == (tv[i as int].0, tv[i as int].1, tv[i as int].2, tv[i as int].3, tv[i as int].4 || delete, tv[i as int].5 + add, tv[i as int].6));
            }
            targets.set(i, t);
            proof {
                assert(targets_v(targets@) =~= tv.update(i as int, target_v(t)));
            }
            return;
        }
        proof {
            assert(tv[i as int] == target_v(targets@[i as int]));
        }
        i = i + 1;
    }
    let mut t = ResolvedTarget::edit(para_ord, run_ord);
    if delete {
        t.delete = true;
    }
    if let Some(f) = frag {
        t.insert_after.push(f);
    }
    proof {
        assert forall|h: Seq<u8>| #[trigger] target_writes(t, h) implies edit_fragment(h, edits) by {
            if exists|j: int| 0 <= j < t.insert_after@.len() && h == (#[trigger] t.insert_after@[j])@ {
                let j = choose|j: int| 0 <= j < t.insert_after@.len() && h == (#[trigger] t.insert_after@[j])@;
                assert(j == 0);
            }
        }
        let add = match fv {
            Some(f) => seq![f],
            None => Seq::<Seq<u8>>::empty(),
        };
        assert(frags_v(t.insert_after@) =~= add);
    }
    targets.push(t);
    proof {
        assert(targets_v(targets@) =~= tv.push(target_v(t)));
    }
}

/// The paragraph action at `p`, taken out of the map (a fresh one if absent).
fn take_para(paras: &mut BTreeMap<u32, ResolvedParaTarget>, p: u32) -> (t: ResolvedParaTarget)
    ensures
        final(paras)@ == old(paras)@.remove(p),
        old(paras)@.dom().contains(p) ==> t == old(paras)@[p],
        !old(paras)@.dom().contains(p) ==> forall|h: Seq<u8>| !(#[trigger] para_writes(t, h)),
        para_v(t) == para_at(paras_v(old(paras)@), p),
{
    match paras.remove(&p) {
        Some(t) => t,
        None => {
            assert(paras@ =~= old(paras)@.remove(p));
            let t = ResolvedParaTarget::default();
            assert(frags_v(t.insert_after@) =~= Seq::<Seq<u8>>::empty());
            assert(frags_v(t.prepend_runs@) =~= Seq::<Seq<u8>>::empty());
            t
        },
    }
}

/// The row action at `k`, taken out of the map (a fresh one if absent).
fn take_row(rows: &mut BTreeMap<(u32, u32), ResolvedRowTarget>, k: (u32, u32)) -> (t: ResolvedRowTarget)
    ensures
        final(rows)@ == old(rows)@.remove(k),
        old(rows)@.dom().contains(k) ==> t == old(rows)@[k],
        !old(rows)@.dom().contains(k) ==> forall|h: Seq<u8>| !(#[trigger] row_writes(t, h)),
        row_v(t) == row_at(rows_v(old(rows)@), k),
{
    match rows.remove(&k) {
        Some(t) => t,
        None => {
            assert(rows@ =~= old(rows)@.remove(k));
            let t = ResolvedRowTarget::default();
            assert(frags_v(t.insert_after@) =~= Seq::<Seq<u8>>::empty());
            t
        },
    }
}


/// Taking the paragraph action at `p` out and putting `t` in its place sets
/// the value at `p`.
proof fn lemma_paras_v_put(m: Map<u32, ResolvedParaTarget>, p: u32, t: ResolvedParaTarget)
    ensures
        paras_v(m.remove(p).insert(p, t)) == paras_v(m).insert(p, para_v(t)),
{
    assert(paras_v(m.remove(p).insert(p, t)) =~= paras_v(m).insert(p, para_v(t)));
}

/// The same for row actions.
proof fn lemma_rows_v_put(m: Map<(u32, u32), ResolvedRowTarget>, k: (u32, u32), t: ResolvedRowTarget)
    ensures
        rows_v(m.remove(k).insert(k, t)) == rows_v(m).insert(k, row_v(t)),
{
    assert(rows_v(m.remove(k).insert(k, t)) =~= rows_v(m).insert(k, row_v(t)));
}

/// A fragment of a list with one more fragment pushed is one of the list's,
/// or the new one.
proof fn lemma_pushed_frag(v: Seq<Vec<u8>>, f: Seq<u8>, w: Seq<Vec<u8>>, h: Seq<u8>)
    requires
        w.len() == v.len() + 1,
        forall|j: int| 0 <= j < v.len() ==> (#[trigger] w[j])@ == v[j]@,
        w[v.len() as int]@ == f,
        exists|j: int| 0 <= j < w.len() && h == (#[trigger] w[j])@,
    ensures
        h == f || exists|j: int| 0 <= j < v.len() && h == (#[trigger] v[j])@,
{
    let j = choose|j: int| 0 <= j < w.len() && h == (#[trigger] w[j])@;
    if j < v.len() {
        assert(h == v[j]@);
    }
}

/// Replacing the paragraph action at `p` by one that writes what the old
/// one did, plus renderings of edits, keeps every paragraph action's writes
/// renderings of edits.
proof fn lemma_paras_ok_set(m: Map<u32, ResolvedParaTarget>, p: u32, t_old: ResolvedParaTarget, t_new: ResolvedParaTarget, edits: EditSet)
    requires
        paras_ok(m, edits),
        m.dom().contains(p) ==> t_old == m[p],
        !m.dom().contains(p) ==> forall|h: Seq<u8>| !(#[trigger] para_writes(t_old, h)),
        forall|h: Seq<u8>| #[trigger] para_writes(t_new, h) ==> para_writes(t_old, h) || edit_fragment(h, edits),
    ensures
        paras_ok(m.remove(p).insert(p, t_new), edits),
{
    let n = m.remove(p).insert(p, t_new);
    assert forall|k: u32, h: Seq<u8>| n.dom().contains(k) && #[trigger] para_writes(n[k], h) implies edit_fragment(h, edits) by {
        if k == p {
            if para_writes(t_old, h) {
                assert(m.dom().contains(p));
                assert(para_writes(m[p], h));
            }
        } else {
            assert(n[k] == m[k]);
            assert(para_writes(m[k], h));
        }
    }
}

/// The same for row actions.
proof fn lemma_rows_ok_set(m: Map<(u32, u32), ResolvedRowTarget>, p: (u32, u32), t_old: ResolvedRowTarget, t_new: ResolvedRowTarget, edits: EditSet)
    requires
        rows_ok(m, edits),
        m.dom().contains(p) ==> t_old == m[p],
        !m.dom().contains(p) ==> forall|h: Seq<u8>| !(#[trigger] row_writes(t_old, h)),
        forall|h: Seq<u8>| #[trigger] row_writes(t_new, h) ==> row_writes(t_old, h) || edit_fragment(h, edits),
    ensures
        rows_ok(m.remove(p).insert(p, t_new), edits),
{
    let n = m.remove(p).insert(p, t_new);
    assert forall|k: (u32, u32), h: Seq<u8>| n.dom().contains(k) && #[trigger] row_writes(n[k], h) implies edit_fragment(h, edits) by {
        if k == p {
            if row_writes(t_old, h) {
                assert(m.dom().contains(p));
                assert(row_writes(m[p], h));
            }
        } else {
            assert(n[k] == m[k]);
            assert(row_writes(m[k], h));
        }
    }
}

/// Apply `edits` to `pkg`'s main document part in place. Edits that resolve
/// to nothing patchable are skipped; with nothing left the package is
/// untouched. Otherwise the main part (which must exist) is replaced by the
/// patch of itself with the actions the edits resolve to (see
/// [`resolved_acts`] and [`crate::splice::patch_holes`]) — a byte-splice
/// that keeps every byte outside the rewritten ranges — and every other part
/// stays as it was.
pub fn apply_edits(pkg: &mut OpcPackage, main_part: &str, bindings: &DocxBindings, edits: &EditSet) -> (r: Result<(), OoxmlError>)
    ensures
        !has_work(*bindings, *edits) ==> r is Ok && final(pkg)@ == old(pkg)@,
        has_work(*bindings, *edits) ==> match part_of(old(pkg)@, main_part@) {
            None => r matches Err(OoxmlError::MissingPart(n)) && n@ == main_part@ && final(pkg)@ == old(pkg)@,
            Some(src) => r is Ok && exists|holes: Seq<Hole>|
                holes_ok(src.len() as int, holes) && final(pkg)@ == set_part_of(old(pkg)@, main_part@, spliced(src, holes))
                    && forall|k: int| 0 <= k < holes.len() ==> (#[trigger] holes[k]).2.len() == 0 || edit_fragment(holes[k].2, *edits),
        },
        has_work(*bindings, *edits) ==> (part_of(old(pkg)@, main_part@) matches Some(src) ==> exists|a: Acts|
            acts_resolve(a, block_views(bindings.blocks@), *edits) && final(pkg)@ == set_part_of(
                old(pkg)@,
                main_part@,
                spliced(src, patch_holes(src, a)),
            )),
{
    let ghost b = block_views(bindings.blocks@);
    let mut targets: Vec<ResolvedTarget> = Vec::new();
    let mut k: usize = 0;
    while k < edits.runs.len()
        invariant
            k <= edits.runs@.len(),
            b == block_views(bindings.blocks@),
            targets@.len() > 0 <==> exists|i: int| 0 <= i < k && run_edit_works(b, #[trigger] edits.runs@[i]),
            targets_ok(targets@, *edits),
            targets_v(targets@) == run_targets(b, edits.runs@.take(k as int)),
        decreases edits.runs@.len() - k,
    {
        let e = &edits.runs[k];
        proof {
            assert(edits.runs@.take(k + 1).drop_last() =~= edits.runs@.take(k as int));
        }
        if let Some((p, r)) = bindings.resolve(e.block, e.run) {
            if e.new_text.is_some() || e.new_props.is_some() {
                let new_rpr = match &e.new_props {
                    Some(props) => Some(render_rpr(props, rstyle_of(&e.rstyle))),
                    None => None,
                };
                let t = ResolvedTarget {
                    para_ord: p,
                    run_ord: r,
                    new_text: copy_opt(&e.new_text),
                    new_rpr,
                    delete: false,
                    insert_after: Vec::new(),
                    wrapper: None,
                };
                proof {
                    assert forall|h: Seq<u8>| #[trigger] target_writes(t, h) implies edit_fragment(h, *edits) by {
                        assert(run_edit_writes(edits.runs@[k as int], h));
                    }
                }
                let ghost t0 = targets@;
                proof {
                    assert(frags_v(t.insert_after@) =~= Seq::<Seq<u8>>::empty());
                }
                targets.push(t);
                proof {
                    assert(targets_v(targets@) =~= targets_v(t0).push(target_v(t)));
                    assert forall|i: int, h: Seq<u8>| 0 <= i < targets@.len() && #[trigger] target_writes(targets@[i], h) implies edit_fragment(h, *edits) by {
                        if i < t0.len() {
                            assert(targets@[i] == t0[i]);
                        }
                    }
                }
                assert(run_edit_works(b, edits.runs@[k as int]));
            }
        }
        k = k + 1;
    }
    let ghost run_work = exists|i: int| 0 <= i < edits.runs@.len() && run_edit_works(b, #[trigger] edits.runs@[i]);
    let mut paras: BTreeMap<u32, ResolvedParaTarget> = BTreeMap::new();
    let mut rows: BTreeMap<(u32, u32), ResolvedRowTarget> = BTreeMap::new();
    proof {
        assert(edits.runs@.take(edits.runs@.len() as int) =~= edits.runs@);
        assert(paras_v(paras@) =~= Map::empty());
        assert(rows_v(rows@) =~= Map::empty());
        assert(edits.structural@.take(0) =~= Seq::<StructuralEdit>::empty());
    }
    let mut j: usize = 0;
    while j < edits.structural.len()
        invariant
            j <= edits.structural@.len(),
            b == block_views(bindings.blocks@),
            run_work == exists|i: int| 0 <= i < edits.runs@.len() && run_edit_works(b, #[trigger] edits.runs@[i]),
            (targets@.len() > 0 || map_nonempty(paras@) || map_nonempty(rows@)) <==> (run_work || exists|i: int|
                0 <= i < j && structural_works(b, #[trigger] edits.structural@[i])),
            targets_ok(targets@, *edits),
            paras_ok(paras@, *edits),
            rows_ok(rows@, *edits),
            (targets_v(targets@), paras_v(paras@), rows_v(rows@)) == struct_fold(
                b,
                edits.structural@.take(j as int),
                (run_targets(b, edits.runs@), Map::empty(), Map::empty()),
            ),
        decreases edits.structural@.len() - j,
    {
        let s = &edits.structural[j];
        let ghost st0 = (targets_v(targets@), paras_v(paras@), rows_v(rows@));
        proof {
            assert(edits.structural@.take(j + 1).drop_last() =~= edits.structural@.take(j as int));
        }
        let ghost works = structural_works(b, edits.structural@[j as int]);
        match s {
            StructuralEdit::DeleteRun { block, run } => {
                if let Some((p, r)) = bindings.resolve(*block, *run) {
                    touch_target(&mut targets, p, r, true, None, Ghost(*edits));
                }
            },
            StructuralEdit::InsertRun { block, run, text, props, rstyle } => {
                let rs: Option<&str> = match rstyle {
                    Some(x) => Some(x.as_str()),
                    None => None,
                };
                let frag = render_run(text.as_str(), props, rs);
                assert(structural_writes(edits.structural@[j as int], frag@));
                match run {
                    Some(run) => {
                        if let Some((p, r)) = bindings.resolve(*block, *run) {
                            touch_target(&mut targets, p, r, false, Some(frag), Ghost(*edits));
                        }
                    },
                    None => {
                        if let Some(p) = bindings.para_ord(*block) {
                            let ghost m0 = paras@;
                            let mut t = take_para(&mut paras, p);
                            let ghost t_old = t;
                            let ghost fv = frag@;
                            t.prepend_runs.push(frag);
                            proof {
                                assert forall|h: Seq<u8>| #[trigger] para_writes(t, h) implies para_writes(t_old, h) || edit_fragment(h, *edits) by {
                                    if exists|q: int| 0 <= q < t.prepend_runs@.len() && h == (#[trigger] t.prepend_runs@[q])@ {
                                        lemma_pushed_frag(t_old.prepend_runs@, fv, t.prepend_runs@, h);
                                    }
                                }
                                lemma_paras_ok_set(m0, p, t_old, t, *edits);
                            }
                            paras.insert(p, t);
                            assert(paras@.dom().contains(p));
                            proof {
                                lemma_paras_v_put(m0, p, t);
                                assert(frags_v(t.prepend_runs@) =~= frags_v(t_old.prepend_runs@).push(fv));
                            }
                        }
                    },
                }
            },
            StructuralEdit::DeleteRow { block, row } => {
                if let Some(t) = bindings.table_ord(*block) {
                    let ghost m0 = rows@;
                    let mut rt = take_row(&mut rows, (t, *row));
                    let ghost t_old = rt;
                    rt.delete = true;
                    proof {
                        lemma_rows_ok_set(m0, (t, *row), t_old, rt, *edits);
                    }
                    rows.insert((t, *row), rt);
                    assert(rows@.dom().contains((t, *row)));
                    proof {
                        lemma_rows_v_put(m0, (t, *row), rt);
                    }
                }
            },
            StructuralEdit::InsertRow { block, after_row, cells } => {
                if let Some(t) = bindings.table_ord(*block) {
                    let frag = render_table_row(cells.as_slice());
                    assert(structural_writes(edits.structural@[j as int], frag@));
                    let ghost m0 = rows@;
                    let mut rt = take_row(&mut rows, (t, *after_row));
                    let ghost t_old = rt;
                    let ghost fv = frag@;
                    rt.insert_after.push(frag);
                    proof {
                        assert forall|h: Seq<u8>| #[trigger] row_writes(rt, h) implies row_writes(t_old, h) || edit_fragment(h, *edits) by {
                            lemma_pushed_frag(t_old.insert_after@, fv, rt.insert_after@, h);
                        }
                        lemma_rows_ok_set(m0, (t, *after_row), t_old, rt, *edits);
                    }
                    rows.insert((t, *after_row), rt);
                    assert(rows@.dom().contains((t, *after_row)));
                    proof {
                        lemma_rows_v_put(m0, (t, *after_row), rt);
                        assert(frags_v(rt.insert_after@) =~= frags_v(t_old.insert_after@).push(fv));
                    }
                }
            },
            StructuralEdit::DeleteParagraph { block } => {
                if let Some(p) = bindings.para_ord(*block) {
                    let ghost m0 = paras@;
                    let mut t = take_para(&mut paras, p);
                    let ghost t_old = t;
                    t.delete = true;
                    proof {
                        lemma_paras_ok_set(m0, p, t_old, t, *edits);
                    }
                    paras.insert(p, t);
                    assert(paras@.dom().contains(p));
                    proof {
                        lemma_paras_v_put(m0, p, t);
                    }
                }
            },
            StructuralEdit::InsertParagraph { block, text, props, para_style, rstyle } => {
                if let Some(p) = bindings.para_ord(*block) {
                    let rs: Option<&str> = match rstyle {
                        Some(x) => Some(x.as_str()),
                        None => None,
                    };
                    let ps: Option<&str> = match para_style {
                        Some(x) => Some(x.as_str()),
                        None => None,
                    };
                    let frag = render_paragraph(text.as_str(), props, rs, ps);
                    assert(structural_writes(edits.structural@[j as int], frag@));
                    let ghost m0 = paras@;
                    let mut t = take_para(&mut paras, p);
                    let ghost t_old = t;
                    let ghost fv = frag@;
                    t.insert_after.push(frag);
                    proof {
                        assert forall|h: Seq<u8>| #[trigger] para_writes(t, h) implies para_writes(t_old, h) || edit_fragment(h, *edits) by {
                            if exists|q: int| 0 <= q < t.insert_after@.len() && h == (#[trigger] t.insert_after@[q])@ {
                                lemma_pushed_frag(t_old.insert_after@, fv, t.insert_after@, h);
                            }
                        }
                        lemma_paras_ok_set(m0, p, t_old, t, *edits);
                    }
                    paras.insert(p, t);
                    assert(paras@.dom().contains(p));
                    proof {
                        lemma_paras_v_put(m0, p, t);
                        assert(frags_v(t.insert_after@) =~= frags_v(t_old.insert_after@).push(fv));
                    }
                }
            },
        }
        proof {
            assert((targets_v(targets@), paras_v(paras@), rows_v(rows@)) == struct_step(b, st0, edits.structural@[j as int]));
            if works {
                assert(targets@.len() > 0 || map_nonempty(paras@) || map_nonempty(rows@));
            }
        }
        j = j + 1;
    }
    let ghost struct_work = exists|i: int| 0 <= i < edits.structural@.len() && structural_works(b, #[trigger] edits.structural@[i]);
    proof {
        assert(edits.structural@.take(edits.structural@.len() as int) =~= edits.structural@);
        assert(edits.paragraphs@.take(0) =~= Seq::<ParaEdit>::empty());
    }
    let ghost sv = struct_of(b, *edits);
    let mut m: usize = 0;
    while m < edits.paragraphs.len()
        invariant
            m <= edits.paragraphs@.len(),
            b == block_views(bindings.blocks@),
            (targets@.len() > 0 || map_nonempty(paras@) || map_nonempty(rows@)) <==> (run_work || struct_work
                || exists|i: int| 0 <= i < m && para_edit_works(b, #[trigger] edits.paragraphs@[i])),
            targets_ok(targets@, *edits),
            paras_ok(paras@, *edits),
            rows_ok(rows@, *edits),
            sv == struct_of(b, *edits),
            targets_v(targets@) == sv.0,
            rows_v(rows@) == sv.2,
            paras_v(paras@) == para_fold(b, edits.paragraphs@.take(m as int), sv.1),
        decreases edits.paragraphs@.len() - m,
    {
        let pe = &edits.paragraphs[m];
        proof {
            assert(edits.paragraphs@.take(m + 1).drop_last() =~= edits.paragraphs@.take(m as int));
        }
        if let Some(p) = bindings.para_ord(pe.block) {
            let ppr = render_ppr(&pe.new_props, rstyle_of(&pe.pstyle));
            assert(para_edit_writes(edits.paragraphs@[m as int], ppr@));
            let ghost m0 = paras@;
            let mut t = take_para(&mut paras, p);
            let ghost t_old = t;
            t.new_ppr = Some(ppr);
            proof {
                lemma_paras_ok_set(m0, p, t_old, t, *edits);
            }
            paras.insert(p, t);
            assert(paras@.dom().contains(p));
            proof {
                lemma_paras_v_put(m0, p, t);
            }
            assert(para_edit_works(b, edits.paragraphs@[m as int]));
        }
        m = m + 1;
    }
    let ghost para_work = exists|i: int| 0 <= i < edits.paragraphs@.len() && para_edit_works(b, #[trigger] edits.paragraphs@[i]);
    let mut cells: Vec<ResolvedCellTarget> = Vec::new();
    proof {
        assert(edits.paragraphs@.take(edits.paragraphs@.len() as int) =~= edits.paragraphs@);
        assert(cells_v(cells@) =~= Seq::empty());
        assert(edits.cells@.take(0) =~= Seq::<CellRunEdit>::empty());
    }
    let ghost av = resolved_acts(b, *edits);
    let mut c: usize = 0;
    while c < edits.cells.len()
        invariant
            c <= edits.cells@.len(),
            b == block_views(bindings.blocks@),
            cells@.len() > 0 <==> exists|i: int| 0 <= i < c && cell_edit_works(b, #[trigger] edits.cells@[i]),
            cells_ok(cells@, *edits),
            av == resolved_acts(b, *edits),
            targets_v(targets@) == av.0,
            paras_v(paras@) == av.1,
            rows_v(rows@) == av.3,
            cells_v(cells@) == cell_targets(b, edits.cells@.take(c as int)),
        decreases edits.cells@.len() - c,
    {
        let ce = &edits.cells[c];
        proof {
            assert(edits.cells@.take(c + 1).drop_last() =~= edits.cells@.take(c as int));
        }
        if let Some((t, row, cell, para, run_ord)) = bindings.resolve_cell(ce.block, ce.cell, ce.para, ce.run) {
            if ce.new_text.is_some() || ce.new_props.is_some() {
                let new_rpr = match &ce.new_props {
                    Some(props) => Some(render_rpr(props, rstyle_of(&ce.rstyle))),
                    None => None,
                };
                let ct = ResolvedCellTarget {
                    table_ord: t,
                    row,
                    cell,
                    para,
                    run_ord,
                    new_text: copy_opt(&ce.new_text),
                    new_rpr,
                };
                proof {
                    assert forall|h: Seq<u8>| #[trigger] cell_writes(ct, h) implies edit_fragment(h, *edits) by {
                        assert(cell_edit_writes(edits.cells@[c as int], h));
                    }
                }
                let ghost c0 = cells@;
                cells.push(ct);
                proof {
                    assert(cells_v(cells@) =~= cells_v(c0).push(cell_v(ct)));
                    assert forall|i: int, h: Seq<u8>| 0 <= i < cells@.len() && #[trigger] cell_writes(cells@[i], h) implies edit_fragment(h, *edits) by {
                        if i < c0.len() {
                            assert(cells@[i] == c0[i]);
                        }
                    }
                }
                assert(cell_edit_works(b, edits.cells@[c as int]));
            }
        }
        c = c + 1;
    }
    if targets.len() == 0 && paras.is_empty() && cells.len() == 0 && rows.is_empty() {
        proof {
            if map_nonempty(paras@) {
                let k = choose|k: u32| paras@.dom().contains(k);
                assert(paras@.dom().contains(k));
            }
            if map_nonempty(rows@) {
                let k = choose|k: (u32, u32)| rows@.dom().contains(k);
                assert(rows@.dom().contains(k));
            }
        }
        return Ok(());
    }
    proof {
        if !map_nonempty(paras@) {
            assert(paras@ =~= Map::<u32, ResolvedParaTarget>::empty());
        }
        if !map_nonempty(rows@) {
            assert(rows@ =~= Map::<(u32, u32), ResolvedRowTarget>::empty());
        }
    }
    proof {
        assert(edits.cells@.take(edits.cells@.len() as int) =~= edits.cells@);
        assert(acts_resolve((targets@, paras@, cells@, rows@), b, *edits));
    }
    let ghost before = pkg@;
    let ghost mut srcv: Seq<u8> = Seq::empty();
    let patched = match pkg.require(main_part) {
        Ok(src) => {
            proof { srcv = src@; }
            patch_document_xml_rows(src, targets.as_slice(), &paras, cells.as_slice(), &rows)
        },
        Err(e) => {
            return Err(e);
        },
    };
    let ghost h = choose|h: Seq<Hole>| holes_ok(srcv.len() as int, h) && patched@ == spliced(srcv, h)
        && forall|k: int| 0 <= k < h.len() ==> (#[trigger] h[k]).2.len() == 0
            || patch_fragment(h[k].2, targets@, paras@, cells@, rows@);
    proof {
        assert forall|k: int| 0 <= k < h.len() implies (#[trigger] h[k]).2.len() == 0 || edit_fragment(h[k].2, *edits) by {
            if h[k].2.len() != 0 {
                let x = h[k].2;
                assert(patch_fragment(x, targets@, paras@, cells@, rows@));
                if exists|i: int| 0 <= i < targets@.len() && #[trigger] target_writes(targets@[i], x) {
                    let i = choose|i: int| 0 <= i < targets@.len() && #[trigger] target_writes(targets@[i], x);
                    assert(edit_fragment(x, *edits));
                } else if exists|q: u32| paras@.dom().contains(q) && #[trigger] para_writes(paras@[q], x) {
                    let q = choose|q: u32| paras@.dom().contains(q) && #[trigger] para_writes(paras@[q], x);
                    assert(edit_fragment(x, *edits));
                } else if exists|i: int| 0 <= i < cells@.len() && #[trigger] cell_writes(cells@[i], x) {
                    let i = choose|i: int| 0 <= i < cells@.len() && #[trigger] cell_writes(cells@[i], x);
                    assert(edit_fragment(x, *edits));
                } else {
                    let q = choose|q: (u32, u32)| rows@.dom().contains(q) && #[trigger] row_writes(rows@[q], x);
                    assert(edit_fragment(x, *edits));
                }
            }
        }
    }
    pkg.set_part(main_part, patched);
    assert(part_of(before, main_part@) == Some(srcv));
    assert(holes_ok(srcv.len() as int, h) && pkg@ == set_part_of(before, main_part@, spliced(srcv, h)));
    assert(before == old(pkg)@);
    assert(exists|holes: Seq<Hole>| holes_ok(srcv.len() as int, holes) && pkg@ == set_part_of(old(pkg)@, main_part@, spliced(srcv, holes))
        && forall|k: int| 0 <= k < holes.len() ==> (#[trigger] holes[k]).2.len() == 0 || edit_fragment(holes[k].2, *edits));
    assert(part_of(old(pkg)@, main_part@)->Some_0 == srcv);
    assert(pkg@ == set_part_of(old(pkg)@, main_part@, spliced(srcv, patch_holes(srcv, (targets@, paras@, cells@, rows@)))));
    Ok(())
}

} // verus!
