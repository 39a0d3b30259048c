//! The byte-level targeted patcher. `quick-xml` is used only as a locator: one
//! tokenization gives every tag's byte span, a single pass over the tokens
//! decides which source ranges to replace, and every byte outside those ranges
//! is copied verbatim from the source. The result is therefore a *splice* of
//! the source — proved below — and with nothing to patch it is the source
//! itself, byte for byte.

use std::collections::BTreeMap;
use vstd::prelude::*;
use vstd::string::StringSliceAdditionalSpecFns;
use crate::bytes::{bytes_eq, push_bytes, push_str, sbytes};
use crate::rpr::render_wt;
use crate::xml::{check_spans, first_close, local_name, local_of, matching_end, scan_xml, spans_ok, tviews, TokKind, TokView, XmlToken};

verus! {

broadcast use vstd::std_specs::btree::group_btree_axioms;

/// A replaced source range `[start, end)` and the bytes written in its place.
pub type Hole = (int, int, Seq<u8>);

/// Where the last hole ends (0 when there is none).
pub open spec fn last_end(holes: Seq<Hole>) -> int {
    if holes.len() == 0 { 0 } else { holes.last().1 }
}

/// Holes lie inside the source, in order, without overlapping.
pub open spec fn holes_ok(len: int, holes: Seq<Hole>) -> bool {
    forall|k: int|
        0 <= k < holes.len() ==> 0 <= holes[k].0 <= holes[k].1 <= len && (k > 0 ==> holes[k
            - 1].1 <= holes[k].0)
}

/// The source with each hole's range replaced by its bytes, up to the end of
/// the last hole.
pub open spec fn assemble(src: Seq<u8>, holes: Seq<Hole>) -> Seq<u8>
    decreases holes.len(),
{
    if holes.len() == 0 {
        seq![]
    } else {
        assemble(src, holes.drop_last()) + src.subrange(last_end(holes.drop_last()), holes.last().0)
            + holes.last().2
    }
}

/// The whole source with every hole replaced: all bytes outside the holes are
/// kept, in order.
pub open spec fn spliced(src: Seq<u8>, holes: Seq<Hole>) -> Seq<u8> {
    assemble(src, holes) + src.subrange(last_end(holes), src.len() as int)
}

/// Every hole writes nothing or bytes that `allowed` admits.
pub open spec fn holes_from(holes: Seq<Hole>, allowed: spec_fn(Seq<u8>) -> bool) -> bool {
    forall|k: int| 0 <= k < holes.len() ==> (#[trigger] holes[k]).2.len() == 0 || allowed(holes[k].2)
}

/// The splicer's progress as values: its cursor and the holes so far.
pub type SpV = (int, Seq<Hole>);

/// Copy the source up to `at`.
pub open spec fn sp_copy(s: SpV, at: int) -> SpV {
    (at, s.1)
}

/// Write `f` at the cursor.
pub open spec fn sp_emit(s: SpV, f: Seq<u8>) -> SpV {
    (s.0, s.1.push((s.0, s.0, f)))
}

/// Drop the source up to `end`.
pub open spec fn sp_skip(s: SpV, end: int) -> SpV {
    (end, s.1.push((s.0, end, Seq::<u8>::empty())))
}

/// Write each fragment at the cursor, in order.
pub open spec fn sp_emit_all(s: SpV, fs: Seq<Vec<u8>>) -> SpV
    decreases fs.len(),
{
    if fs.len() == 0 {
        s
    } else {
        sp_emit(sp_emit_all(s, fs.drop_last()), fs.last()@)
    }
}

/// Output under construction: everything before `cursor` has been decided,
/// and every hole so far writes bytes that `allowed` admits.
pub struct Splicer {
    pub out: Vec<u8>,
    pub cursor: usize,
    pub holes: Ghost<Seq<Hole>>,
    pub allowed: Ghost<spec_fn(Seq<u8>) -> bool>,
}

impl Splicer {
    pub open spec fn inv(&self, src: Seq<u8>) -> bool {
        &&& holes_ok(src.len() as int, self.holes@)
        &&& last_end(self.holes@) <= self.cursor <= src.len()
        &&& self.out@ == assemble(src, self.holes@) + src.subrange(
            last_end(self.holes@),
            self.cursor as int,
        )
        &&& holes_from(self.holes@, self.allowed@)
    }

    pub fn new(Ghost(allowed): Ghost<spec_fn(Seq<u8>) -> bool>) -> (s: Splicer)
        ensures
            s.cursor == 0,
            s.holes@.len() == 0,
            s.allowed@ == allowed,
            forall|src: Seq<u8>| #[trigger] s.inv(src),
    {
        let s = Splicer { out: Vec::new(), cursor: 0, holes: Ghost(Seq::empty()), allowed: Ghost(allowed) };
        assert forall|src: Seq<u8>| #[trigger] s.inv(src) by {
            assert(src.subrange(0, 0) =~= Seq::<u8>::empty());
            assert(s.out@ =~= assemble(src, s.holes@) + src.subrange(0, 0));
        }
        s
    }

    /// Copy source bytes verbatim up to `at`.
    pub fn copy_to(&mut self, src: &[u8], at: usize)
        requires
            old(self).inv(src@),
            old(self).cursor <= at <= src@.len(),
        ensures
            final(self).inv(src@),
            final(self).cursor == at,
            final(self).holes@ == old(self).holes@,
            final(self).allowed@ == old(self).allowed@,
    {
        let ghost le = last_end(self.holes@);
        push_bytes(&mut self.out, &src[self.cursor..at]);
        assert(src@.subrange(le, self.cursor as int) + src@.subrange(self.cursor as int, at as int)
            =~= src@.subrange(le, at as int));
        self.cursor = at;
        assert(self.out@ =~= assemble(src@, self.holes@) + src@.subrange(le, at as int));
    }

    /// Write `frag` at the cursor (a hole of width zero).
    pub fn emit(&mut self, src: &[u8], frag: &[u8])
        requires
            old(self).inv(src@),
            (old(self).allowed@)(frag@),
        ensures
            final(self).inv(src@),
            final(self).allowed@ == old(self).allowed@,
            final(self).cursor == old(self).cursor,
            final(self).holes@ == old(self).holes@.push(
                (old(self).cursor as int, old(self).cursor as int, frag@),
            ),
    {
        let ghost old_holes = self.holes@;
        push_bytes(&mut self.out, frag);
        let ghost h = (self.cursor as int, self.cursor as int, frag@);
        self.holes = Ghost(self.holes@.push(h));
        assert(self.holes@.drop_last() =~= old_holes);
        assert(holes_from(self.holes@, self.allowed@)) by {
            assert forall|k: int| 0 <= k < self.holes@.len() implies (#[trigger] self.holes@[k]).2.len() == 0 || (self.allowed@)(self.holes@[k].2) by {
                if k < old_holes.len() {
                    assert(self.holes@[k] == old_holes[k]);
                }
            }
        }
        assert(src@.subrange(self.cursor as int, self.cursor as int) =~= Seq::<u8>::empty());
        assert(self.out@ =~= assemble(src@, self.holes@) + src@.subrange(
            last_end(self.holes@),
            self.cursor as int,
        ));
    }

    /// Drop the source bytes up to `end` (a hole with nothing written).
    pub fn skip_to(&mut self, src: &[u8], end: usize)
        requires
            old(self).inv(src@),
            old(self).cursor <= end <= src@.len(),
        ensures
            final(self).inv(src@),
            final(self).cursor == end,
            final(self).allowed@ == old(self).allowed@,
            final(self).holes@ == old(self).holes@.push(
                (old(self).cursor as int, end as int, Seq::<u8>::empty()),
            ),
    {
        let ghost old_holes = self.holes@;
        let ghost h = (self.cursor as int, end as int, Seq::<u8>::empty());
        self.holes = Ghost(self.holes@.push(h));
        self.cursor = end;
        assert(self.holes@.drop_last() =~= old_holes);
        assert(holes_from(self.holes@, self.allowed@)) by {
            assert forall|k: int| 0 <= k < self.holes@.len() implies (#[trigger] self.holes@[k]).2.len() == 0 || (self.allowed@)(self.holes@[k].2) by {
                if k < old_holes.len() {
                    assert(self.holes@[k] == old_holes[k]);
                }
            }
        }
        assert(src@.subrange(end as int, end as int) =~= Seq::<u8>::empty());
        assert(self.out@ =~= assemble(src@, self.holes@) + src@.subrange(
            last_end(self.holes@),
            self.cursor as int,
        ));
    }

    /// Copy the rest of the source and return the finished output.
    pub fn finish(self, src: &[u8]) -> (out: Vec<u8>)
        requires
            self.inv(src@),
        ensures
            out@ == spliced(src@, self.holes@),
            holes_ok(src@.len() as int, self.holes@),
            holes_from(self.holes@, self.allowed@),
    {
        let mut s = self;
        let n = src.len();
        s.copy_to(src, n);
        assert(src@.subrange(last_end(s.holes@), src@.len() as int) == src@.subrange(
            last_end(s.holes@),
            n as int,
        ));
        s.out
    }
}

/// The XML container a run edit addresses through.
#[derive(Clone, Copy, Debug, PartialEq, Eq, Structural)]
pub enum Wrapper {
    /// The run sits in the paragraph's n-th `<w:hyperlink>`.
    Hyperlink(u32),
    /// The run sits in the paragraph's n-th `<w:fldSimple>`.
    Field(u32),
}

/// A run to patch, addressed by source ordinals, with pre-rendered
/// replacements.
#[derive(Debug, Clone)]
pub struct ResolvedTarget {
    /// The run's paragraph ordinal (direct `<w:p>` child of `<w:body>`).
    pub para_ord: u32,
    /// The run's ordinal (direct `<w:r>` child of the `<w:p>`, or the `<w:r>`
    /// inside the wrapper when `wrapper` is set).
    pub run_ord: u32,
    /// New run text (`Some` ⇒ rewrite the run's `<w:t>`).
    pub new_text: Option<String>,
    /// Pre-rendered `<w:rPr>…</w:rPr>` (`Some` ⇒ replace or insert the rPr).
    pub new_rpr: Option<Vec<u8>>,
    /// Drop the whole `<w:r>` subtree instead of editing it.
    pub delete: bool,
    /// Pre-rendered `<w:r>…</w:r>` fragments emitted right after this run.
    pub insert_after: Vec<Vec<u8>>,
    pub wrapper: Option<Wrapper>,
}

impl ResolvedTarget {
    /// A target that only edits (no structural change).
    pub fn edit(para_ord: u32, run_ord: u32) -> (t: Self)
        ensures
            t.para_ord == para_ord,
            t.run_ord == run_ord,
            t.new_text is None,
            t.new_rpr is None,
            !t.delete,
            t.insert_after@.len() == 0,
            t.wrapper is None,
    {
        ResolvedTarget {
            para_ord,
            run_ord,
            new_text: None,
            new_rpr: None,
            delete: false,
            insert_after: Vec::new(),
            wrapper: None,
        }
    }
}

/// A table-cell run to patch: its `w:tbl`/`w:tr`/`w:tc`/`w:p` path and run
/// ordinal, with the replacements.
#[derive(Debug, Clone)]
pub struct ResolvedCellTarget {
    pub table_ord: u32,
    pub row: u32,
    pub cell: u32,
    pub para: u32,
    pub run_ord: u32,
    pub new_text: Option<String>,
    pub new_rpr: Option<Vec<u8>>,
}

/// A row-level structural action, addressed by `(table_ord, row)`.
#[derive(Debug, Clone)]
pub struct ResolvedRowTarget {
    /// Drop the whole `<w:tr>` subtree.
    pub delete: bool,
    /// Pre-rendered `<w:tr>…</w:tr>` fragments emitted after this row.
    pub insert_after: Vec<Vec<u8>>,
}

impl Default for ResolvedRowTarget {
    fn default() -> (r: Self)
        ensures
            !r.delete,
            r.insert_after@.len() == 0,
    {
        ResolvedRowTarget { delete: false, insert_after: Vec::new() }
    }
}

/// A paragraph-level action, addressed by `<w:p>` ordinal.
#[derive(Debug, Clone)]
pub struct ResolvedParaTarget {
    /// Drop the whole `<w:p>` subtree.
    pub delete: bool,
    /// Pre-rendered `<w:p>…</w:p>` fragments emitted after this paragraph.
    pub insert_after: Vec<Vec<u8>>,
    /// Pre-rendered `<w:r>…</w:r>` fragments emitted before the first run.
    pub prepend_runs: Vec<Vec<u8>>,
    /// Pre-rendered `<w:pPr>…</w:pPr>` replacing (or inserted as) the
    /// paragraph's properties.
    pub new_ppr: Option<Vec<u8>>,
}

impl Default for ResolvedParaTarget {
    fn default() -> (r: Self)
        ensures
            !r.delete,
            r.insert_after@.len() == 0,
            r.prepend_runs@.len() == 0,
            r.new_ppr is None,
    {
        ResolvedParaTarget {
            delete: false,
            insert_after: Vec::new(),
            prepend_runs: Vec::new(),
            new_ppr: None,
        }
    }
}

/// Nothing to patch at all.
pub open spec fn no_actions(
    targets: Seq<ResolvedTarget>,
    paras: Map<u32, ResolvedParaTarget>,
    cells: Seq<ResolvedCellTarget>,
    rows: Map<(u32, u32), ResolvedRowTarget>,
) -> bool {
    &&& targets.len() == 0
    &&& paras == Map::<u32, ResolvedParaTarget>::empty()
    &&& cells.len() == 0
    &&& rows == Map::<(u32, u32), ResolvedRowTarget>::empty()
}

/// Does `v` hold exactly the bytes of `s`?
fn is_lit(v: &[u8], s: &str) -> (r: bool)
    ensures
        r == (v@ == sbytes(s)),
{
    bytes_eq(v, s.as_bytes())
}

/// Is the innermost open element named `s`?
fn top_is(stack: &Vec<Vec<u8>>, s: &str) -> (r: bool)
    ensures
        r == (stack@.len() > 0 && stack@.last()@ == sbytes(s)),
{
    let n = stack.len();
    n > 0 && is_lit(&stack[n - 1], s)
}

/// Are we inside a table cell? (Body-paragraph counters ignore cell content,
/// and the cell counters ignore body paragraphs.)
fn in_cell(stack: &Vec<Vec<u8>>) -> (r: bool)
    ensures
        r == exists|k: int| 0 <= k < stack@.len() && #[trigger] stack@[k]@ == sbytes("tc"),
{
    let mut k: usize = 0;
    while k < stack.len()
        invariant
            k <= stack@.len(),
            forall|j: int| 0 <= j < k ==> #[trigger] stack@[j]@ != sbytes("tc"),
        decreases stack@.len() - k,
    {
        if is_lit(&stack[k], "tc") {
            return true;
        }
        k = k + 1;
    }
    false
}

/// Does the ordinal `ord` name the `count`-th element seen (counting from 1)?
pub open spec fn at_ord(ord: u32, count: usize) -> bool {
    count > 0 && ord as int == count - 1
}

fn is_ord(ord: u32, count: usize) -> (r: bool)
    ensures
        r == at_ord(ord, count),
{
    count > 0 && ord as usize == count - 1
}

/// The ordinal of the `count`-th element (counting from 1), when there is
/// one and it fits the key type.
pub open spec fn ord_spec(count: int) -> Option<u32> {
    if count > 0 && count - 1 <= u32::MAX {
        Some((count - 1) as u32)
    } else {
        None
    }
}

/// The ordinal of the `count`-th element (see [`ord_spec`]).
fn ord_of(count: usize) -> (r: Option<u32>)
    ensures
        r matches Some(o) ==> at_ord(o, count),
        r == ord_spec(count as int),
{
    if count > 0 && count - 1 <= u32::MAX as usize {
        Some((count - 1) as u32)
    } else {
        None
    }
}

/// Same wrapper (both absent, or the same kind and index)?
fn same_wrapper(a: Option<Wrapper>, b: Option<Wrapper>) -> (r: bool)
    ensures
        r == (a == b),
{
    match (a, b) {
        (None, None) => true,
        (Some(Wrapper::Hyperlink(x)), Some(Wrapper::Hyperlink(y))) => x == y,
        (Some(Wrapper::Field(x)), Some(Wrapper::Field(y))) => x == y,
        _ => false,
    }
}

/// A run target addresses (`wrapper`, the `p`-th paragraph, the `r`-th run).
pub open spec fn target_at(t: ResolvedTarget, wrapper: Option<Wrapper>, p: int, r: int) -> bool {
    t.wrapper == wrapper && p > 0 && t.para_ord as int == p - 1 && r > 0 && t.run_ord as int == r - 1
}

/// The first run target from index `k` on that addresses (`wrapper`, `p`,
/// `r`).
pub open spec fn first_target(ts: Seq<ResolvedTarget>, wrapper: Option<Wrapper>, p: int, r: int, k: int) -> Option<int>
    decreases ts.len() - k,
{
    if k < 0 || k >= ts.len() {
        None
    } else if target_at(ts[k], wrapper, p, r) {
        Some(k)
    } else {
        first_target(ts, wrapper, p, r, k + 1)
    }
}

/// A cell target addresses the `tbl`-th table, `tr`-th row, `tc`-th cell,
/// `cp`-th paragraph and `cr`-th run seen (each counted from 1).
pub open spec fn cell_at_i(c: ResolvedCellTarget, tbl: int, tr: int, tc: int, cp: int, cr: int) -> bool {
    &&& tbl > 0 && c.table_ord as int == tbl - 1
    &&& tr > 0 && c.row as int == tr - 1
    &&& tc > 0 && c.cell as int == tc - 1
    &&& cp > 0 && c.para as int == cp - 1
    &&& cr > 0 && c.run_ord as int == cr - 1
}

/// The first cell target from index `k` on addressed to the given place.
pub open spec fn first_cell(cs: Seq<ResolvedCellTarget>, tbl: int, tr: int, tc: int, cp: int, cr: int, k: int) -> Option<int>
    decreases cs.len() - k,
{
    if k < 0 || k >= cs.len() {
        None
    } else if cell_at_i(cs[k], tbl, tr, tc, cp, cr) {
        Some(k)
    } else {
        first_cell(cs, tbl, tr, tc, cp, cr, k + 1)
    }
}

/// The first run target addressed to (`wrapper`, paragraph, run).
fn find_target(
    targets: &[ResolvedTarget],
    wrapper: Option<Wrapper>,
    p_count: usize,
    r_count: usize,
) -> (r: Option<usize>)
    ensures
        r matches Some(k) ==> k < targets@.len(),
        match r {
            Some(k) => first_target(targets@, wrapper, p_count as int, r_count as int, 0) == Some(k as int),
            None => first_target(targets@, wrapper, p_count as int, r_count as int, 0) is None,
        },
{
    let mut k: usize = 0;
    while k < targets.len()
        invariant
            k <= targets@.len(),
            first_target(targets@, wrapper, p_count as int, r_count as int, 0) == first_target(
                targets@,
                wrapper,
                p_count as int,
                r_count as int,
                k as int,
            ),
        decreases targets@.len() - k,
    {
        let t = &targets[k];
        if same_wrapper(t.wrapper, wrapper) && is_ord(t.para_ord, p_count) && is_ord(t.run_ord, r_count) {
            return Some(k);
        }
        k = k + 1;
    }
    None
}


/// The first cell target addressed to the given table/row/cell/paragraph/run.
fn find_cell(
    cells: &[ResolvedCellTarget],
    tbl: usize,
    tr: usize,
    tc: usize,
    cp: usize,
    cr: usize,
) -> (r: Option<usize>)
    ensures
        r matches Some(k) ==> k < cells@.len(),
        match r {
            Some(k) => first_cell(cells@, tbl as int, tr as int, tc as int, cp as int, cr as int, 0) == Some(k as int),
            None => first_cell(cells@, tbl as int, tr as int, tc as int, cp as int, cr as int, 0) is None,
        },
{
    let mut k: usize = 0;
    while k < cells.len()
        invariant
            k <= cells@.len(),
            first_cell(cells@, tbl as int, tr as int, tc as int, cp as int, cr as int, 0) == first_cell(
                cells@,
                tbl as int,
                tr as int,
                tc as int,
                cp as int,
                cr as int,
                k as int,
            ),
        decreases cells@.len() - k,
    {
        let c = &cells[k];
        if is_ord(c.table_ord, tbl) && is_ord(c.row, tr) && is_ord(c.cell, tc) && is_ord(c.para, cp) && is_ord(c.run_ord, cr) {
            return Some(k);
        }
        k = k + 1;
    }
    None
}

/// Skip the element opened at token `i`: the index after its closing token and
/// the byte position just past it (the end of input when it is never closed).
/// Where skipping the element opened at token `i` lands: the token after its
/// closing tag and the byte just past that tag, or the end of the tokens and
/// of the input when it never closes.
pub open spec fn skip_spec(tv: Seq<TokView>, len: int, i: int) -> (int, int) {
    let j = first_close(tv, i, i + 1);
    if j < tv.len() {
        (j + 1, tv[j].3 as int)
    } else {
        (tv.len() as int, len)
    }
}

fn skip_element(toks: &Vec<XmlToken>, i: usize, len: usize) -> (r: (usize, usize))
    requires
        i < toks@.len(),
        spans_ok(toks@, len as nat),
    ensures
        i < r.0 <= toks@.len(),
        toks@[i as int].start <= r.1 <= len,
        r.0 < toks@.len() ==> r.1 <= toks@[r.0 as int].start,
        (r.0 as int, r.1 as int) == skip_spec(tviews(toks@), len as int, i as int),
{
    let j = matching_end(toks, i);
    if j < toks.len() {
        (j + 1, toks[j].end)
    } else {
        (toks.len(), len)
    }
}

/// Emit each fragment in order.
fn emit_all(sp: &mut Splicer, src: &[u8], frags: &Vec<Vec<u8>>)
    requires
        old(sp).inv(src@),
        forall|j: int| 0 <= j < frags@.len() ==> (old(sp).allowed@)(#[trigger] frags@[j]@),
    ensures
        final(sp).inv(src@),
        final(sp).cursor == old(sp).cursor,
        final(sp).allowed@ == old(sp).allowed@,
        frags@.len() == 0 ==> final(sp).holes@ == old(sp).holes@,
        (final(sp).cursor as int, final(sp).holes@) == sp_emit_all((old(sp).cursor as int, old(sp).holes@), frags@),
{
    let mut k: usize = 0;
    assert(frags@.take(0) =~= Seq::<Vec<u8>>::empty());
    while k < frags.len()
        invariant
            k <= frags@.len(),
            sp.inv(src@),
            sp.cursor == old(sp).cursor,
            sp.allowed@ == old(sp).allowed@,
            forall|j: int| 0 <= j < frags@.len() ==> (sp.allowed@)(#[trigger] frags@[j]@),
            frags@.len() == 0 ==> sp.holes@ == old(sp).holes@,
            (sp.cursor as int, sp.holes@) == sp_emit_all((old(sp).cursor as int, old(sp).holes@), frags@.take(k as int)),
        decreases frags@.len() - k,
    {
        assert(frags@.take(k + 1).drop_last() =~= frags@.take(k as int));
        sp.emit(src, &frags[k]);
        k = k + 1;
    }
    assert(frags@.take(frags@.len() as int) =~= frags@);
}

/// A run's children walked from token `k` (see [`splice_run`]): `oe` is
/// where the run's open tag ends, `nt` the rendered `<w:t>` to write, `nr`
/// the `<w:rPr>`; `pending` whether the rPr is still to be written, `done`
/// whether the text was. Gives the token after `</w:r>`, the byte just past
/// it, and the splicer's progress.
pub open spec fn srun(
    tv: Seq<TokView>,
    len: int,
    oe: int,
    k: int,
    nt: Option<Seq<u8>>,
    nr: Option<Seq<u8>>,
    pending: bool,
    done: bool,
    s: SpV,
) -> (int, int, SpV)
    decreases tv.len() - k,
{
    if k < 0 || k >= tv.len() {
        (tv.len() as int, len, s)
    } else {
        let t = tv[k];
        let ln = local_of(t.1);
        let start = t.2 as int;
        let end = t.3 as int;
        if t.0 == TokKind::Start {
            let sk = skip_spec(tv, len, k);
            if !(k < sk.0 <= tv.len()) {
                (tv.len() as int, len, s)
            } else if ln == sbytes("rPr") && nr is Some {
                srun(tv, len, oe, sk.0, nt, nr, false, done, sp_skip(sp_emit(sp_copy(s, start), nr->0), sk.1))
            } else if ln == sbytes("t") && nt is Some {
                let s1 = if pending { sp_emit(sp_copy(s, start), nr->0) } else { s };
                let s2 = sp_copy(s1, start);
                let s3 = if !done { sp_emit(s2, nt->0) } else { s2 };
                srun(tv, len, oe, sk.0, nt, nr, false, true, sp_skip(s3, sk.1))
            } else {
                srun(tv, len, oe, sk.0, nt, nr, pending, done, s)
            }
        } else if t.0 == TokKind::Empty && ln == sbytes("rPr") && nr is Some {
            srun(tv, len, oe, k + 1, nt, nr, false, done, sp_skip(sp_emit(sp_copy(s, start), nr->0), end))
        } else if t.0 == TokKind::End && ln == sbytes("r") {
            (k + 1, end, if pending { sp_emit(sp_copy(s, oe), nr->0) } else { s })
        } else {
            srun(tv, len, oe, k + 1, nt, nr, pending, done, s)
        }
    }
}

/// A rendered `<w:t>` for an optional new text.
pub open spec fn wt_of(t: Option<String>) -> Option<Seq<u8>> {
    match t {
        Some(x) => Some(crate::rpr::wt_spec(crate::bytes::ubytes(x@))),
        None => None,
    }
}

/// An optional fragment's bytes.
pub open spec fn frag_of(b: Option<Vec<u8>>) -> Option<Seq<u8>> {
    match b {
        Some(v) => Some(v@),
        None => None,
    }
}

/// Walk one targeted `<w:r>`'s direct children (the run opens at token `i`),
/// splicing its `<w:rPr>` and/or `<w:t>` and copying the rest verbatim. The
/// new rPr lands on the existing `<w:rPr>`, else before the first `<w:t>`, else
/// right after the `<w:r>` open tag; the first `<w:t>` carries the whole new
/// text and later ones are dropped. Returns the token index after `</w:r>` and
/// the byte position just past it.
fn splice_run(
    toks: &Vec<XmlToken>,
    src: &[u8],
    i: usize,
    new_text: &Option<String>,
    new_rpr: &Option<Vec<u8>>,
    sp: &mut Splicer,
) -> (r: (usize, usize))
    requires
        i < toks@.len(),
        spans_ok(toks@, src@.len() as nat),
        old(sp).inv(src@),
        old(sp).cursor <= toks@[i as int].start,
        new_rpr matches Some(b) ==> (old(sp).allowed@)(b@),
        new_text matches Some(t) ==> (old(sp).allowed@)(crate::rpr::wt_spec(crate::bytes::ubytes(t@))),
    ensures
        final(sp).inv(src@),
        final(sp).allowed@ == old(sp).allowed@,
        i < r.0 <= toks@.len(),
        final(sp).cursor <= r.1 <= src@.len(),
        r.0 < toks@.len() ==> r.1 <= toks@[r.0 as int].start,
        (r.0 as int, r.1 as int, (final(sp).cursor as int, final(sp).holes@)) == srun(
            tviews(toks@),
            src@.len() as int,
            toks@[i as int].end as int,
            i + 1,
            wt_of(*new_text),
            frag_of(*new_rpr),
            new_rpr is Some,
            false,
            (old(sp).cursor as int, old(sp).holes@),
        ),
{
    let n = toks.len();
    let len = src.len();
    let run_open_end = toks[i].end;
    let mut rpr_pending = new_rpr.is_some();
    let mut text_done = false;
    let mut k = i + 1;
    let ghost tv = tviews(toks@);
    let ghost nt = wt_of(*new_text);
    let ghost nr = frag_of(*new_rpr);
    let ghost goal = srun(tv, len as int, run_open_end as int, i + 1, nt, nr, new_rpr is Some, false, (old(sp).cursor as int, old(sp).holes@));
    while k < n
        invariant
            n == toks@.len(),
            len == src@.len(),
            i < k <= n,
            spans_ok(toks@, len as nat),
            sp.inv(src@),
            sp.allowed@ == old(sp).allowed@,
            new_rpr matches Some(b) ==> (sp.allowed@)(b@),
            new_text matches Some(t) ==> (sp.allowed@)(crate::rpr::wt_spec(crate::bytes::ubytes(t@))),
            run_open_end == toks@[i as int].end,
            rpr_pending ==> sp.cursor == old(sp).cursor && new_rpr is Some,
            old(sp).cursor <= toks@[i as int].start,
            k < n ==> sp.cursor <= toks@[k as int].start,
            tv == tviews(toks@),
            nt == wt_of(*new_text),
            nr == frag_of(*new_rpr),
            srun(tv, len as int, run_open_end as int, k as int, nt, nr, rpr_pending, text_done, (sp.cursor as int, sp.holes@)) == goal,
            goal == srun(tv, len as int, run_open_end as int, i + 1, nt, nr, new_rpr is Some, false, (old(sp).cursor as int, old(sp).holes@)),
        decreases n - k,
    {
        assert(tv[k as int] == toks@[k as int]@);
        let child_start = toks[k].start;
        let child_end = toks[k].end;
        match toks[k].kind {
            TokKind::Start => {
                let ln = local_name(&toks[k].name);
                if is_lit(&ln, "rPr") && new_rpr.is_some() {
                    let (next, end) = skip_element(toks, k, len);
                    sp.copy_to(src, child_start);
                    if let Some(rpr) = new_rpr {
                        sp.emit(src, rpr);
                    }
                    sp.skip_to(src, end);
                    rpr_pending = false;
                    k = next;
                    continue;
                }
                if is_lit(&ln, "t") && new_text.is_some() {
                    let (next, end) = skip_element(toks, k, len);
                    if rpr_pending {
                        sp.copy_to(src, child_start);
                        if let Some(rpr) = new_rpr {
                            sp.emit(src, rpr);
                        }
                        rpr_pending = false;
                    }
                    sp.copy_to(src, child_start);
                    if !text_done {
                        if let Some(text) = new_text {
                            let wt = render_wt(text.as_str());
                            sp.emit(src, &wt);
                        }
                        text_done = true;
                    }
                    sp.skip_to(src, end);
                    k = next;
                    continue;
                }
                let (next, _end) = skip_element(toks, k, len);
                k = next;
            },
            TokKind::Empty => {
                let ln = local_name(&toks[k].name);
                if is_lit(&ln, "rPr") && new_rpr.is_some() {
                    sp.copy_to(src, child_start);
                    if let Some(rpr) = new_rpr {
                        sp.emit(src, rpr);
                    }
                    sp.skip_to(src, child_end);
                    rpr_pending = false;
                }
                k = k + 1;
            },
            TokKind::End => {
                let ln = local_name(&toks[k].name);
                if is_lit(&ln, "r") {
                    if rpr_pending {
                        sp.copy_to(src, run_open_end);
                        if let Some(rpr) = new_rpr {
                            sp.emit(src, rpr);
                        }
                    }
                    return (k + 1, child_end);
                }
                k = k + 1;
            },
            _ => {
                k = k + 1;
            },
        }
    }
    (n, len)
}

/// A run target writes its rendered `<w:t>`, its replacement `<w:rPr>`, or
/// one of the runs inserted after it.
pub open spec fn target_writes(t: ResolvedTarget, h: Seq<u8>) -> bool {
    ||| (t.new_text matches Some(x) && h == crate::rpr::wt_spec(crate::bytes::ubytes(x@)))
    ||| (t.new_rpr matches Some(b) && h == b@)
    ||| exists|j: int| 0 <= j < t.insert_after@.len() && h == (#[trigger] t.insert_after@[j])@
}

/// A paragraph action writes an inserted paragraph, a prepended run, or its
/// new `<w:pPr>`.
pub open spec fn para_writes(p: ResolvedParaTarget, h: Seq<u8>) -> bool {
    ||| exists|j: int| 0 <= j < p.insert_after@.len() && h == (#[trigger] p.insert_after@[j])@
    ||| exists|j: int| 0 <= j < p.prepend_runs@.len() && h == (#[trigger] p.prepend_runs@[j])@
    ||| (p.new_ppr matches Some(b) && h == b@)
}

/// A cell target writes its rendered `<w:t>` or its replacement `<w:rPr>`.
pub open spec fn cell_writes(c: ResolvedCellTarget, h: Seq<u8>) -> bool {
    ||| (c.new_text matches Some(x) && h == crate::rpr::wt_spec(crate::bytes::ubytes(x@)))
    ||| (c.new_rpr matches Some(b) && h == b@)
}

/// A row action writes one of the rows inserted after it.
pub open spec fn row_writes(r: ResolvedRowTarget, h: Seq<u8>) -> bool {
    exists|j: int| 0 <= j < r.insert_after@.len() && h == (#[trigger] r.insert_after@[j])@
}

/// Bytes that one of the patch's actions writes.
pub open spec fn patch_fragment(
    h: Seq<u8>,
    targets: Seq<ResolvedTarget>,
    paras: Map<u32, ResolvedParaTarget>,
    cells: Seq<ResolvedCellTarget>,
    rows: Map<(u32, u32), ResolvedRowTarget>,
) -> bool {
    ||| exists|i: int| 0 <= i < targets.len() && #[trigger] target_writes(targets[i], h)
    ||| exists|k: u32| paras.dom().contains(k) && #[trigger] para_writes(paras[k], h)
    ||| exists|i: int| 0 <= i < cells.len() && #[trigger] cell_writes(cells[i], h)
    ||| exists|k: (u32, u32)| rows.dom().contains(k) && #[trigger] row_writes(rows[k], h)
}

proof fn lemma_target_allowed(
    targets: Seq<ResolvedTarget>,
    paras: Map<u32, ResolvedParaTarget>,
    cells: Seq<ResolvedCellTarget>,
    rows: Map<(u32, u32), ResolvedRowTarget>,
    i: int,
)
    requires
        0 <= i < targets.len(),
    ensures
        targets[i].new_rpr matches Some(b) ==> patch_fragment(b@, targets, paras, cells, rows),
        targets[i].new_text matches Some(x) ==> patch_fragment(crate::rpr::wt_spec(crate::bytes::ubytes(x@)), targets, paras, cells, rows),
        forall|j: int| 0 <= j < targets[i].insert_after@.len() ==> patch_fragment(#[trigger] targets[i].insert_after@[j]@, targets, paras, cells, rows),
{
    if targets[i].new_rpr is Some {
        assert(target_writes(targets[i], targets[i].new_rpr->0@));
    }
    if targets[i].new_text is Some {
        assert(target_writes(targets[i], crate::rpr::wt_spec(crate::bytes::ubytes(targets[i].new_text->0@))));
    }
    assert forall|j: int| 0 <= j < targets[i].insert_after@.len() implies patch_fragment(#[trigger] targets[i].insert_after@[j]@, targets, paras, cells, rows) by {
        assert(target_writes(targets[i], targets[i].insert_after@[j]@));
    }
}

proof fn lemma_para_allowed(
    targets: Seq<ResolvedTarget>,
    paras: Map<u32, ResolvedParaTarget>,
    cells: Seq<ResolvedCellTarget>,
    rows: Map<(u32, u32), ResolvedRowTarget>,
    k: u32,
)
    requires
        paras.dom().contains(k),
    ensures
        paras[k].new_ppr matches Some(b) ==> patch_fragment(b@, targets, paras, cells, rows),
        forall|j: int| 0 <= j < paras[k].insert_after@.len() ==> patch_fragment(#[trigger] paras[k].insert_after@[j]@, targets, paras, cells, rows),
        forall|j: int| 0 <= j < paras[k].prepend_runs@.len() ==> patch_fragment(#[trigger] paras[k].prepend_runs@[j]@, targets, paras, cells, rows),
{
    if paras[k].new_ppr is Some {
        assert(para_writes(paras[k], paras[k].new_ppr->0@));
    }
    assert forall|j: int| 0 <= j < paras[k].insert_after@.len() implies patch_fragment(#[trigger] paras[k].insert_after@[j]@, targets, paras, cells, rows) by {
        assert(para_writes(paras[k], paras[k].insert_after@[j]@));
    }
    assert forall|j: int| 0 <= j < paras[k].prepend_runs@.len() implies patch_fragment(#[trigger] paras[k].prepend_runs@[j]@, targets, paras, cells, rows) by {
        assert(para_writes(paras[k], paras[k].prepend_runs@[j]@));
    }
}

proof fn lemma_cell_allowed(
    targets: Seq<ResolvedTarget>,
    paras: Map<u32, ResolvedParaTarget>,
    cells: Seq<ResolvedCellTarget>,
    rows: Map<(u32, u32), ResolvedRowTarget>,
    i: int,
)
    requires
        0 <= i < cells.len(),
    ensures
        cells[i].new_rpr matches Some(b) ==> patch_fragment(b@, targets, paras, cells, rows),
        cells[i].new_text matches Some(x) ==> patch_fragment(crate::rpr::wt_spec(crate::bytes::ubytes(x@)), targets, paras, cells, rows),
{
    if cells[i].new_rpr is Some {
        assert(cell_writes(cells[i], cells[i].new_rpr->0@));
    }
    if cells[i].new_text is Some {
        assert(cell_writes(cells[i], crate::rpr::wt_spec(crate::bytes::ubytes(cells[i].new_text->0@))));
    }
}

proof fn lemma_row_allowed(
    targets: Seq<ResolvedTarget>,
    paras: Map<u32, ResolvedParaTarget>,
    cells: Seq<ResolvedCellTarget>,
    rows: Map<(u32, u32), ResolvedRowTarget>,
    k: (u32, u32),
)
    requires
        rows.dom().contains(k),
    ensures
        forall|j: int| 0 <= j < rows[k].insert_after@.len() ==> patch_fragment(#[trigger] rows[k].insert_after@[j]@, targets, paras, cells, rows),
{
    assert forall|j: int| 0 <= j < rows[k].insert_after@.len() implies patch_fragment(#[trigger] rows[k].insert_after@[j]@, targets, paras, cells, rows) by {
        assert(row_writes(rows[k], rows[k].insert_after@[j]@));
    }
}

/// The patch's actions as values: run targets, paragraph actions, cell
/// targets, row actions.
pub type Acts = (Seq<ResolvedTarget>, Map<u32, ResolvedParaTarget>, Seq<ResolvedCellTarget>, Map<(u32, u32), ResolvedRowTarget>);

/// The patch pass's state as values: the open elements' local names; the
/// ordinals counted so far (body paragraphs, their runs, tables, rows,
/// cells, cell paragraphs, cell runs, hyperlinks, simple fields, wrapped
/// runs); the paragraph and row with an action that is open; whether the
/// open paragraph's prepended runs and new properties were written; the
/// open wrapper; and the splicer's progress.
#[verifier::ext_equal]
pub struct PV {
    pub stack: Seq<Seq<u8>>,
    pub p: int,
    pub r: int,
    pub tbl: int,
    pub tr: int,
    pub tc: int,
    pub cp: int,
    pub cr: int,
    pub hl: int,
    pub fld: int,
    pub wrap: int,
    pub open_para: Option<u32>,
    pub prepended: bool,
    pub ppr_done: bool,
    pub wrapper: Option<Wrapper>,
    pub open_row: Option<(u32, u32)>,
    pub sp: SpV,
}

/// After a token: go on with the next, or go on from token `n`.
pub enum Flow {
    Go(PV),
    Jump(int, PV),
}

/// The innermost open element is named `lit`.
pub open spec fn top_s(stack: Seq<Seq<u8>>, lit: &str) -> bool {
    stack.len() > 0 && stack.last() == sbytes(lit)
}

/// Some open element is a table cell.
pub open spec fn in_cell_s(stack: Seq<Seq<u8>>) -> bool {
    exists|k: int| 0 <= k < stack.len() && #[trigger] stack[k] == sbytes("tc")
}

/// Drop the element opened at token `i`, writing `frags` in its place.
pub open spec fn drop_elem(tv: Seq<TokView>, len: int, i: int, w: PV, frags: Seq<Vec<u8>>) -> Flow {
    let sk = skip_spec(tv, len, i);
    Flow::Jump(sk.0, PV { sp: sp_skip(sp_emit_all(sp_copy(w.sp, tv[i].2 as int), frags), sk.1), ..w })
}

/// A body paragraph opens (phase one of a start tag): it is counted, its
/// run and wrapper counters restart; a paragraph with a delete action is
/// dropped (with the paragraphs inserted after it written in its place),
/// one with another action becomes the open paragraph.
pub open spec fn start_para_phase(tv: Seq<TokView>, len: int, a: Acts, i: int, w: PV) -> Flow {
    let w1 = PV { p: w.p + 1, r: 0, hl: 0, fld: 0, wrapper: None, open_para: None, ..w };
    match ord_spec(w1.p) {
        Some(ord) => if a.1.dom().contains(ord) {
            if a.1[ord].delete {
                drop_elem(tv, len, i, w1, a.1[ord].insert_after@)
            } else {
                Flow::Go(PV { open_para: Some(ord), prepended: false, ppr_done: false, ..w1 })
            }
        } else {
            Flow::Go(w1)
        },
        None => Flow::Go(w1),
    }
}

/// A hyperlink or simple field opens directly under a body paragraph: it is
/// counted and becomes the open wrapper.
pub open spec fn wrapper_phase(w: PV, ln: Seq<u8>) -> PV {
    if ln == sbytes("hyperlink") {
        let h = w.hl + 1;
        PV {
            hl: h,
            wrap: 0,
            wrapper: match ord_spec(h) {
                Some(o) => Some(Wrapper::Hyperlink(o)),
                None => None,
            },
            ..w
        }
    } else if ln == sbytes("fldSimple") {
        let f = w.fld + 1;
        PV {
            fld: f,
            wrap: 0,
            wrapper: match ord_spec(f) {
                Some(o) => Some(Wrapper::Field(o)),
                None => None,
            },
            ..w
        }
    } else {
        w
    }
}

/// A run is rewritten (see [`srun`]) with the given text and properties.
pub open spec fn run_splice(tv: Seq<TokView>, len: int, i: int, w: PV, nt: Option<String>, nr: Option<Vec<u8>>) -> (int, int, PV) {
    let x = srun(tv, len, tv[i].3 as int, i + 1, wt_of(nt), frag_of(nr), nr is Some, false, w.sp);
    (x.0, x.1, PV { sp: x.2, ..w })
}

/// A run inside the open wrapper opens: it is counted, and the first run
/// target addressed to it rewrites it.
pub open spec fn wrapped_run_phase(tv: Seq<TokView>, len: int, a: Acts, i: int, w: PV) -> Flow {
    let w1 = PV { wrap: w.wrap + 1, ..w };
    match first_target(a.0, w.wrapper, w1.p, w1.wrap, 0) {
        Some(k) => {
            let x = run_splice(tv, len, i, w1, a.0[k].new_text, a.0[k].new_rpr);
            Flow::Jump(x.0, x.2)
        },
        None => Flow::Go(w1),
    }
}

/// The open paragraph's `w:pPr` opens: with a new one in its action, it is
/// replaced.
pub open spec fn ppr_phase(tv: Seq<TokView>, len: int, a: Acts, i: int, w: PV) -> Flow {
    match w.open_para {
        Some(ord) => if a.1.dom().contains(ord) && a.1[ord].new_ppr is Some {
            let sk = skip_spec(tv, len, i);
            Flow::Jump(
                sk.0,
                PV { ppr_done: true, sp: sp_skip(sp_emit(sp_copy(w.sp, tv[i].2 as int), a.1[ord].new_ppr->0@), sk.1), ..w },
            )
        } else {
            Flow::Go(w)
        },
        None => Flow::Go(w),
    }
}

/// A row opens in a table: it is counted, its cell counter restarts; a row
/// with a delete action is dropped (with the rows inserted after it written
/// in its place), one with another action becomes the open row.
pub open spec fn row_phase(tv: Seq<TokView>, len: int, a: Acts, i: int, w: PV) -> Flow {
    let w1 = PV { tr: w.tr + 1, tc: 0, open_row: None, ..w };
    match (ord_spec(w1.tbl), ord_spec(w1.tr)) {
        (Some(t), Some(r)) => if a.3.dom().contains((t, r)) {
            if a.3[(t, r)].delete {
                drop_elem(tv, len, i, w1, a.3[(t, r)].insert_after@)
            } else {
                Flow::Go(PV { open_row: Some((t, r)), ..w1 })
            }
        } else {
            Flow::Go(w1)
        },
        _ => Flow::Go(w1),
    }
}

/// A run of a cell paragraph opens: it is counted, and the first cell
/// target addressed to it rewrites it.
pub open spec fn cell_run_phase(tv: Seq<TokView>, len: int, a: Acts, i: int, w: PV) -> Flow {
    let w1 = PV { cr: w.cr + 1, ..w };
    match first_cell(a.2, w1.tbl, w1.tr, w1.tc, w1.cp, w1.cr, 0) {
        Some(k) => {
            let x = run_splice(tv, len, i, w1, a.2[k].new_text, a.2[k].new_rpr);
            Flow::Jump(x.0, x.2)
        },
        None => Flow::Go(w1),
    }
}

/// The open paragraph's first run opens: its new properties (when not yet
/// written, and it has them) and its prepended runs (when not yet written)
/// go in before it.
pub open spec fn para_head(tv: Seq<TokView>, a: Acts, i: int, w: PV) -> PV {
    match w.open_para {
        Some(ord) => if a.1.dom().contains(ord) {
            let pt = a.1[ord];
            let start = tv[i].2 as int;
            let w1 = if !w.ppr_done {
                PV {
                    ppr_done: true,
                    sp: match pt.new_ppr {
                        Some(b) => sp_emit(sp_copy(w.sp, start), b@),
                        None => w.sp,
                    },
                    ..w
                }
            } else {
                w
            };
            if !w1.prepended && pt.prepend_runs@.len() > 0 {
                PV { prepended: true, sp: sp_emit_all(sp_copy(w1.sp, start), pt.prepend_runs@), ..w1 }
            } else {
                w1
            }
        } else {
            w
        },
        None => w,
    }
}

/// A run of a body paragraph opens: it is counted; the paragraph's head goes
/// in (see [`para_head`]); the first run target addressed to it deletes it
/// (writing the runs inserted after it in its place) or rewrites it (writing
/// the runs inserted after it right after it).
pub open spec fn body_run_phase(tv: Seq<TokView>, len: int, a: Acts, i: int, w: PV) -> Flow {
    let w1 = para_head(tv, a, i, PV { r: w.r + 1, ..w });
    match first_target(a.0, None, w1.p, w1.r, 0) {
        Some(k) => {
            let t = a.0[k];
            if t.delete {
                drop_elem(tv, len, i, w1, t.insert_after@)
            } else {
                let x = run_splice(tv, len, i, w1, t.new_text, t.new_rpr);
                Flow::Jump(
                    x.0,
                    if t.insert_after@.len() > 0 {
                        PV { sp: sp_emit_all(sp_copy(x.2.sp, x.1), t.insert_after@), ..x.2 }
                    } else {
                        x.2
                    },
                )
            }
        },
        None => Flow::Go(w1),
    }
}

/// A start tag at token `i`, after its first phases (see [`start_step`]):
/// a run inside the open wrapper, the open paragraph's properties.
pub open spec fn start_mid(tv: Seq<TokView>, len: int, a: Acts, i: int, w: PV, ln: Seq<u8>, body: bool, pp: bool, cell: bool) -> Flow {
    let w2 = if pp && !cell { wrapper_phase(w, ln) } else { w };
    let f3 = if ln == sbytes("r") && w2.wrapper is Some && !pp { wrapped_run_phase(tv, len, a, i, w2) } else { Flow::Go(w2) };
    match f3 {
        Flow::Jump(n, x) => Flow::Jump(n, x),
        Flow::Go(w3) => {
            let f4 = if ln == sbytes("pPr") && pp && !cell { ppr_phase(tv, len, a, i, w3) } else { Flow::Go(w3) };
            match f4 {
                Flow::Jump(n, x) => Flow::Jump(n, x),
                Flow::Go(w4) => start_table(tv, len, a, i, w4, ln, body, pp, cell),
            }
        },
    }
}

/// A start tag at token `i`, after its paragraph phases: tables, rows,
/// cells, cell paragraphs and their runs, body runs; then it is pushed.
pub open spec fn start_table(tv: Seq<TokView>, len: int, a: Acts, i: int, w: PV, ln: Seq<u8>, body: bool, pp: bool, cell: bool) -> Flow {
    let w5 = if ln == sbytes("tbl") && body { PV { tbl: w.tbl + 1, tr: 0, ..w } } else { w };
    let f6 = if ln == sbytes("tr") && top_s(w.stack, "tbl") { row_phase(tv, len, a, i, w5) } else { Flow::Go(w5) };
    match f6 {
        Flow::Jump(n, x) => Flow::Jump(n, x),
        Flow::Go(w6) => start_cells(tv, len, a, i, w6, ln, pp, cell),
    }
}

/// A start tag at token `i`, after its table phases: cells, cell
/// paragraphs and their runs, body runs; then it is pushed.
pub open spec fn start_cells(tv: Seq<TokView>, len: int, a: Acts, i: int, w: PV, ln: Seq<u8>, pp: bool, cell: bool) -> Flow {
    let w7 = if ln == sbytes("tc") && top_s(w.stack, "tr") { PV { tc: w.tc + 1, cp: 0, ..w } } else { w };
    let w8 = if ln == sbytes("p") && top_s(w.stack, "tc") { PV { cp: w7.cp + 1, cr: 0, ..w7 } } else { w7 };
    let f9 = if ln == sbytes("r") && pp && cell { cell_run_phase(tv, len, a, i, w8) } else { Flow::Go(w8) };
    match f9 {
        Flow::Jump(n, x) => Flow::Jump(n, x),
        Flow::Go(w9) => {
            let f10 = if ln == sbytes("r") && pp && !cell { body_run_phase(tv, len, a, i, w9) } else { Flow::Go(w9) };
            match f10 {
                Flow::Jump(n, x) => Flow::Jump(n, x),
                Flow::Go(w10) => Flow::Go(PV { stack: w10.stack.push(ln), ..w10 }),
            }
        },
    }
}

/// A start tag at token `i` (its parent is the stack's top): the phases
/// above, in order, each of which may take the pass past the element.
pub open spec fn start_step(tv: Seq<TokView>, len: int, a: Acts, i: int, w: PV) -> Flow {
    let ln = local_of(tv[i].1);
    let body = top_s(w.stack, "body");
    let pp = top_s(w.stack, "p");
    let cell = in_cell_s(w.stack);
    let f1 = if ln == sbytes("p") && body { start_para_phase(tv, len, a, i, w) } else { Flow::Go(w) };
    match f1 {
        Flow::Jump(n, x) => Flow::Jump(n, x),
        Flow::Go(w1) => start_mid(tv, len, a, i, w1, ln, body, pp, cell),
    }
}

/// A self-closing body paragraph (token `i`, counted in `w`): with a delete
/// action it is dropped, the paragraphs inserted after it written in its
/// place; with paragraphs to insert after it, they are written right after
/// it.
pub open spec fn empty_para_actions(tv: Seq<TokView>, a: Acts, i: int, w: PV) -> PV {
    match ord_spec(w.p) {
        Some(ord) => if a.1.dom().contains(ord) {
            let pt = a.1[ord];
            if pt.delete {
                PV { sp: sp_skip(sp_emit_all(sp_copy(w.sp, tv[i].2 as int), pt.insert_after@), tv[i].3 as int), ..w }
            } else if pt.insert_after@.len() > 0 {
                PV { sp: sp_emit_all(sp_copy(w.sp, tv[i].3 as int), pt.insert_after@), ..w }
            } else {
                w
            }
        } else {
            w
        },
        None => w,
    }
}

/// An empty tag at token `i`: a body paragraph is counted (and its actions
/// applied, see [`empty_para_actions`]), or a paragraph's run is counted.
pub open spec fn empty_step(tv: Seq<TokView>, a: Acts, i: int, w: PV) -> PV {
    let ln = local_of(tv[i].1);
    let w1 = if ln == sbytes("p") && top_s(w.stack, "body") {
        empty_para_actions(tv, a, i, PV { p: w.p + 1, r: 0, hl: 0, fld: 0, wrapper: None, ..w })
    } else {
        w
    };
    if ln == sbytes("r") && top_s(w.stack, "p") {
        PV { r: w1.r + 1, ..w1 }
    } else {
        w1
    }
}

/// An end tag at token `i`: the stack pops; a wrapper closes; a row closes
/// (the rows inserted after an open row with an action are written right
/// after it); a body paragraph closes (likewise for the paragraphs inserted
/// after the open paragraph).
pub open spec fn end_step(tv: Seq<TokView>, a: Acts, i: int, w: PV) -> PV {
    let ln = local_of(tv[i].1);
    let end = tv[i].3 as int;
    let w1 = PV { stack: if w.stack.len() > 0 { w.stack.drop_last() } else { w.stack }, ..w };
    let w2 = if ln == sbytes("hyperlink") || ln == sbytes("fldSimple") { PV { wrapper: None, ..w1 } } else { w1 };
    let w3 = if ln == sbytes("tr") {
        PV {
            open_row: None,
            sp: match w2.open_row {
                Some(key) => if a.3.dom().contains(key) && a.3[key].insert_after@.len() > 0 {
                    sp_emit_all(sp_copy(w2.sp, end), a.3[key].insert_after@)
                } else {
                    w2.sp
                },
                None => w2.sp,
            },
            ..w2
        }
    } else {
        w2
    };
    if ln == sbytes("p") && top_s(w3.stack, "body") {
        PV {
            open_para: None,
            sp: match w3.open_para {
                Some(ord) => if a.1.dom().contains(ord) && a.1[ord].insert_after@.len() > 0 {
                    sp_emit_all(sp_copy(w3.sp, end), a.1[ord].insert_after@)
                } else {
                    w3.sp
                },
                None => w3.sp,
            },
            ..w3
        }
    } else {
        w3
    }
}

/// The pass from token `i` on, in state `w`.
pub open spec fn patch_walk(tv: Seq<TokView>, len: int, a: Acts, i: int, w: PV) -> PV
    decreases tv.len() - i,
{
    if i < 0 || i >= tv.len() {
        w
    } else if tv[i].0 == TokKind::Start {
        match start_step(tv, len, a, i, w) {
            Flow::Go(w1) => patch_walk(tv, len, a, i + 1, w1),
            Flow::Jump(n, w1) => if i < n <= tv.len() {
                patch_walk(tv, len, a, n, w1)
            } else {
                w1
            },
        }
    } else if tv[i].0 == TokKind::Empty {
        patch_walk(tv, len, a, i + 1, empty_step(tv, a, i, w))
    } else if tv[i].0 == TokKind::End {
        patch_walk(tv, len, a, i + 1, end_step(tv, a, i, w))
    } else {
        patch_walk(tv, len, a, i + 1, w)
    }
}

/// The pass's state before any token.
pub open spec fn pass_start() -> PV {
    PV {
        stack: Seq::empty(),
        p: 0,
        r: 0,
        tbl: 0,
        tr: 0,
        tc: 0,
        cp: 0,
        cr: 0,
        hl: 0,
        fld: 0,
        wrap: 0,
        open_para: None,
        prepended: false,
        ppr_done: false,
        wrapper: None,
        open_row: None,
        sp: (0, Seq::empty()),
    }
}

/// Token spans lie inside the input, in order.
pub open spec fn spans_in(tv: Seq<TokView>, len: int) -> bool {
    &&& forall|k: int| 0 <= k < tv.len() ==> tv[k].2 <= tv[k].3 && tv[k].3 <= len
    &&& forall|x: int, y: int| 0 <= x < y < tv.len() ==> tv[x].3 <= tv[y].2
}

/// The holes a patch writes into `src`: none when the tokens' spans do not
/// fit the input; else those of the pass over its tokens (see
/// [`patch_walk`]).
pub open spec fn patch_holes(src: Seq<u8>, a: Acts) -> Seq<Hole> {
    let tv = crate::xml::doc_tokens(src);
    if spans_in(tv, src.len() as int) {
        patch_walk(tv, src.len() as int, a, 0, pass_start()).sp.1
    } else {
        Seq::empty()
    }
}

/// The allowed fragments of a patch: those its actions write.
pub open spec fn allowed_of(a: Acts) -> spec_fn(Seq<u8>) -> bool {
    |h: Seq<u8>| patch_fragment(h, a.0, a.1, a.2, a.3)
}

/// The local names of a stack of open elements.
pub open spec fn names_of(v: Seq<Vec<u8>>) -> Seq<Seq<u8>> {
    v.map_values(|n: Vec<u8>| n@)
}

/// The patch pass's state (see [`PV`]).
struct Pass {
    stack: Vec<Vec<u8>>,
    p: usize,
    r: usize,
    tbl: usize,
    tr: usize,
    tc: usize,
    cp: usize,
    cr: usize,
    hl: usize,
    fld: usize,
    wrap: usize,
    open_para: Option<u32>,
    prepended: bool,
    ppr_done: bool,
    wrapper: Option<Wrapper>,
    open_row: Option<(u32, u32)>,
}

/// Where a phase leaves the pass: on at token `i`, or past it at token `n`
/// (with the splicer's cursor no further than that token's start).
pub open spec fn lands(toks: Seq<XmlToken>, i: int, r: Option<usize>, cursor: int) -> bool {
    match r {
        Some(n) => i < n <= toks.len() && (n < toks.len() ==> cursor <= toks[n as int].start),
        None => cursor <= toks[i].start,
    }
}

/// A phase's result as a flow.
pub open spec fn flow_of(r: Option<usize>, w: PV) -> Flow {
    match r {
        Some(n) => Flow::Jump(n as int, w),
        None => Flow::Go(w),
    }
}

impl Pass {
    /// The state as values.
    spec fn pv(&self, sp: Splicer) -> PV {
        PV {
            stack: names_of(self.stack@),
            p: self.p as int,
            r: self.r as int,
            tbl: self.tbl as int,
            tr: self.tr as int,
            tc: self.tc as int,
            cp: self.cp as int,
            cr: self.cr as int,
            hl: self.hl as int,
            fld: self.fld as int,
            wrap: self.wrap as int,
            open_para: self.open_para,
            prepended: self.prepended,
            ppr_done: self.ppr_done,
            wrapper: self.wrapper,
            open_row: self.open_row,
            sp: (sp.cursor as int, sp.holes@),
        }
    }

    /// Every counter is at most `b`.
    spec fn within(&self, b: int) -> bool {
        &&& self.p <= b && self.r <= b && self.tbl <= b && self.tr <= b && self.tc <= b
        &&& self.cp <= b && self.cr <= b && self.hl <= b && self.fld <= b && self.wrap <= b
    }

    /// With nothing to patch, nothing was written and nothing is open.
    spec fn quiet(&self, sp: Splicer, a: Acts) -> bool {
        no_actions(a.0, a.1, a.2, a.3) ==> sp.holes@.len() == 0 && self.open_para is None && self.open_row is None
    }
}

/// The splicer and the tokens are ready for work at token `i`.
pub open spec fn ready(src: Seq<u8>, toks: Seq<XmlToken>, sp: Splicer, a: Acts, i: int) -> bool {
    &&& spans_ok(toks, src.len() as nat)
    &&& sp.inv(src)
    &&& sp.allowed@ == allowed_of(a)
    &&& 0 <= i < toks.len()
    &&& sp.cursor <= toks[i].start
}

impl Pass {
    /// A body paragraph opens (see [`start_para_phase`]).
    fn start_para(
        &mut self,
        sp: &mut Splicer,
        src: &[u8],
        toks: &Vec<XmlToken>,
        i: usize,
        targets: &[ResolvedTarget],
        paras: &BTreeMap<u32, ResolvedParaTarget>,
        cells: &[ResolvedCellTarget],
        rows: &BTreeMap<(u32, u32), ResolvedRowTarget>,
    ) -> (r: Option<usize>)
        requires
            ready(src@, toks@, *old(sp), (targets@, paras@, cells@, rows@), i as int),
            old(self).p <= i,
            old(self).quiet(*old(sp), (targets@, paras@, cells@, rows@)),
        ensures
            final(sp).inv(src@),
            final(sp).allowed@ == old(sp).allowed@,
            lands(toks@, i as int, r, final(sp).cursor as int),
            final(self).quiet(*final(sp), (targets@, paras@, cells@, rows@)),
            start_para_phase(tviews(toks@), src@.len() as int, (targets@, paras@, cells@, rows@), i as int, old(self).pv(*old(sp)))
                == flow_of(r, final(self).pv(*final(sp))),
    {
        let len = src.len();
        let start = toks[i].start;
        assert(tviews(toks@)[i as int] == toks@[i as int]@);
        let ntoks = toks.len();
        assert(i < ntoks);
        self.p = self.p + 1;
        self.r = 0;
        self.hl = 0;
        self.fld = 0;
        self.wrapper = None;
        self.open_para = None;
        if let Some(ord) = ord_of(self.p) {
            if let Some(pt) = paras.get(&ord) {
                proof {
                    lemma_para_allowed(targets@, paras@, cells@, rows@, ord);
                }
                if pt.delete {
                    let (next, stop) = skip_element(toks, i, len);
                    sp.copy_to(src, start);
                    emit_all(sp, src, &pt.insert_after);
                    sp.skip_to(src, stop);
                    return Some(next);
                }
                self.open_para = Some(ord);
                self.prepended = false;
                self.ppr_done = false;
            }
        }
        None
    }

    /// A run inside the open wrapper opens (see [`wrapped_run_phase`]).
    fn wrapped_run(
        &mut self,
        sp: &mut Splicer,
        src: &[u8],
        toks: &Vec<XmlToken>,
        i: usize,
        targets: &[ResolvedTarget],
        paras: &BTreeMap<u32, ResolvedParaTarget>,
        cells: &[ResolvedCellTarget],
        rows: &BTreeMap<(u32, u32), ResolvedRowTarget>,
    ) -> (r: Option<usize>)
        requires
            ready(src@, toks@, *old(sp), (targets@, paras@, cells@, rows@), i as int),
            old(self).wrap <= i,
            old(self).quiet(*old(sp), (targets@, paras@, cells@, rows@)),
        ensures
            final(sp).inv(src@),
            final(sp).allowed@ == old(sp).allowed@,
            lands(toks@, i as int, r, final(sp).cursor as int),
            final(self).quiet(*final(sp), (targets@, paras@, cells@, rows@)),
            wrapped_run_phase(tviews(toks@), src@.len() as int, (targets@, paras@, cells@, rows@), i as int, old(self).pv(*old(sp)))
                == flow_of(r, final(self).pv(*final(sp))),
    {
        let ntoks = toks.len();
        assert(i < ntoks);
        self.wrap = self.wrap + 1;
        if let Some(k) = find_target(targets, self.wrapper, self.p, self.wrap) {
            let t = &targets[k];
            proof {
                lemma_target_allowed(targets@, paras@, cells@, rows@, k as int);
            }
            let (next, _after) = splice_run(toks, src, i, &t.new_text, &t.new_rpr, sp);
            return Some(next);
        }
        None
    }

    /// The open paragraph's properties open (see [`ppr_phase`]).
    fn ppr(
        &mut self,
        sp: &mut Splicer,
        src: &[u8],
        toks: &Vec<XmlToken>,
        i: usize,
        targets: &[ResolvedTarget],
        paras: &BTreeMap<u32, ResolvedParaTarget>,
        cells: &[ResolvedCellTarget],
        rows: &BTreeMap<(u32, u32), ResolvedRowTarget>,
    ) -> (r: Option<usize>)
        requires
            ready(src@, toks@, *old(sp), (targets@, paras@, cells@, rows@), i as int),
            old(self).quiet(*old(sp), (targets@, paras@, cells@, rows@)),
        ensures
            final(sp).inv(src@),
            final(sp).allowed@ == old(sp).allowed@,
            lands(toks@, i as int, r, final(sp).cursor as int),
            final(self).quiet(*final(sp), (targets@, paras@, cells@, rows@)),
            ppr_phase(tviews(toks@), src@.len() as int, (targets@, paras@, cells@, rows@), i as int, old(self).pv(*old(sp)))
                == flow_of(r, final(self).pv(*final(sp))),
    {
        let len = src.len();
        let start = toks[i].start;
        assert(tviews(toks@)[i as int] == toks@[i as int]@);
        if let Some(ord) = self.open_para {
            if let Some(pt) = paras.get(&ord) {
                proof {
                    lemma_para_allowed(targets@, paras@, cells@, rows@, ord);
                }
                if let Some(ppr) = &pt.new_ppr {
                    let (next, stop) = skip_element(toks, i, len);
                    sp.copy_to(src, start);
                    sp.emit(src, ppr);
                    sp.skip_to(src, stop);
                    self.ppr_done = true;
                    return Some(next);
                }
            }
        }
        None
    }

    /// A row opens in a table (see [`row_phase`]).
    fn row(
        &mut self,
        sp: &mut Splicer,
        src: &[u8],
        toks: &Vec<XmlToken>,
        i: usize,
        targets: &[ResolvedTarget],
        paras: &BTreeMap<u32, ResolvedParaTarget>,
        cells: &[ResolvedCellTarget],
        rows: &BTreeMap<(u32, u32), ResolvedRowTarget>,
    ) -> (r: Option<usize>)
        requires
            ready(src@, toks@, *old(sp), (targets@, paras@, cells@, rows@), i as int),
            old(self).tr <= i,
            old(self).quiet(*old(sp), (targets@, paras@, cells@, rows@)),
        ensures
            final(sp).inv(src@),
            final(sp).allowed@ == old(sp).allowed@,
            lands(toks@, i as int, r, final(sp).cursor as int),
            final(self).quiet(*final(sp), (targets@, paras@, cells@, rows@)),
            row_phase(tviews(toks@), src@.len() as int, (targets@, paras@, cells@, rows@), i as int, old(self).pv(*old(sp)))
                == flow_of(r, final(self).pv(*final(sp))),
    {
        let len = src.len();
        let start = toks[i].start;
        assert(tviews(toks@)[i as int] == toks@[i as int]@);
        let ntoks = toks.len();
        assert(i < ntoks);
        self.tr = self.tr + 1;
        self.tc = 0;
        self.open_row = None;
        if let (Some(t), Some(r)) = (ord_of(self.tbl), ord_of(self.tr)) {
            if let Some(rt) = rows.get(&(t, r)) {
                proof {
                    lemma_row_allowed(targets@, paras@, cells@, rows@, (t, r));
                }
                if rt.delete {
                    let (next, stop) = skip_element(toks, i, len);
                    sp.copy_to(src, start);
                    emit_all(sp, src, &rt.insert_after);
                    sp.skip_to(src, stop);
                    return Some(next);
                }
                self.open_row = Some((t, r));
            }
        }
        None
    }

    /// A run of a cell paragraph opens (see [`cell_run_phase`]).
    fn cell_run(
        &mut self,
        sp: &mut Splicer,
        src: &[u8],
        toks: &Vec<XmlToken>,
        i: usize,
        targets: &[ResolvedTarget],
        paras: &BTreeMap<u32, ResolvedParaTarget>,
        cells: &[ResolvedCellTarget],
        rows: &BTreeMap<(u32, u32), ResolvedRowTarget>,
    ) -> (r: Option<usize>)
        requires
            ready(src@, toks@, *old(sp), (targets@, paras@, cells@, rows@), i as int),
            old(self).cr <= i,
            old(self).quiet(*old(sp), (targets@, paras@, cells@, rows@)),
        ensures
            final(sp).inv(src@),
            final(sp).allowed@ == old(sp).allowed@,
            lands(toks@, i as int, r, final(sp).cursor as int),
            final(self).quiet(*final(sp), (targets@, paras@, cells@, rows@)),
            cell_run_phase(tviews(toks@), src@.len() as int, (targets@, paras@, cells@, rows@), i as int, old(self).pv(*old(sp)))
                == flow_of(r, final(self).pv(*final(sp))),
    {
        let ntoks = toks.len();
        assert(i < ntoks);
        self.cr = self.cr + 1;
        if let Some(k) = find_cell(cells, self.tbl, self.tr, self.tc, self.cp, self.cr) {
            let c = &cells[k];
            proof {
                lemma_cell_allowed(targets@, paras@, cells@, rows@, k as int);
            }
            let (next, _after) = splice_run(toks, src, i, &c.new_text, &c.new_rpr, sp);
            return Some(next);
        }
        None
    }

    /// The open paragraph's head goes in before its first run (see
    /// [`para_head`]).
    fn head(
        &mut self,
        sp: &mut Splicer,
        src: &[u8],
        toks: &Vec<XmlToken>,
        i: usize,
        targets: &[ResolvedTarget],
        paras: &BTreeMap<u32, ResolvedParaTarget>,
        cells: &[ResolvedCellTarget],
        rows: &BTreeMap<(u32, u32), ResolvedRowTarget>,
    )
        requires
            ready(src@, toks@, *old(sp), (targets@, paras@, cells@, rows@), i as int),
            old(self).quiet(*old(sp), (targets@, paras@, cells@, rows@)),
        ensures
            ready(src@, toks@, *final(sp), (targets@, paras@, cells@, rows@), i as int),
            final(sp).allowed@ == old(sp).allowed@,
            final(self).quiet(*final(sp), (targets@, paras@, cells@, rows@)),
            para_head(tviews(toks@), (targets@, paras@, cells@, rows@), i as int, old(self).pv(*old(sp))) == final(self).pv(*final(sp)),
    {
        let start = toks[i].start;
        assert(tviews(toks@)[i as int] == toks@[i as int]@);
        if let Some(ord) = self.open_para {
            if let Some(pt) = paras.get(&ord) {
                proof {
                    lemma_para_allowed(targets@, paras@, cells@, rows@, ord);
                }
                if !self.ppr_done {
                    if let Some(ppr) = &pt.new_ppr {
                        sp.copy_to(src, start);
                        sp.emit(src, ppr);
                    }
                    self.ppr_done = true;
                }
                if !self.prepended && pt.prepend_runs.len() > 0 {
                    sp.copy_to(src, start);
                    emit_all(sp, src, &pt.prepend_runs);
                    self.prepended = true;
                }
            }
        }
    }

    /// A run of a body paragraph opens (see [`body_run_phase`]).
    fn body_run(
        &mut self,
        sp: &mut Splicer,
        src: &[u8],
        toks: &Vec<XmlToken>,
        i: usize,
        targets: &[ResolvedTarget],
        paras: &BTreeMap<u32, ResolvedParaTarget>,
        cells: &[ResolvedCellTarget],
        rows: &BTreeMap<(u32, u32), ResolvedRowTarget>,
    ) -> (r: Option<usize>)
        requires
            ready(src@, toks@, *old(sp), (targets@, paras@, cells@, rows@), i as int),
            old(self).r <= i,
            old(self).quiet(*old(sp), (targets@, paras@, cells@, rows@)),
        ensures
            final(sp).inv(src@),
            final(sp).allowed@ == old(sp).allowed@,
            lands(toks@, i as int, r, final(sp).cursor as int),
            final(self).quiet(*final(sp), (targets@, paras@, cells@, rows@)),
            body_run_phase(tviews(toks@), src@.len() as int, (targets@, paras@, cells@, rows@), i as int, old(self).pv(*old(sp)))
                == flow_of(r, final(self).pv(*final(sp))),
    {
        let len = src.len();
        let start = toks[i].start;
        assert(tviews(toks@)[i as int] == toks@[i as int]@);
        let ntoks = toks.len();
        assert(i < ntoks);
        self.r = self.r + 1;
        self.head(sp, src, toks, i, targets, paras, cells, rows);
        if let Some(k) = find_target(targets, None, self.p, self.r) {
            let t = &targets[k];
            proof {
                lemma_target_allowed(targets@, paras@, cells@, rows@, k as int);
            }
            if t.delete {
                let (next, stop) = skip_element(toks, i, len);
                sp.copy_to(src, start);
                emit_all(sp, src, &t.insert_after);
                sp.skip_to(src, stop);
                return Some(next);
            }
            let (next, after) = splice_run(toks, src, i, &t.new_text, &t.new_rpr, sp);
            if t.insert_after.len() > 0 {
                sp.copy_to(src, after);
                emit_all(sp, src, &t.insert_after);
            }
            return Some(next);
        }
        None
    }
}


/// Where a start tag leaves the pass: on at the next token with state `w`,
/// or at token `next` after a jump.
pub open spec fn start_lands(f: Flow, i: int, next: int, w: PV) -> bool {
    match f {
        Flow::Go(x) => next == i + 1 && w == x,
        Flow::Jump(n, x) => next == n && w == x,
    }
}

impl Pass {
    /// A start tag after its paragraph phases (see [`start_table`]).
    fn start_table_tok(
        &mut self,
        sp: &mut Splicer,
        src: &[u8],
        toks: &Vec<XmlToken>,
        i: usize,
        targets: &[ResolvedTarget],
        paras: &BTreeMap<u32, ResolvedParaTarget>,
        cells: &[ResolvedCellTarget],
        rows: &BTreeMap<(u32, u32), ResolvedRowTarget>,
        ln: Vec<u8>,
        body: bool,
        pp: bool,
        cell: bool,
    ) -> (next: usize)
        requires
            ready(src@, toks@, *old(sp), (targets@, paras@, cells@, rows@), i as int),
            old(self).quiet(*old(sp), (targets@, paras@, cells@, rows@)),
            old(self).within(i + 1),
            old(self).tbl <= i && old(self).tr <= i && old(self).tc <= i && old(self).cp <= i && old(self).cr <= i && old(self).r <= i,
            pp == top_s(names_of(old(self).stack@), "p"),
            cell == in_cell_s(names_of(old(self).stack@)),
        ensures
            final(sp).inv(src@),
            final(sp).allowed@ == old(sp).allowed@,
            i < next <= toks@.len(),
            next < toks@.len() ==> final(sp).cursor <= toks@[next as int].start,
            final(self).quiet(*final(sp), (targets@, paras@, cells@, rows@)),
            final(self).within(i + 1),
            start_lands(
                start_table(tviews(toks@), src@.len() as int, (targets@, paras@, cells@, rows@), i as int, old(self).pv(*old(sp)), ln@, body, pp, cell),
                i as int,
                next as int,
                final(self).pv(*final(sp)),
            ),
    {
        let ntoks = toks.len();
        if is_lit(&ln, "tbl") && body {
            self.tbl = self.tbl + 1;
            self.tr = 0;
        }
        if is_lit(&ln, "tr") && top_is(&self.stack, "tbl") {
            if let Some(n) = self.row(sp, src, toks, i, targets, paras, cells, rows) {
                return n;
            }
        }
        self.start_cells_tok(sp, src, toks, i, targets, paras, cells, rows, ln, pp, cell)
    }

    /// A start tag after its table phases (see [`start_cells`]).
    fn start_cells_tok(
        &mut self,
        sp: &mut Splicer,
        src: &[u8],
        toks: &Vec<XmlToken>,
        i: usize,
        targets: &[ResolvedTarget],
        paras: &BTreeMap<u32, ResolvedParaTarget>,
        cells: &[ResolvedCellTarget],
        rows: &BTreeMap<(u32, u32), ResolvedRowTarget>,
        ln: Vec<u8>,
        pp: bool,
        cell: bool,
    ) -> (next: usize)
        requires
            ready(src@, toks@, *old(sp), (targets@, paras@, cells@, rows@), i as int),
            old(self).quiet(*old(sp), (targets@, paras@, cells@, rows@)),
            old(self).within(i + 1),
            old(self).tc <= i && old(self).cp <= i && old(self).cr <= i && old(self).r <= i,
            pp == top_s(names_of(old(self).stack@), "p"),
            cell == in_cell_s(names_of(old(self).stack@)),
        ensures
            final(sp).inv(src@),
            final(sp).allowed@ == old(sp).allowed@,
            i < next <= toks@.len(),
            next < toks@.len() ==> final(sp).cursor <= toks@[next as int].start,
            final(self).quiet(*final(sp), (targets@, paras@, cells@, rows@)),
            final(self).within(i + 1),
            start_lands(
                start_cells(tviews(toks@), src@.len() as int, (targets@, paras@, cells@, rows@), i as int, old(self).pv(*old(sp)), ln@, pp, cell),
                i as int,
                next as int,
                final(self).pv(*final(sp)),
            ),
    {
        let ntoks = toks.len();
        proof {
            if self.stack@.len() > 0 {
                assert(names_of(self.stack@).last() == self.stack@.last()@);
            }
        }
        if is_lit(&ln, "tc") && top_is(&self.stack, "tr") {
            self.tc = self.tc + 1;
            self.cp = 0;
        }
        if is_lit(&ln, "p") && top_is(&self.stack, "tc") {
            self.cp = self.cp + 1;
            self.cr = 0;
        }
        if is_lit(&ln, "r") && pp && cell {
            if let Some(n) = self.cell_run(sp, src, toks, i, targets, paras, cells, rows) {
                return n;
            }
        }
        if is_lit(&ln, "r") && pp && !cell {
            if let Some(n) = self.body_run(sp, src, toks, i, targets, paras, cells, rows) {
                return n;
            }
        }
        let ghost before = self.stack@;
        self.stack.push(ln);
        assert(names_of(self.stack@) =~= names_of(before).push(ln@));
        i + 1
    }

    /// A start tag after its first phase (see [`start_mid`]).
    fn start_mid_tok(
        &mut self,
        sp: &mut Splicer,
        src: &[u8],
        toks: &Vec<XmlToken>,
        i: usize,
        targets: &[ResolvedTarget],
        paras: &BTreeMap<u32, ResolvedParaTarget>,
        cells: &[ResolvedCellTarget],
        rows: &BTreeMap<(u32, u32), ResolvedRowTarget>,
        ln: Vec<u8>,
        body: bool,
        pp: bool,
        cell: bool,
    ) -> (next: usize)
        requires
            ready(src@, toks@, *old(sp), (targets@, paras@, cells@, rows@), i as int),
            old(self).quiet(*old(sp), (targets@, paras@, cells@, rows@)),
            old(self).within(i + 1),
            old(self).tbl <= i && old(self).tr <= i && old(self).tc <= i && old(self).cp <= i && old(self).cr <= i && old(self).r <= i,
            old(self).hl <= i && old(self).fld <= i && old(self).wrap <= i,
            pp == top_s(names_of(old(self).stack@), "p"),
            cell == in_cell_s(names_of(old(self).stack@)),
        ensures
            final(sp).inv(src@),
            final(sp).allowed@ == old(sp).allowed@,
            i < next <= toks@.len(),
            next < toks@.len() ==> final(sp).cursor <= toks@[next as int].start,
            final(self).quiet(*final(sp), (targets@, paras@, cells@, rows@)),
            final(self).within(i + 1),
            start_lands(
                start_mid(tviews(toks@), src@.len() as int, (targets@, paras@, cells@, rows@), i as int, old(self).pv(*old(sp)), ln@, body, pp, cell),
                i as int,
                next as int,
                final(self).pv(*final(sp)),
            ),
    {
        let ntoks = toks.len();
        if pp && !cell {
            if is_lit(&ln, "hyperlink") {
                self.hl = self.hl + 1;
                self.wrap = 0;
                self.wrapper = match ord_of(self.hl) {
                    Some(o) => Some(Wrapper::Hyperlink(o)),
                    None => None,
                };
            } else if is_lit(&ln, "fldSimple") {
                self.fld = self.fld + 1;
                self.wrap = 0;
                self.wrapper = match ord_of(self.fld) {
                    Some(o) => Some(Wrapper::Field(o)),
                    None => None,
                };
            }
        }
        if is_lit(&ln, "r") && self.wrapper.is_some() && !pp {
            if let Some(n) = self.wrapped_run(sp, src, toks, i, targets, paras, cells, rows) {
                return n;
            }
        }
        if is_lit(&ln, "pPr") && pp && !cell {
            if let Some(n) = self.ppr(sp, src, toks, i, targets, paras, cells, rows) {
                return n;
            }
        }
        self.start_table_tok(sp, src, toks, i, targets, paras, cells, rows, ln, body, pp, cell)
    }

    /// A start tag (see [`start_step`]).
    fn start_tok(
        &mut self,
        sp: &mut Splicer,
        src: &[u8],
        toks: &Vec<XmlToken>,
        i: usize,
        targets: &[ResolvedTarget],
        paras: &BTreeMap<u32, ResolvedParaTarget>,
        cells: &[ResolvedCellTarget],
        rows: &BTreeMap<(u32, u32), ResolvedRowTarget>,
    ) -> (next: usize)
        requires
            ready(src@, toks@, *old(sp), (targets@, paras@, cells@, rows@), i as int),
            old(self).quiet(*old(sp), (targets@, paras@, cells@, rows@)),
            old(self).within(i as int),
        ensures
            final(sp).inv(src@),
            final(sp).allowed@ == old(sp).allowed@,
            i < next <= toks@.len(),
            next < toks@.len() ==> final(sp).cursor <= toks@[next as int].start,
            final(self).quiet(*final(sp), (targets@, paras@, cells@, rows@)),
            final(self).within(i + 1),
            start_lands(
                start_step(tviews(toks@), src@.len() as int, (targets@, paras@, cells@, rows@), i as int, old(self).pv(*old(sp))),
                i as int,
                next as int,
                final(self).pv(*final(sp)),
            ),
    {
        let ntoks = toks.len();
        assert(tviews(toks@)[i as int] == toks@[i as int]@);
        let ln = local_name(&toks[i].name);
        let body = top_is(&self.stack, "body");
        let pp = top_is(&self.stack, "p");
        let cell = in_cell(&self.stack);
        proof {
            let nm = names_of(self.stack@);
            if self.stack@.len() > 0 {
                assert(nm.last() == self.stack@.last()@);
            }
            if cell {
                let k = choose|k: int| 0 <= k < self.stack@.len() && #[trigger] self.stack@[k]@ == sbytes("tc");
                assert(nm[k] == sbytes("tc"));
            }
            if in_cell_s(nm) {
                let k = choose|k: int| 0 <= k < nm.len() && #[trigger] nm[k] == sbytes("tc");
                assert(self.stack@[k]@ == sbytes("tc"));
            }
        }
        if is_lit(&ln, "p") && body {
            if let Some(n) = self.start_para(sp, src, toks, i, targets, paras, cells, rows) {
                return n;
            }
        }
        self.start_mid_tok(sp, src, toks, i, targets, paras, cells, rows, ln, body, pp, cell)
    }

    /// An empty tag (see [`empty_step`]).
    fn empty_tok(
        &mut self,
        sp: &mut Splicer,
        src: &[u8],
        toks: &Vec<XmlToken>,
        i: usize,
        targets: &[ResolvedTarget],
        paras: &BTreeMap<u32, ResolvedParaTarget>,
        cells: &[ResolvedCellTarget],
        rows: &BTreeMap<(u32, u32), ResolvedRowTarget>,
    )
        requires
            ready(src@, toks@, *old(sp), (targets@, paras@, cells@, rows@), i as int),
            old(self).quiet(*old(sp), (targets@, paras@, cells@, rows@)),
            old(self).within(i as int),
        ensures
            final(sp).inv(src@),
            final(sp).allowed@ == old(sp).allowed@,
            i + 1 < toks@.len() ==> final(sp).cursor <= toks@[i + 1].start,
            final(self).quiet(*final(sp), (targets@, paras@, cells@, rows@)),
            final(self).within(i + 1),
            final(self).pv(*final(sp)) == empty_step(tviews(toks@), (targets@, paras@, cells@, rows@), i as int, old(self).pv(*old(sp))),
    {
        let ntoks = toks.len();
        assert(tviews(toks@)[i as int] == toks@[i as int]@);
        let start = toks[i].start;
        let end = toks[i].end;
        if i + 1 < ntoks {
            assert(toks@[i as int].end <= toks@[i + 1].start);
        }
        let ln = local_name(&toks[i].name);
        proof {
            if self.stack@.len() > 0 {
                assert(names_of(self.stack@).last() == self.stack@.last()@);
            }
        }
        let parent_body = top_is(&self.stack, "body");
        let parent_p = top_is(&self.stack, "p");
        if is_lit(&ln, "p") && parent_body {
            self.p = self.p + 1;
            self.r = 0;
            self.hl = 0;
            self.fld = 0;
            self.wrapper = None;
            if let Some(ord) = ord_of(self.p) {
                if let Some(pt) = paras.get(&ord) {
                    proof {
                        lemma_para_allowed(targets@, paras@, cells@, rows@, ord);
                    }
                    if pt.delete {
                        sp.copy_to(src, start);
                        emit_all(sp, src, &pt.insert_after);
                        sp.skip_to(src, end);
                    } else if pt.insert_after.len() > 0 {
                        sp.copy_to(src, end);
                        emit_all(sp, src, &pt.insert_after);
                    }
                }
            }
        }
        if is_lit(&ln, "r") && parent_p {
            self.r = self.r + 1;
        }
    }

    /// An end tag (see [`end_step`]).
    fn end_tok(
        &mut self,
        sp: &mut Splicer,
        src: &[u8],
        toks: &Vec<XmlToken>,
        i: usize,
        targets: &[ResolvedTarget],
        paras: &BTreeMap<u32, ResolvedParaTarget>,
        cells: &[ResolvedCellTarget],
        rows: &BTreeMap<(u32, u32), ResolvedRowTarget>,
    )
        requires
            ready(src@, toks@, *old(sp), (targets@, paras@, cells@, rows@), i as int),
            old(self).quiet(*old(sp), (targets@, paras@, cells@, rows@)),
        ensures
            final(sp).inv(src@),
            final(sp).allowed@ == old(sp).allowed@,
            i + 1 < toks@.len() ==> final(sp).cursor <= toks@[i + 1].start,
            final(self).quiet(*final(sp), (targets@, paras@, cells@, rows@)),
            final(self).within(i + 1) <== old(self).within(i as int),
            final(self).pv(*final(sp)) == end_step(tviews(toks@), (targets@, paras@, cells@, rows@), i as int, old(self).pv(*old(sp))),
    {
        assert(tviews(toks@)[i as int] == toks@[i as int]@);
        let ln = local_name(&toks[i].name);
        let end = toks[i].end;
        let ghost before = self.stack@;
        self.stack.pop();
        proof {
            if before.len() > 0 {
                assert(names_of(self.stack@) =~= names_of(before).drop_last());
            } else {
                assert(names_of(self.stack@) =~= names_of(before));
            }
            if self.stack@.len() > 0 {
                assert(names_of(self.stack@).last() == self.stack@.last()@);
            }
        }
        if is_lit(&ln, "hyperlink") || is_lit(&ln, "fldSimple") {
            self.wrapper = None;
        }
        if is_lit(&ln, "tr") {
            if let Some(key) = self.open_row {
                if let Some(rt) = rows.get(&key) {
                    proof {
                        lemma_row_allowed(targets@, paras@, cells@, rows@, key);
                    }
                    if rt.insert_after.len() > 0 {
                        sp.copy_to(src, end);
                        emit_all(sp, src, &rt.insert_after);
                    }
                }
            }
            self.open_row = None;
        }
        if is_lit(&ln, "p") && top_is(&self.stack, "body") {
            if let Some(ord) = self.open_para {
                if let Some(pt) = paras.get(&ord) {
                    proof {
                        lemma_para_allowed(targets@, paras@, cells@, rows@, ord);
                    }
                    if pt.insert_after.len() > 0 {
                        sp.copy_to(src, end);
                        emit_all(sp, src, &pt.insert_after);
                    }
                }
            }
            self.open_para = None;
        }
    }
}

/// Patch `word/document.xml` bytes: run targets (body paragraphs, or runs
/// inside a paragraph's hyperlink/simple-field wrapper), paragraph actions keyed
/// by `<w:p>` ordinal, table-cell run targets, and row actions keyed by
/// `(table ordinal, row)`. Every byte outside the replaced ranges is copied
/// verbatim; with nothing to patch the output is the input.
///
/// The cell counters assume tables are not nested (a `<w:tbl>` inside a
/// `<w:tc>` would be counted against the outer table).
pub fn patch_document_xml_rows(
    src: &[u8],
    targets: &[ResolvedTarget],
    paras: &BTreeMap<u32, ResolvedParaTarget>,
    cells: &[ResolvedCellTarget],
    rows: &BTreeMap<(u32, u32), ResolvedRowTarget>,
) -> (out: Vec<u8>)
    ensures
        out@ == spliced(src@, patch_holes(src@, (targets@, paras@, cells@, rows@))),
        holes_ok(src@.len() as int, patch_holes(src@, (targets@, paras@, cells@, rows@))),
        exists|holes: Seq<Hole>| holes_ok(src@.len() as int, holes) && out@ == spliced(src@, holes)
            && forall|k: int| 0 <= k < holes.len() ==> (#[trigger] holes[k]).2.len() == 0
                || patch_fragment(holes[k].2, targets@, paras@, cells@, rows@),
        no_actions(targets@, paras@, cells@, rows@) ==> out@ == src@,
{
    let (toks, _err) = scan_xml(src);
    let len = src.len();
    let ghost a = (targets@, paras@, cells@, rows@);
    let ghost tv = tviews(toks@);
    let ghost allowed = allowed_of(a);
    let mut sp = Splicer::new(Ghost(allowed));
    proof {
        lemma_spans_view(toks@, len as int);
    }
    if !check_spans(&toks, len) {
        let out = sp.finish(src);
        proof { lemma_spliced_empty(src@); }
        return out;
    }
    let n = toks.len();
    let ghost na = no_actions(targets@, paras@, cells@, rows@);
    let mut w = Pass {
        stack: Vec::new(),
        p: 0,
        r: 0,
        tbl: 0,
        tr: 0,
        tc: 0,
        cp: 0,
        cr: 0,
        hl: 0,
        fld: 0,
        wrap: 0,
        open_para: None,
        prepended: false,
        ppr_done: false,
        wrapper: None,
        open_row: None,
    };
    assert(names_of(w.stack@) =~= Seq::<Seq<u8>>::empty());
    assert(w.pv(sp) =~= pass_start());
    let ghost goal = patch_walk(tv, len as int, a, 0, pass_start());
    let mut i: usize = 0;
    while i < n
        invariant
            n == toks@.len(),
            len == src@.len(),
            i <= n,
            spans_ok(toks@, len as nat),
            tv == tviews(toks@),
            a == (targets@, paras@, cells@, rows@),
            sp.inv(src@),
            sp.allowed@ == allowed,
            allowed == allowed_of(a),
            i < n ==> sp.cursor <= toks@[i as int].start,
            w.within(i as int),
            w.quiet(sp, a),
            patch_walk(tv, len as int, a, i as int, w.pv(sp)) == goal,
            goal == patch_walk(tv, len as int, a, 0, pass_start()),
        decreases n - i,
    {
        assert(tv[i as int] == toks@[i as int]@);
        let ghost w0 = w.pv(sp);
        match toks[i].kind {
            TokKind::Start => {
                let next = w.start_tok(&mut sp, src, &toks, i, targets, paras, cells, rows);
                i = next;
            },
            TokKind::Empty => {
                w.empty_tok(&mut sp, src, &toks, i, targets, paras, cells, rows);
                i = i + 1;
            },
            TokKind::End => {
                w.end_tok(&mut sp, src, &toks, i, targets, paras, cells, rows);
                i = i + 1;
            },
            _ => {
                if i + 1 < n {
                    assert(toks@[i as int].end <= toks@[i + 1].start);
                }
                i = i + 1;
            },
        }
    }
    let ghost holes = sp.holes@;
    assert(goal.sp.1 == holes);
    let out = sp.finish(src);
    proof {
        if na {
            lemma_spliced_empty(src@);
        }
        assert forall|k: int| 0 <= k < holes.len() implies (#[trigger] holes[k]).2.len() == 0
            || patch_fragment(holes[k].2, targets@, paras@, cells@, rows@) by {
            assert(holes_from(holes, allowed));
        }
    }
    out
}

/// The spans of a token list, checked on the tokens or on their views.
proof fn lemma_spans_view(toks: Seq<XmlToken>, len: int)
    requires
        len >= 0,
    ensures
        spans_ok(toks, len as nat) == spans_in(tviews(toks), len),
{
    let tv = tviews(toks);
    assert forall|k: int| 0 <= k < toks.len() implies #[trigger] tv[k] == toks[k]@ by {}
    if spans_ok(toks, len as nat) {
        assert forall|k: int| 0 <= k < tv.len() implies tv[k].2 <= tv[k].3 && tv[k].3 <= len by {
            assert(tv[k] == toks[k]@);
        }
        assert forall|x: int, y: int| 0 <= x < y < tv.len() implies tv[x].3 <= tv[y].2 by {
            assert(tv[x] == toks[x]@);
            assert(tv[y] == toks[y]@);
        }
    }
    if spans_in(tv, len) {
        assert forall|k: int| 0 <= k < toks.len() implies toks[k].start <= toks[k].end && toks[k].end <= len by {
            assert(tv[k] == toks[k]@);
        }
        assert forall|x: int, y: int| 0 <= x < y < toks.len() implies toks[x].end <= toks[y].start by {
            assert(tv[x] == toks[x]@);
            assert(tv[y] == toks[y]@);
        }
    }
}

proof fn lemma_spliced_empty(src: Seq<u8>)
    ensures
        spliced(src, Seq::<Hole>::empty()) == src,
{
    assert(spliced(src, Seq::<Hole>::empty()) =~= src);
}

/// With no actions, a start tag only moves the pass on: nothing is written.
proof fn lemma_start_idle(tv: Seq<TokView>, len: int, a: Acts, i: int, w: PV)
    requires
        no_actions(a.0, a.1, a.2, a.3),
    ensures
        start_step(tv, len, a, i, w) matches Flow::Go(w1) && w1.sp == w.sp,
{
    let ln = local_of(tv[i].1);
    let body = top_s(w.stack, "body");
    let pp = top_s(w.stack, "p");
    let cell = in_cell_s(w.stack);
    let f1 = if ln == sbytes("p") && body { start_para_phase(tv, len, a, i, w) } else { Flow::Go(w) };
    assert(f1 matches Flow::Go(x) && x.sp == w.sp);
    let w1 = f1->Go_0;
    let w2 = if pp && !cell { wrapper_phase(w1, ln) } else { w1 };
    assert(first_target(a.0, w2.wrapper, w2.p, w2.wrap + 1, 0) is None);
    let f3 = if ln == sbytes("r") && w2.wrapper is Some && !pp { wrapped_run_phase(tv, len, a, i, w2) } else { Flow::Go(w2) };
    assert(f3 matches Flow::Go(x) && x.sp == w.sp);
    let w3 = f3->Go_0;
    let f4 = if ln == sbytes("pPr") && pp && !cell { ppr_phase(tv, len, a, i, w3) } else { Flow::Go(w3) };
    assert(f4 matches Flow::Go(x) && x.sp == w.sp);
    let w4 = f4->Go_0;
    let w5 = if ln == sbytes("tbl") && body { PV { tbl: w4.tbl + 1, tr: 0, ..w4 } } else { w4 };
    let f6 = if ln == sbytes("tr") && top_s(w4.stack, "tbl") { row_phase(tv, len, a, i, w5) } else { Flow::Go(w5) };
    assert(f6 matches Flow::Go(x) && x.sp == w.sp);
    let w6 = f6->Go_0;
    let w7 = if ln == sbytes("tc") && top_s(w6.stack, "tr") { PV { tc: w6.tc + 1, cp: 0, ..w6 } } else { w6 };
    let w8 = if ln == sbytes("p") && top_s(w6.stack, "tc") { PV { cp: w7.cp + 1, cr: 0, ..w7 } } else { w7 };
    assert(first_cell(a.2, w8.tbl, w8.tr, w8.tc, w8.cp, w8.cr + 1, 0) is None);
    let f9 = if ln == sbytes("r") && pp && cell { cell_run_phase(tv, len, a, i, w8) } else { Flow::Go(w8) };
    assert(f9 matches Flow::Go(x) && x.sp == w.sp);
    let w9 = f9->Go_0;
    let hd = para_head(tv, a, i, PV { r: w9.r + 1, ..w9 });
    assert(hd.sp == w.sp);
    assert(first_target(a.0, None, hd.p, hd.r, 0) is None);
    let f10 = if ln == sbytes("r") && pp && !cell { body_run_phase(tv, len, a, i, w9) } else { Flow::Go(w9) };
    assert(f10 matches Flow::Go(x) && x.sp == w.sp);
}

/// With no actions, the pass writes nothing from token `i` on.
proof fn lemma_walk_idle(tv: Seq<TokView>, len: int, a: Acts, i: int, w: PV)
    requires
        no_actions(a.0, a.1, a.2, a.3),
    ensures
        patch_walk(tv, len, a, i, w).sp == w.sp,
    decreases tv.len() - i,
{
    if 0 <= i < tv.len() {
        if tv[i].0 == TokKind::Start {
            lemma_start_idle(tv, len, a, i, w);
            let w1 = start_step(tv, len, a, i, w)->Go_0;
            lemma_walk_idle(tv, len, a, i + 1, w1);
        } else if tv[i].0 == TokKind::Empty {
            let w1 = empty_step(tv, a, i, w);
            assert(w1.sp == w.sp);
            lemma_walk_idle(tv, len, a, i + 1, w1);
        } else if tv[i].0 == TokKind::End {
            let w1 = end_step(tv, a, i, w);
            assert(w1.sp == w.sp);
            lemma_walk_idle(tv, len, a, i + 1, w1);
        } else {
            lemma_walk_idle(tv, len, a, i + 1, w);
        }
    }
}

/// A patch with no actions rewrites nothing: the output is the input, byte
/// for byte.
pub proof fn law_no_actions_keeps_input(src: Seq<u8>, a: Acts)
    requires
        no_actions(a.0, a.1, a.2, a.3),
    ensures
        patch_holes(src, a).len() == 0,
        spliced(src, patch_holes(src, a)) == src,
{
    let tv = crate::xml::doc_tokens(src);
    if spans_in(tv, src.len() as int) {
        lemma_walk_idle(tv, src.len() as int, a, 0, pass_start());
    }
    lemma_spliced_empty(src);
}

/// The patch with no actions.
pub open spec fn idle_acts() -> Acts {
    (Seq::empty(), Map::empty(), Seq::empty(), Map::empty())
}

/// The addresses of elements, as an action names them: body paragraph
/// ordinals; (wrapper, paragraph ordinal, run ordinal) of runs; (table,
/// row) ordinals of rows; (table, row, cell, cell paragraph, run) ordinals
/// of cell runs.
pub type Addrs = (Set<int>, Set<(Option<Wrapper>, int, int)>, Set<(int, int)>, Set<(int, int, int, int, int)>);

/// No addresses.
pub open spec fn no_addrs() -> Addrs {
    (Set::empty(), Set::empty(), Set::empty(), Set::empty())
}

/// Both lists of addresses.
pub open spec fn addrs_union(x: Addrs, y: Addrs) -> Addrs {
    (x.0.union(y.0), x.1.union(y.1), x.2.union(y.2), x.3.union(y.3))
}

/// The address a start tag at token `i` takes in pass state `w`, by the
/// counts the pass has made before it: a body paragraph (the `w.p`-th); a
/// run in the open hyperlink or simple field of a body paragraph; a run of a
/// body paragraph; a table row; a run of a cell paragraph.
pub open spec fn start_addrs(tv: Seq<TokView>, i: int, w: PV) -> Addrs {
    let ln = local_of(tv[i].1);
    let pp = top_s(w.stack, "p");
    let cell = in_cell_s(w.stack);
    (
        if ln == sbytes("p") && top_s(w.stack, "body") { set![w.p] } else { Set::empty() },
        if ln == sbytes("r") && w.wrapper is Some && !pp {
            set![(w.wrapper, w.p - 1, w.wrap)]
        } else if ln == sbytes("r") && pp && !cell {
            set![(None, w.p - 1, w.r)]
        } else {
            Set::empty()
        },
        if ln == sbytes("tr") && top_s(w.stack, "tbl") { set![(w.tbl - 1, w.tr)] } else { Set::empty() },
        if ln == sbytes("r") && pp && cell { set![(w.tbl - 1, w.tr - 1, w.tc - 1, w.cp - 1, w.cr)] } else { Set::empty() },
    )
}

/// The address an empty tag at token `i` takes: a self-closing body
/// paragraph.
pub open spec fn empty_addrs(tv: Seq<TokView>, i: int, w: PV) -> Addrs {
    if local_of(tv[i].1) == sbytes("p") && top_s(w.stack, "body") {
        (set![w.p], Set::empty(), Set::empty(), Set::empty())
    } else {
        no_addrs()
    }
}

/// The addresses of the elements from token `i` on, counted by the pass
/// with no actions from state `w`.
pub open spec fn addrs_from(tv: Seq<TokView>, len: int, i: int, w: PV) -> Addrs
    decreases tv.len() - i,
{
    if i < 0 || i >= tv.len() {
        no_addrs()
    } else if tv[i].0 == TokKind::Start {
        addrs_union(start_addrs(tv, i, w), addrs_from(tv, len, i + 1, start_step(tv, len, idle_acts(), i, w)->Go_0))
    } else if tv[i].0 == TokKind::Empty {
        addrs_union(empty_addrs(tv, i, w), addrs_from(tv, len, i + 1, empty_step(tv, idle_acts(), i, w)))
    } else if tv[i].0 == TokKind::End {
        addrs_from(tv, len, i + 1, end_step(tv, idle_acts(), i, w))
    } else {
        addrs_from(tv, len, i + 1, w)
    }
}

/// The addresses of the elements of a document part (none when its tokens'
/// spans do not fit it).
pub open spec fn doc_addrs(src: Seq<u8>) -> Addrs {
    let tv = crate::xml::doc_tokens(src);
    if spans_in(tv, src.len() as int) {
        addrs_from(tv, src.len() as int, 0, pass_start())
    } else {
        no_addrs()
    }
}

/// No action names one of the addresses: no run target's (wrapper,
/// paragraph, run), no paragraph action's paragraph, no cell target's
/// (table, row, cell, paragraph, run), no row action's (table, row).
pub open spec fn names_none(a: Acts, ad: Addrs) -> bool {
    &&& forall|k: int| 0 <= k < a.0.len() ==> !ad.1.contains(
        ((#[trigger] a.0[k]).wrapper, a.0[k].para_ord as int, a.0[k].run_ord as int),
    )
    &&& forall|o: u32| #[trigger] a.1.dom().contains(o) ==> !ad.0.contains(o as int)
    &&& forall|k: int| 0 <= k < a.2.len() ==> !ad.3.contains(
        (
            (#[trigger] a.2[k]).table_ord as int,
            a.2[k].row as int,
            a.2[k].cell as int,
            a.2[k].para as int,
            a.2[k].run_ord as int,
        ),
    )
    &&& forall|key: (u32, u32)| #[trigger] a.3.dom().contains(key) ==> !ad.2.contains((key.0 as int, key.1 as int))
}

proof fn lemma_first_target_none(ts: Seq<ResolvedTarget>, wr: Option<Wrapper>, p: int, r: int, k: int)
    requires
        forall|j: int| 0 <= j < ts.len() ==> ((#[trigger] ts[j]).wrapper, ts[j].para_ord as int, ts[j].run_ord as int) != (wr, p - 1, r - 1),
    ensures
        first_target(ts, wr, p, r, k) is None,
    decreases ts.len() - k,
{
    if 0 <= k < ts.len() {
        assert((ts[k].wrapper, ts[k].para_ord as int, ts[k].run_ord as int) != (wr, p - 1, r - 1));
        lemma_first_target_none(ts, wr, p, r, k + 1);
    }
}

proof fn lemma_first_cell_none(cs: Seq<ResolvedCellTarget>, tbl: int, tr: int, tc: int, cp: int, cr: int, k: int)
    requires
        forall|j: int| 0 <= j < cs.len() ==> ((#[trigger] cs[j]).table_ord as int, cs[j].row as int, cs[j].cell as int, cs[j].para as int, cs[j].run_ord as int)
            != (tbl - 1, tr - 1, tc - 1, cp - 1, cr - 1),
    ensures
        first_cell(cs, tbl, tr, tc, cp, cr, k) is None,
    decreases cs.len() - k,
{
    if 0 <= k < cs.len() {
        assert((cs[k].table_ord as int, cs[k].row as int, cs[k].cell as int, cs[k].para as int, cs[k].run_ord as int) != (tbl - 1, tr - 1, tc
            - 1, cp - 1, cr - 1));
        lemma_first_cell_none(cs, tbl, tr, tc, cp, cr, k + 1);
    }
}

/// The element names the pass tells apart are distinct byte strings.
proof fn lemma_tag_names_differ()
    ensures
        sbytes("p") != sbytes("r"),
        sbytes("tr") != sbytes("tc"),
        sbytes("tbl") != sbytes("pPr"),
        sbytes("hyperlink") != sbytes("fldSimple"),
        sbytes("p").len() == 1 && sbytes("r").len() == 1,
        sbytes("tr").len() == 2 && sbytes("tc").len() == 2,
        sbytes("tbl").len() == 3 && sbytes("pPr").len() == 3,
        sbytes("hyperlink").len() == 9 && sbytes("fldSimple").len() == 9,
        sbytes("body").len() == 4,
{
    broadcast use vstd::string::is_ascii_spec_bytes;
    reveal_strlit("p");
    reveal_strlit("r");
    reveal_strlit("tr");
    reveal_strlit("tc");
    reveal_strlit("tbl");
    reveal_strlit("pPr");
    reveal_strlit("hyperlink");
    reveal_strlit("fldSimple");
    reveal_strlit("body");
    assert(vstd::string::is_ascii("body"));
    assert(vstd::string::is_ascii("p"));
    assert(vstd::string::is_ascii("r"));
    assert(vstd::string::is_ascii("tr"));
    assert(vstd::string::is_ascii("tc"));
    assert(vstd::string::is_ascii("tbl"));
    assert(vstd::string::is_ascii("pPr"));
    assert(vstd::string::is_ascii("hyperlink"));
    assert(vstd::string::is_ascii("fldSimple"));
    assert(sbytes("p")[0] != sbytes("r")[0]);
    assert(sbytes("tr")[1] != sbytes("tc")[1]);
    assert(sbytes("tbl")[0] != sbytes("pPr")[0]);
    assert(sbytes("hyperlink")[0] != sbytes("fldSimple")[0]);
}

/// The open paragraph, if any, has nothing left to write before it closes:
/// its new properties are written, its prepended runs written or none, and
/// no paragraphs go in after it.
pub open spec fn open_ok(a: Acts, w: PV) -> bool {
    match w.open_para {
        None => true,
        Some(o) => !a.1.dom().contains(o) || (w.ppr_done && (w.prepended || a.1[o].prepend_runs@.len() == 0)
            && a.1[o].insert_after@.len() == 0),
    }
}

/// A `w:pPr` opens at token `i` directly in the open paragraph (outside any
/// table cell).
pub open spec fn ppr_reopened(tv: Seq<TokView>, i: int, w: PV) -> bool {
    &&& w.open_para is Some
    &&& local_of(tv[i].1) == sbytes("pPr")
    &&& top_s(w.stack, "p")
    &&& !in_cell_s(w.stack)
}

/// From token `i` on, counted by the pass with no actions from state `w`,
/// no `w:pPr` opens directly in an open paragraph.
pub open spec fn ppr_quiet(tv: Seq<TokView>, len: int, i: int, w: PV) -> bool
    decreases tv.len() - i,
{
    if i < 0 || i >= tv.len() {
        true
    } else if tv[i].0 == TokKind::Start {
        !ppr_reopened(tv, i, w) && ppr_quiet(tv, len, i + 1, start_step(tv, len, idle_acts(), i, w)->Go_0)
    } else if tv[i].0 == TokKind::Empty {
        ppr_quiet(tv, len, i + 1, empty_step(tv, idle_acts(), i, w))
    } else if tv[i].0 == TokKind::End {
        ppr_quiet(tv, len, i + 1, end_step(tv, idle_acts(), i, w))
    } else {
        ppr_quiet(tv, len, i + 1, w)
    }
}

/// A start tag none of whose addresses an action names takes the pass
/// exactly as with no actions.
proof fn lemma_start_same(tv: Seq<TokView>, len: int, a: Acts, i: int, w: PV)
    requires
        names_none(a, start_addrs(tv, i, w)),
        open_ok(a, w),
        !ppr_reopened(tv, i, w),
        w.open_row is None,
    ensures
        start_step(tv, len, a, i, w) == start_step(tv, len, idle_acts(), i, w),
        start_step(tv, len, idle_acts(), i, w) matches Flow::Go(x) && x.sp == w.sp && x.open_row is None && (x.open_para is None || (
        x.open_para == w.open_para && x.ppr_done == w.ppr_done && x.prepended == w.prepended)),
{
    let z = idle_acts();
    lemma_start_idle(tv, len, z, i, w);
    lemma_tag_names_differ();
    let ln = local_of(tv[i].1);
    let body = top_s(w.stack, "body");
    let pp = top_s(w.stack, "p");
    let cell = in_cell_s(w.stack);
    let ad = start_addrs(tv, i, w);
    let fa1 = if ln == sbytes("p") && body { start_para_phase(tv, len, a, i, w) } else { Flow::Go(w) };
    let fz1 = if ln == sbytes("p") && body { start_para_phase(tv, len, z, i, w) } else { Flow::Go(w) };
    if ln == sbytes("p") && body {
        assert(ad.0.contains(w.p));
        if ord_spec(w.p + 1) is Some {
            let o = ord_spec(w.p + 1)->0;
            assert(o as int == w.p);
            assert(!a.1.dom().contains(o));
        }
    }
    assert(fa1 == fz1);
    assert(fz1 matches Flow::Go(x) && x.open_row is None && x.sp == w.sp && (x.open_para is None || x == w));
    let w1 = fz1->Go_0;
    let w2 = if pp && !cell { wrapper_phase(w1, ln) } else { w1 };
    if ln == sbytes("r") && w2.wrapper is Some && !pp {
        assert(w2 == w);
        assert(ad.1.contains((w.wrapper, w.p - 1, w.wrap)));
        lemma_first_target_none(a.0, w2.wrapper, w2.p, w2.wrap + 1, 0);
    }
    let fa3 = if ln == sbytes("r") && w2.wrapper is Some && !pp { wrapped_run_phase(tv, len, a, i, w2) } else { Flow::Go(w2) };
    let fz3 = if ln == sbytes("r") && w2.wrapper is Some && !pp { wrapped_run_phase(tv, len, z, i, w2) } else { Flow::Go(w2) };
    assert(fa3 == fz3);
    let w3 = fz3->Go_0;
    let fa4 = if ln == sbytes("pPr") && pp && !cell { ppr_phase(tv, len, a, i, w3) } else { Flow::Go(w3) };
    let fz4 = if ln == sbytes("pPr") && pp && !cell { ppr_phase(tv, len, z, i, w3) } else { Flow::Go(w3) };
    assert(fa4 == fz4);
    let w4 = fz4->Go_0;
    let w5 = if ln == sbytes("tbl") && body { PV { tbl: w4.tbl + 1, tr: 0, ..w4 } } else { w4 };
    if ln == sbytes("tr") && top_s(w4.stack, "tbl") {
        assert(w5 == w);
        assert(ad.2.contains((w.tbl - 1, w.tr)));
        if ord_spec(w5.tbl) is Some && ord_spec(w5.tr + 1) is Some {
            let key = (ord_spec(w5.tbl)->0, ord_spec(w5.tr + 1)->0);
            assert(!a.3.dom().contains(key));
        }
    }
    let fa6 = if ln == sbytes("tr") && top_s(w4.stack, "tbl") { row_phase(tv, len, a, i, w5) } else { Flow::Go(w5) };
    let fz6 = if ln == sbytes("tr") && top_s(w4.stack, "tbl") { row_phase(tv, len, z, i, w5) } else { Flow::Go(w5) };
    assert(fa6 == fz6);
    let w6 = fz6->Go_0;
    let w7 = if ln == sbytes("tc") && top_s(w6.stack, "tr") { PV { tc: w6.tc + 1, cp: 0, ..w6 } } else { w6 };
    let w8 = if ln == sbytes("p") && top_s(w6.stack, "tc") { PV { cp: w7.cp + 1, cr: 0, ..w7 } } else { w7 };
    if ln == sbytes("r") && pp && cell {
        assert(w8 == w);
        assert(ad.3.contains((w.tbl - 1, w.tr - 1, w.tc - 1, w.cp - 1, w.cr)));
        lemma_first_cell_none(a.2, w8.tbl, w8.tr, w8.tc, w8.cp, w8.cr + 1, 0);
    }
    let fa9 = if ln == sbytes("r") && pp && cell { cell_run_phase(tv, len, a, i, w8) } else { Flow::Go(w8) };
    let fz9 = if ln == sbytes("r") && pp && cell { cell_run_phase(tv, len, z, i, w8) } else { Flow::Go(w8) };
    assert(fa9 == fz9);
    let w9 = fz9->Go_0;
    let hd = para_head(tv, a, i, PV { r: w9.r + 1, ..w9 });
    if ln == sbytes("r") && pp && !cell {
        assert(w9 == w);
        assert(hd == PV { r: w.r + 1, ..w });
        assert(para_head(tv, z, i, PV { r: w9.r + 1, ..w9 }) == hd);
        assert(ad.1.contains((None, w.p - 1, w.r)));
        lemma_first_target_none(a.0, None, hd.p, hd.r, 0);
    }
    let fa10 = if ln == sbytes("r") && pp && !cell { body_run_phase(tv, len, a, i, w9) } else { Flow::Go(w9) };
    let fz10 = if ln == sbytes("r") && pp && !cell { body_run_phase(tv, len, z, i, w9) } else { Flow::Go(w9) };
    assert(fa10 == fz10);
}

/// From token `i` on, a pass none of whose actions names an address there
/// goes exactly as with no actions.
proof fn lemma_walk_same(tv: Seq<TokView>, len: int, a: Acts, i: int, w: PV)
    requires
        names_none(a, addrs_from(tv, len, i, w)),
        open_ok(a, w),
        ppr_quiet(tv, len, i, w),
        w.open_row is None,
    ensures
        patch_walk(tv, len, a, i, w).sp == w.sp,
    decreases tv.len() - i,
{
    let z = idle_acts();
    if 0 <= i < tv.len() {
        if tv[i].0 == TokKind::Start {
            lemma_start_same(tv, len, a, i, w);
            let w1 = start_step(tv, len, z, i, w)->Go_0;
            lemma_walk_same(tv, len, a, i + 1, w1);
        } else if tv[i].0 == TokKind::Empty {
            let ln = local_of(tv[i].1);
            if ln == sbytes("p") && top_s(w.stack, "body") {
                assert(empty_addrs(tv, i, w).0.contains(w.p));
                if ord_spec(w.p + 1) is Some {
                    let o = ord_spec(w.p + 1)->0;
                    assert(o as int == w.p);
                    assert(!a.1.dom().contains(o));
                }
            }
            assert(empty_step(tv, a, i, w) == empty_step(tv, z, i, w));
            lemma_walk_same(tv, len, a, i + 1, empty_step(tv, z, i, w));
        } else if tv[i].0 == TokKind::End {
            assert(end_step(tv, a, i, w) == end_step(tv, z, i, w));
            lemma_walk_same(tv, len, a, i + 1, end_step(tv, z, i, w));
        } else {
            lemma_walk_same(tv, len, a, i + 1, w);
        }
    }
}

/// With no paragraph open, the pass with no actions never opens one, so no
/// `w:pPr` reopens one.
proof fn lemma_quiet_none(tv: Seq<TokView>, len: int, i: int, w: PV)
    requires
        w.open_para is None,
        w.open_row is None,
    ensures
        ppr_quiet(tv, len, i, w),
    decreases tv.len() - i,
{
    let z = idle_acts();
    if 0 <= i < tv.len() {
        if tv[i].0 == TokKind::Start {
            lemma_start_same(tv, len, z, i, w);
            lemma_quiet_none(tv, len, i + 1, start_step(tv, len, z, i, w)->Go_0);
        } else if tv[i].0 == TokKind::Empty {
            lemma_quiet_none(tv, len, i + 1, empty_step(tv, z, i, w));
        } else if tv[i].0 == TokKind::End {
            lemma_quiet_none(tv, len, i + 1, end_step(tv, z, i, w));
        } else {
            lemma_quiet_none(tv, len, i + 1, w);
        }
    }
}

/// With no actions, a start tag moves the pass the same way whatever the
/// splicer's progress: only the progress differs.
#[verifier::rlimit(80)]
#[verifier::spinoff_prover]
proof fn lemma_start_idle_sp(tv: Seq<TokView>, len: int, i: int, w: PV, c: SpV)
    ensures
        start_step(tv, len, idle_acts(), i, PV { sp: c, ..w }) == Flow::Go(
            PV { sp: c, ..start_step(tv, len, idle_acts(), i, w)->Go_0 },
        ),
{
    let z = idle_acts();
    let v = PV { sp: c, ..w };
    lemma_start_idle(tv, len, z, i, w);
    lemma_start_idle(tv, len, z, i, v);
    let ln = local_of(tv[i].1);
    let body = top_s(w.stack, "body");
    let pp = top_s(w.stack, "p");
    let cell = in_cell_s(w.stack);
    let fw1 = if ln == sbytes("p") && body { start_para_phase(tv, len, z, i, w) } else { Flow::Go(w) };
    let fv1 = if ln == sbytes("p") && body { start_para_phase(tv, len, z, i, v) } else { Flow::Go(v) };
    assert(fv1->Go_0 == PV { sp: c, ..fw1->Go_0 });
    let w1 = fw1->Go_0;
    let v1 = fv1->Go_0;
    let w2 = if pp && !cell { wrapper_phase(w1, ln) } else { w1 };
    let v2 = if pp && !cell { wrapper_phase(v1, ln) } else { v1 };
    assert(v2 == PV { sp: c, ..w2 });
    let fw3 = if ln == sbytes("r") && w2.wrapper is Some && !pp { wrapped_run_phase(tv, len, z, i, w2) } else { Flow::Go(w2) };
    let fv3 = if ln == sbytes("r") && v2.wrapper is Some && !pp { wrapped_run_phase(tv, len, z, i, v2) } else { Flow::Go(v2) };
    assert(fv3->Go_0 == PV { sp: c, ..fw3->Go_0 });
    let w3 = fw3->Go_0;
    let v3 = fv3->Go_0;
    let fw4 = if ln == sbytes("pPr") && pp && !cell { ppr_phase(tv, len, z, i, w3) } else { Flow::Go(w3) };
    let fv4 = if ln == sbytes("pPr") && pp && !cell { ppr_phase(tv, len, z, i, v3) } else { Flow::Go(v3) };
    assert(fv4->Go_0 == PV { sp: c, ..fw4->Go_0 });
    let w4 = fw4->Go_0;
    let v4 = fv4->Go_0;
    let w5 = if ln == sbytes("tbl") && body { PV { tbl: w4.tbl + 1, tr: 0, ..w4 } } else { w4 };
    let v5 = if ln == sbytes("tbl") && body { PV { tbl: v4.tbl + 1, tr: 0, ..v4 } } else { v4 };
    let fw6 = if ln == sbytes("tr") && top_s(w4.stack, "tbl") { row_phase(tv, len, z, i, w5) } else { Flow::Go(w5) };
    let fv6 = if ln == sbytes("tr") && top_s(v4.stack, "tbl") { row_phase(tv, len, z, i, v5) } else { Flow::Go(v5) };
    assert(fv6->Go_0 == PV { sp: c, ..fw6->Go_0 });
    let w6 = fw6->Go_0;
    let v6 = fv6->Go_0;
    let w7 = if ln == sbytes("tc") && top_s(w6.stack, "tr") { PV { tc: w6.tc + 1, cp: 0, ..w6 } } else { w6 };
    let v7 = if ln == sbytes("tc") && top_s(v6.stack, "tr") { PV { tc: v6.tc + 1, cp: 0, ..v6 } } else { v6 };
    let w8 = if ln == sbytes("p") && top_s(w6.stack, "tc") { PV { cp: w7.cp + 1, cr: 0, ..w7 } } else { w7 };
    let v8 = if ln == sbytes("p") && top_s(v6.stack, "tc") { PV { cp: v7.cp + 1, cr: 0, ..v7 } } else { v7 };
    let fw9 = if ln == sbytes("r") && pp && cell { cell_run_phase(tv, len, z, i, w8) } else { Flow::Go(w8) };
    let fv9 = if ln == sbytes("r") && pp && cell { cell_run_phase(tv, len, z, i, v8) } else { Flow::Go(v8) };
    assert(fv9->Go_0 == PV { sp: c, ..fw9->Go_0 });
    let w9 = fw9->Go_0;
    let v9 = fv9->Go_0;
    let fw10 = if ln == sbytes("r") && pp && !cell { body_run_phase(tv, len, z, i, w9) } else { Flow::Go(w9) };
    let fv10 = if ln == sbytes("r") && pp && !cell { body_run_phase(tv, len, z, i, v9) } else { Flow::Go(v9) };
    assert(fv10->Go_0 == PV { sp: c, ..fw10->Go_0 });
}

/// The addresses from token `i` on do not depend on the splicer's progress.
proof fn lemma_addrs_sp(tv: Seq<TokView>, len: int, i: int, w: PV, c: SpV)
    ensures
        addrs_from(tv, len, i, PV { sp: c, ..w }) == addrs_from(tv, len, i, w),
    decreases tv.len() - i,
{
    let z = idle_acts();
    let v = PV { sp: c, ..w };
    if 0 <= i < tv.len() {
        if tv[i].0 == TokKind::Start {
            lemma_start_idle_sp(tv, len, i, w, c);
            let w1 = start_step(tv, len, z, i, w)->Go_0;
            lemma_addrs_sp(tv, len, i + 1, w1, c);
            assert(start_addrs(tv, i, v) == start_addrs(tv, i, w));
        } else if tv[i].0 == TokKind::Empty {
            let w1 = empty_step(tv, z, i, w);
            assert(empty_step(tv, z, i, v) == PV { sp: c, ..w1 });
            lemma_addrs_sp(tv, len, i + 1, w1, c);
            assert(empty_addrs(tv, i, v) == empty_addrs(tv, i, w));
        } else if tv[i].0 == TokKind::End {
            let w1 = end_step(tv, z, i, w);
            assert(end_step(tv, z, i, v) == PV { sp: c, ..w1 });
            lemma_addrs_sp(tv, len, i + 1, w1, c);
        } else {
            lemma_addrs_sp(tv, len, i + 1, w, c);
        }
    }
}

/// The pass with no actions from token `i` up to token `k`: its state there.
pub open spec fn idle_state(tv: Seq<TokView>, len: int, i: int, w: PV, k: int) -> PV
    decreases k - i,
{
    if i < 0 || i >= k || i >= tv.len() {
        w
    } else if tv[i].0 == TokKind::Start {
        idle_state(tv, len, i + 1, start_step(tv, len, idle_acts(), i, w)->Go_0, k)
    } else if tv[i].0 == TokKind::Empty {
        idle_state(tv, len, i + 1, empty_step(tv, idle_acts(), i, w), k)
    } else if tv[i].0 == TokKind::End {
        idle_state(tv, len, i + 1, end_step(tv, idle_acts(), i, w), k)
    } else {
        idle_state(tv, len, i + 1, w, k)
    }
}

/// The addresses of the elements from token `i` up to (not including)
/// token `k`.
pub open spec fn addrs_upto(tv: Seq<TokView>, len: int, i: int, w: PV, k: int) -> Addrs
    decreases k - i,
{
    if i < 0 || i >= k || i >= tv.len() {
        no_addrs()
    } else if tv[i].0 == TokKind::Start {
        addrs_union(start_addrs(tv, i, w), addrs_upto(tv, len, i + 1, start_step(tv, len, idle_acts(), i, w)->Go_0, k))
    } else if tv[i].0 == TokKind::Empty {
        addrs_union(empty_addrs(tv, i, w), addrs_upto(tv, len, i + 1, empty_step(tv, idle_acts(), i, w), k))
    } else if tv[i].0 == TokKind::End {
        addrs_upto(tv, len, i + 1, end_step(tv, idle_acts(), i, w), k)
    } else {
        addrs_upto(tv, len, i + 1, w, k)
    }
}

/// Up to token `k`, a pass none of whose actions names an address there
/// goes as with no actions: it writes nothing and reaches token `k` in the
/// no-action state.
proof fn lemma_walk_prefix(tv: Seq<TokView>, len: int, a: Acts, i: int, w: PV, k: int)
    requires
        names_none(a, addrs_upto(tv, len, i, w, k)),
        0 <= i <= k <= tv.len(),
        w.open_para is None,
        w.open_row is None,
    ensures
        patch_walk(tv, len, a, i, w) == patch_walk(tv, len, a, k, idle_state(tv, len, i, w, k)),
        idle_state(tv, len, i, w, k).sp == w.sp,
        idle_state(tv, len, i, w, k).open_para is None,
        idle_state(tv, len, i, w, k).open_row is None,
    decreases k - i,
{
    let z = idle_acts();
    if i < k {
        if tv[i].0 == TokKind::Start {
            lemma_start_same(tv, len, a, i, w);
            let w1 = start_step(tv, len, z, i, w)->Go_0;
            lemma_walk_prefix(tv, len, a, i + 1, w1, k);
        } else if tv[i].0 == TokKind::Empty {
            let ln = local_of(tv[i].1);
            if ln == sbytes("p") && top_s(w.stack, "body") {
                assert(empty_addrs(tv, i, w).0.contains(w.p));
                if ord_spec(w.p + 1) is Some {
                    let o = ord_spec(w.p + 1)->0;
                    assert(o as int == w.p);
                    assert(!a.1.dom().contains(o));
                }
            }
            assert(empty_step(tv, a, i, w) == empty_step(tv, z, i, w));
            lemma_walk_prefix(tv, len, a, i + 1, empty_step(tv, z, i, w), k);
        } else if tv[i].0 == TokKind::End {
            assert(end_step(tv, a, i, w) == end_step(tv, z, i, w));
            lemma_walk_prefix(tv, len, a, i + 1, end_step(tv, z, i, w), k);
        } else {
            lemma_walk_prefix(tv, len, a, i + 1, w, k);
        }
    }
}

/// A patch none of whose actions names an element of the input rewrites
/// nothing: when no run target names a run there (by its wrapper,
/// paragraph and run ordinals), no paragraph action a body paragraph, no
/// cell target a cell run and no row action a row (see [`doc_addrs`]), the
/// output is the input, byte for byte.
pub proof fn law_unaddressed_keep_input(src: Seq<u8>, a: Acts)
    requires
        names_none(a, doc_addrs(src)),
    ensures
        patch_holes(src, a).len() == 0,
        spliced(src, patch_holes(src, a)) == src,
{
    let tv = crate::xml::doc_tokens(src);
    if spans_in(tv, src.len() as int) {
        lemma_quiet_none(tv, src.len() as int, 0, pass_start());
        lemma_walk_same(tv, src.len() as int, a, 0, pass_start());
    }
    lemma_spliced_empty(src);
}

/// The close found from token `m` on is at `m` or later.
proof fn lemma_first_close_from(tv: Seq<TokView>, i: int, m: int)
    requires
        m <= tv.len(),
    ensures
        m <= first_close(tv, i, m) <= tv.len(),
    decreases tv.len() - m,
{
    if m < tv.len() && !crate::xml::closes_at(tv, i, m) {
        lemma_first_close_from(tv, i, m + 1);
    }
}

/// The patch with one run target and no other action.
pub open spec fn one_target(t: ResolvedTarget) -> Acts {
    (seq![t], Map::empty(), Seq::empty(), Map::empty())
}

/// Token `k` of the part opens a run of a body paragraph (directly under a
/// `w:p`, outside any table cell) that the pass numbers run `run` of
/// paragraph `para`, and the run's only child is one `w:t` element: it
/// opens at token `k + 1`, and `</w:r>` follows its close.
pub open spec fn wt_run_at(src: Seq<u8>, k: int, para: int, run: int) -> bool {
    let tv = crate::xml::doc_tokens(src);
    let len = src.len() as int;
    let w = idle_state(tv, len, 0, pass_start(), k);
    let sk = skip_spec(tv, len, k + 1);
    &&& 0 <= k && k + 1 < tv.len()
    &&& tv[k].0 == TokKind::Start && local_of(tv[k].1) == sbytes("r")
    &&& top_s(w.stack, "p") && !in_cell_s(w.stack)
    &&& w.p - 1 == para && w.r == run
    &&& tv[k + 1].0 == TokKind::Start && local_of(tv[k + 1].1) == sbytes("t")
    &&& k + 1 < sk.0 < tv.len()
    &&& tv[sk.0].0 == TokKind::End && local_of(tv[sk.0].1) == sbytes("r")
}

/// No element of the part but the run at token `k` takes the run address
/// (no wrapper, `para`, `run`).
pub open spec fn run_addr_once(src: Seq<u8>, k: int, para: int, run: int) -> bool {
    let tv = crate::xml::doc_tokens(src);
    let len = src.len() as int;
    let w = idle_state(tv, len, 0, pass_start(), k);
    let after = skip_spec(tv, len, k + 1).0 + 1;
    &&& !addrs_upto(tv, len, 0, pass_start(), k).1.contains((None, para, run))
    &&& !addrs_from(tv, len, after, PV { r: w.r + 1, ..w }).1.contains((None, para, run))
}

/// `(p, r)` comes no later than `(q, s)`, paragraph first.
pub open spec fn pr_le(a: (int, int), b: (int, int)) -> bool {
    a.0 < b.0 || (a.0 == b.0 && a.1 <= b.1)
}

/// With no actions, a start tag never moves the (paragraph, run) count
/// back, and a body paragraph's run moves the run count on by one.
#[verifier::rlimit(80)]
#[verifier::spinoff_prover]
proof fn lemma_idle_start_pr(tv: Seq<TokView>, len: int, i: int, w: PV)
    ensures
        ({
            let x = start_step(tv, len, idle_acts(), i, w)->Go_0;
            &&& pr_le((w.p, w.r), (x.p, x.r))
            &&& forall|t: (Option<Wrapper>, int, int)| #[trigger] start_addrs(tv, i, w).1.contains(t) && t.0 is None ==> t.1 + 1
                == w.p && t.2 == w.r && x.p == w.p && x.r == w.r + 1
            &&& forall|a: int| #[trigger] start_addrs(tv, i, w).0.contains(a) ==> a == w.p && x.p == w.p + 1
        }),
{
    let z = idle_acts();
    lemma_tag_names_differ();
    lemma_start_idle(tv, len, z, i, w);
    let ln = local_of(tv[i].1);
    let body = top_s(w.stack, "body");
    let pp = top_s(w.stack, "p");
    let cell = in_cell_s(w.stack);
    let f1 = if ln == sbytes("p") && body { start_para_phase(tv, len, z, i, w) } else { Flow::Go(w) };
    let w1 = f1->Go_0;
    let w2 = if pp && !cell { wrapper_phase(w1, ln) } else { w1 };
    let f3 = if ln == sbytes("r") && w2.wrapper is Some && !pp { wrapped_run_phase(tv, len, z, i, w2) } else { Flow::Go(w2) };
    let w3 = f3->Go_0;
    let f4 = if ln == sbytes("pPr") && pp && !cell { ppr_phase(tv, len, z, i, w3) } else { Flow::Go(w3) };
    let w4 = f4->Go_0;
    let w5 = if ln == sbytes("tbl") && body { PV { tbl: w4.tbl + 1, tr: 0, ..w4 } } else { w4 };
    let f6 = if ln == sbytes("tr") && top_s(w4.stack, "tbl") { row_phase(tv, len, z, i, w5) } else { Flow::Go(w5) };
    let w6 = f6->Go_0;
    let w7 = if ln == sbytes("tc") && top_s(w6.stack, "tr") { PV { tc: w6.tc + 1, cp: 0, ..w6 } } else { w6 };
    let w8 = if ln == sbytes("p") && top_s(w6.stack, "tc") { PV { cp: w7.cp + 1, cr: 0, ..w7 } } else { w7 };
    let f9 = if ln == sbytes("r") && pp && cell { cell_run_phase(tv, len, z, i, w8) } else { Flow::Go(w8) };
    let w9 = f9->Go_0;
    assert(pr_le((w.p, w.r), (w9.p, w9.r)));
    if ln == sbytes("r") && pp && !cell {
        assert(w9 == w);
    }
}

/// Every body-paragraph run address from token `i` on comes at or after the
/// (paragraph, run) count of state `w`.
proof fn lemma_addrs_from_after(tv: Seq<TokView>, len: int, i: int, w: PV)
    ensures
        forall|t: (Option<Wrapper>, int, int)| #[trigger] addrs_from(tv, len, i, w).1.contains(t) && t.0 is None ==> pr_le(
            (w.p, w.r),
            (t.1 + 1, t.2),
        ),
    decreases tv.len() - i,
{
    let z = idle_acts();
    if 0 <= i < tv.len() {
        if tv[i].0 == TokKind::Start {
            let w1 = start_step(tv, len, z, i, w)->Go_0;
            lemma_idle_start_pr(tv, len, i, w);
            lemma_addrs_from_after(tv, len, i + 1, w1);
            assert forall|t: (Option<Wrapper>, int, int)| #[trigger] addrs_from(tv, len, i, w).1.contains(t) && t.0 is None implies pr_le(
                (w.p, w.r),
                (t.1 + 1, t.2),
            ) by {
                if !start_addrs(tv, i, w).1.contains(t) {
                    assert(addrs_from(tv, len, i + 1, w1).1.contains(t));
                }
            }
        } else if tv[i].0 == TokKind::Empty {
            let w1 = empty_step(tv, z, i, w);
            assert(pr_le((w.p, w.r), (w1.p, w1.r)));
            lemma_addrs_from_after(tv, len, i + 1, w1);
            assert forall|t: (Option<Wrapper>, int, int)| #[trigger] addrs_from(tv, len, i, w).1.contains(t) && t.0 is None implies pr_le(
                (w.p, w.r),
                (t.1 + 1, t.2),
            ) by {
                assert(!empty_addrs(tv, i, w).1.contains(t));
                assert(addrs_from(tv, len, i + 1, w1).1.contains(t));
            }
        } else if tv[i].0 == TokKind::End {
            let w1 = end_step(tv, z, i, w);
            assert(w1.p == w.p && w1.r == w.r);
            lemma_addrs_from_after(tv, len, i + 1, w1);
            assert(addrs_from(tv, len, i, w) == addrs_from(tv, len, i + 1, w1));
        } else {
            lemma_addrs_from_after(tv, len, i + 1, w);
            assert(addrs_from(tv, len, i, w) == addrs_from(tv, len, i + 1, w));
        }
    } else {
        assert(addrs_from(tv, len, i, w).1 =~= Set::<(Option<Wrapper>, int, int)>::empty());
    }
}

/// Every body-paragraph address from token `i` on is at or past the
/// paragraph count of state `w`.
proof fn lemma_para_addrs_after(tv: Seq<TokView>, len: int, i: int, w: PV)
    ensures
        forall|a: int| #[trigger] addrs_from(tv, len, i, w).0.contains(a) ==> w.p <= a,
    decreases tv.len() - i,
{
    let z = idle_acts();
    if 0 <= i < tv.len() {
        if tv[i].0 == TokKind::Start {
            let w1 = start_step(tv, len, z, i, w)->Go_0;
            lemma_idle_start_pr(tv, len, i, w);
            lemma_para_addrs_after(tv, len, i + 1, w1);
            assert forall|a: int| #[trigger] addrs_from(tv, len, i, w).0.contains(a) implies w.p <= a by {
                if !start_addrs(tv, i, w).0.contains(a) {
                    assert(addrs_from(tv, len, i + 1, w1).0.contains(a));
                }
            }
        } else if tv[i].0 == TokKind::Empty {
            let w1 = empty_step(tv, z, i, w);
            assert(w.p <= w1.p);
            lemma_para_addrs_after(tv, len, i + 1, w1);
            assert forall|a: int| #[trigger] addrs_from(tv, len, i, w).0.contains(a) implies w.p <= a by {
                if !empty_addrs(tv, i, w).0.contains(a) {
                    assert(addrs_from(tv, len, i + 1, w1).0.contains(a));
                }
            }
        } else if tv[i].0 == TokKind::End {
            let w1 = end_step(tv, z, i, w);
            assert(w1.p == w.p);
            lemma_para_addrs_after(tv, len, i + 1, w1);
            assert(addrs_from(tv, len, i, w) == addrs_from(tv, len, i + 1, w1));
        } else {
            lemma_para_addrs_after(tv, len, i + 1, w);
            assert(addrs_from(tv, len, i, w) == addrs_from(tv, len, i + 1, w));
        }
    } else {
        assert(addrs_from(tv, len, i, w).0 =~= Set::<int>::empty());
    }
}

/// Every body-paragraph address before token `k` is below the paragraph
/// count the pass reaches there.
proof fn lemma_para_addrs_before(tv: Seq<TokView>, len: int, i: int, w: PV, k: int)
    ensures
        w.p <= idle_state(tv, len, i, w, k).p,
        forall|a: int| #[trigger] addrs_upto(tv, len, i, w, k).0.contains(a) ==> a < idle_state(tv, len, i, w, k).p,
    decreases k - i,
{
    let z = idle_acts();
    if !(i < 0 || i >= k || i >= tv.len()) {
        if tv[i].0 == TokKind::Start {
            let w1 = start_step(tv, len, z, i, w)->Go_0;
            lemma_idle_start_pr(tv, len, i, w);
            lemma_para_addrs_before(tv, len, i + 1, w1, k);
            let e = idle_state(tv, len, i + 1, w1, k);
            assert(idle_state(tv, len, i, w, k) == e);
            assert forall|a: int| #[trigger] addrs_upto(tv, len, i, w, k).0.contains(a) implies a < e.p by {
                if !start_addrs(tv, i, w).0.contains(a) {
                    assert(addrs_upto(tv, len, i + 1, w1, k).0.contains(a));
                }
            }
        } else if tv[i].0 == TokKind::Empty {
            let w1 = empty_step(tv, z, i, w);
            assert(w.p <= w1.p);
            lemma_para_addrs_before(tv, len, i + 1, w1, k);
            let e = idle_state(tv, len, i + 1, w1, k);
            assert(idle_state(tv, len, i, w, k) == e);
            assert forall|a: int| #[trigger] addrs_upto(tv, len, i, w, k).0.contains(a) implies a < e.p by {
                if empty_addrs(tv, i, w).0.contains(a) {
                    assert(a == w.p && w1.p == w.p + 1);
                } else {
                    assert(addrs_upto(tv, len, i + 1, w1, k).0.contains(a));
                }
            }
        } else if tv[i].0 == TokKind::End {
            let w1 = end_step(tv, z, i, w);
            assert(w1.p == w.p);
            lemma_para_addrs_before(tv, len, i + 1, w1, k);
            assert(addrs_upto(tv, len, i, w, k) == addrs_upto(tv, len, i + 1, w1, k));
            assert(idle_state(tv, len, i, w, k) == idle_state(tv, len, i + 1, w1, k));
        } else {
            lemma_para_addrs_before(tv, len, i + 1, w, k);
            assert(addrs_upto(tv, len, i, w, k) == addrs_upto(tv, len, i + 1, w, k));
            assert(idle_state(tv, len, i, w, k) == idle_state(tv, len, i + 1, w, k));
        }
    } else {
        assert(addrs_upto(tv, len, i, w, k).0 =~= Set::<int>::empty());
        assert(idle_state(tv, len, i, w, k) == w);
    }
}

/// Whether a `w:pPr` reopens a paragraph does not depend on the splicer's
/// progress.
proof fn lemma_quiet_sp(tv: Seq<TokView>, len: int, i: int, w: PV, c: SpV)
    ensures
        ppr_quiet(tv, len, i, PV { sp: c, ..w }) == ppr_quiet(tv, len, i, w),
    decreases tv.len() - i,
{
    let z = idle_acts();
    let v = PV { sp: c, ..w };
    if 0 <= i < tv.len() {
        if tv[i].0 == TokKind::Start {
            lemma_start_idle_sp(tv, len, i, w, c);
            let w1 = start_step(tv, len, z, i, w)->Go_0;
            lemma_quiet_sp(tv, len, i + 1, w1, c);
            assert(ppr_reopened(tv, i, v) == ppr_reopened(tv, i, w));
        } else if tv[i].0 == TokKind::Empty {
            let w1 = empty_step(tv, z, i, w);
            assert(empty_step(tv, z, i, v) == PV { sp: c, ..w1 });
            lemma_quiet_sp(tv, len, i + 1, w1, c);
        } else if tv[i].0 == TokKind::End {
            let w1 = end_step(tv, z, i, w);
            assert(end_step(tv, z, i, v) == PV { sp: c, ..w1 });
            lemma_quiet_sp(tv, len, i + 1, w1, c);
        } else {
            lemma_quiet_sp(tv, len, i + 1, w, c);
        }
    }
}

/// Every body-paragraph run address before token `k` comes strictly before
/// the (paragraph, run) count the pass reaches there.
proof fn lemma_addrs_upto_before(tv: Seq<TokView>, len: int, i: int, w: PV, k: int)
    ensures
        pr_le((w.p, w.r), (idle_state(tv, len, i, w, k).p, idle_state(tv, len, i, w, k).r)),
        forall|t: (Option<Wrapper>, int, int)| #[trigger] addrs_upto(tv, len, i, w, k).1.contains(t) && t.0 is None ==> pr_le(
            (t.1 + 1, t.2 + 1),
            (idle_state(tv, len, i, w, k).p, idle_state(tv, len, i, w, k).r),
        ),
    decreases k - i,
{
    let z = idle_acts();
    if !(i < 0 || i >= k || i >= tv.len()) {
        if tv[i].0 == TokKind::Start {
            let w1 = start_step(tv, len, z, i, w)->Go_0;
            lemma_idle_start_pr(tv, len, i, w);
            lemma_addrs_upto_before(tv, len, i + 1, w1, k);
            let e = idle_state(tv, len, i + 1, w1, k);
            assert(idle_state(tv, len, i, w, k) == e);
            assert forall|t: (Option<Wrapper>, int, int)| #[trigger] addrs_upto(tv, len, i, w, k).1.contains(t) && t.0 is None implies pr_le(
                (t.1 + 1, t.2 + 1),
                (e.p, e.r),
            ) by {
                if start_addrs(tv, i, w).1.contains(t) {
                    assert(pr_le((w1.p, w1.r), (e.p, e.r)));
                } else {
                    assert(addrs_upto(tv, len, i + 1, w1, k).1.contains(t));
                }
            }
        } else if tv[i].0 == TokKind::Empty {
            let w1 = empty_step(tv, z, i, w);
            assert(pr_le((w.p, w.r), (w1.p, w1.r)));
            lemma_addrs_upto_before(tv, len, i + 1, w1, k);
            let e = idle_state(tv, len, i + 1, w1, k);
            assert(idle_state(tv, len, i, w, k) == e);
            assert forall|t: (Option<Wrapper>, int, int)| #[trigger] addrs_upto(tv, len, i, w, k).1.contains(t) && t.0 is None implies pr_le(
                (t.1 + 1, t.2 + 1),
                (e.p, e.r),
            ) by {
                assert(!empty_addrs(tv, i, w).1.contains(t));
                assert(addrs_upto(tv, len, i + 1, w1, k).1.contains(t));
            }
        } else if tv[i].0 == TokKind::End {
            let w1 = end_step(tv, z, i, w);
            assert(w1.p == w.p && w1.r == w.r);
            lemma_addrs_upto_before(tv, len, i + 1, w1, k);
            assert(addrs_upto(tv, len, i, w, k) == addrs_upto(tv, len, i + 1, w1, k));
            assert(idle_state(tv, len, i, w, k) == idle_state(tv, len, i + 1, w1, k));
        } else {
            lemma_addrs_upto_before(tv, len, i + 1, w, k);
            assert(addrs_upto(tv, len, i, w, k) == addrs_upto(tv, len, i + 1, w, k));
            assert(idle_state(tv, len, i, w, k) == idle_state(tv, len, i + 1, w, k));
        }
    } else {
        assert(addrs_upto(tv, len, i, w, k).1 =~= Set::<(Option<Wrapper>, int, int)>::empty());
        assert(idle_state(tv, len, i, w, k) == w);
    }
}

/// The run at token `k` of [`wt_run_at`] is the only element with its
/// address: the pass numbers body-paragraph runs in increasing (paragraph,
/// run) order.
proof fn lemma_run_addr_once(src: Seq<u8>, k: int, para: int, run: int)
    requires
        wt_run_at(src, k, para, run),
    ensures
        run_addr_once(src, k, para, run),
{
    let tv = crate::xml::doc_tokens(src);
    let len = src.len() as int;
    let w = idle_state(tv, len, 0, pass_start(), k);
    let after = skip_spec(tv, len, k + 1).0 + 1;
    lemma_addrs_upto_before(tv, len, 0, pass_start(), k);
    lemma_addrs_from_after(tv, len, after, PV { r: w.r + 1, ..w });
    let t = (None::<Wrapper>, para, run);
    if addrs_upto(tv, len, 0, pass_start(), k).1.contains(t) {
        assert(pr_le((t.1 + 1, t.2 + 1), (w.p, w.r)));
    }
    if addrs_from(tv, len, after, PV { r: w.r + 1, ..w }).1.contains(t) {
        assert(pr_le((w.p, w.r + 1), (t.1 + 1, t.2)));
    }
}

/// A text-only run target rewrites the `w:t` element of the run it names
/// and nothing else: when the run is a body paragraph's run whose only child
/// is one `w:t` element spanning `[a, b)` of the part (see [`wt_run_at`]),
/// the holes are the rendered text
/// at `a` and the element dropped, so the output of the patch is the part
/// before the element, the rendered `w:t`, and the part after it.
pub proof fn law_text_target_rewrites_its_wt(src: Seq<u8>, t: ResolvedTarget, k: int)
    requires
        t.new_text is Some,
        t.new_rpr is None,
        !t.delete,
        t.insert_after@.len() == 0,
        t.wrapper is None,
        spans_in(crate::xml::doc_tokens(src), src.len() as int),
        wt_run_at(src, k, t.para_ord as int, t.run_ord as int),
    ensures
        ({
            let tv = crate::xml::doc_tokens(src);
            let a = tv[k + 1].2 as int;
            let b = skip_spec(tv, src.len() as int, k + 1).1;
            let x = wt_of(t.new_text)->0;
            &&& patch_holes(src, one_target(t)) == seq![(a, a, x), (a, b, Seq::<u8>::empty())]
            &&& spliced(src, patch_holes(src, one_target(t))) == src.subrange(0, a) + x + src.subrange(b, src.len() as int)
        }),
{
    let tv = crate::xml::doc_tokens(src);
    let len = src.len() as int;
    let act = one_target(t);
    let ps = pass_start();
    let w = idle_state(tv, len, 0, ps, k);
    let sk = skip_spec(tv, len, k + 1);
    let after = sk.0 + 1;
    let addr = (None::<Wrapper>, t.para_ord as int, t.run_ord as int);
    let x = wt_of(t.new_text)->0;
    lemma_tag_names_differ();
    lemma_run_addr_once(src, k, t.para_ord as int, t.run_ord as int);
    assert(act.0[0] == t);
    assert(names_none(act, addrs_upto(tv, len, 0, ps, k)));
    lemma_walk_prefix(tv, len, act, 0, ps, k);
    // At the run: every phase but the body run's passes it on.
    let w1 = PV { r: w.r + 1, ..w };
    assert(para_head(tv, act, k, w1) == w1);
    assert(target_at(t, None, w1.p, w1.r));
    assert(first_target(act.0, None, w1.p, w1.r, 0) == Some(0int));
    law_text_rewrite_replaces_only_wt(tv, len, tv[k].3 as int, k + 1, x, w1.sp);
    let s2: SpV = (sk.1, w1.sp.1.push((tv[k + 1].2 as int, tv[k + 1].2 as int, x)).push(
        (tv[k + 1].2 as int, sk.1, Seq::<u8>::empty()),
    ));
    let x2 = PV { sp: s2, ..w1 };
    assert(run_splice(tv, len, k, w1, t.new_text, t.new_rpr) == (after, tv[sk.0].3 as int, x2));
    assert(body_run_phase(tv, len, act, k, w) == Flow::Jump(after, x2));
    assert(start_step(tv, len, act, k, w) == Flow::Jump(after, x2));
    assert(patch_walk(tv, len, act, k, w) == patch_walk(tv, len, act, after, x2));
    // After the run: nothing more is written.
    lemma_addrs_sp(tv, len, after, w1, s2);
    assert(names_none(act, addrs_from(tv, len, after, x2)));
    lemma_quiet_none(tv, len, after, x2);
    lemma_walk_same(tv, len, act, after, x2);
    assert(w.sp == ps.sp);
    assert(patch_holes(src, act) =~= seq![
        (tv[k + 1].2 as int, tv[k + 1].2 as int, x),
        (tv[k + 1].2 as int, sk.1, Seq::<u8>::empty()),
    ]);
    let j = first_close(tv, k + 1, k + 2);
    assert(j < tv.len() && sk == (j + 1, tv[j].3 as int));
    lemma_first_close_from(tv, k + 1, k + 2);
    assert(tv[k + 1].2 <= tv[k + 1].3 <= tv[j].2 <= tv[j].3 <= len);
    law_wt_holes_splice(src, tv[k + 1].2 as int, sk.1, x);
}

/// The patch with one paragraph action and no other action.
pub open spec fn one_para(o: u32, pt: ResolvedParaTarget) -> Acts {
    (Seq::empty(), Map::empty().insert(o, pt), Seq::empty(), Map::empty())
}

/// Token `k` of the part opens the body paragraph the pass numbers `o`
/// (directly under `w:body`, outside any table cell), and its first child is
/// a `w:pPr` element (opening at token `k + 1`); after that element, until
/// the paragraph closes, no other `w:pPr` opens directly in it.
pub open spec fn ppr_para_at(src: Seq<u8>, k: int, o: u32) -> bool {
    let tv = crate::xml::doc_tokens(src);
    let len = src.len() as int;
    let w = idle_state(tv, len, 0, pass_start(), k);
    let y = start_step(tv, len, idle_acts(), k, w)->Go_0;
    let sk = skip_spec(tv, len, k + 1);
    &&& 0 <= k && k + 1 < tv.len()
    &&& tv[k].0 == TokKind::Start && local_of(tv[k].1) == sbytes("p")
    &&& top_s(w.stack, "body") && !in_cell_s(w.stack)
    &&& w.p == o as int
    &&& tv[k + 1].0 == TokKind::Start && local_of(tv[k + 1].1) == sbytes("pPr")
    &&& ppr_quiet(tv, len, sk.0, PV { open_para: Some(o), prepended: false, ppr_done: true, ..y })
}

/// A body paragraph with an action opens: the pass takes the paragraph as
/// with no actions, and holds it open with its action.
#[verifier::rlimit(80)]
#[verifier::spinoff_prover]
proof fn lemma_para_opens(tv: Seq<TokView>, len: int, a: Acts, k: int, w: PV, o: u32)
    requires
        0 <= k < tv.len(),
        local_of(tv[k].1) == sbytes("p"),
        top_s(w.stack, "body"),
        !in_cell_s(w.stack),
        w.p == o as int,
        a.1.dom().contains(o),
        !a.1[o].delete,
    ensures
        start_step(tv, len, a, k, w) == Flow::Go(
            (PV { open_para: Some(o), prepended: false, ppr_done: false, ..start_step(tv, len, idle_acts(), k, w)->Go_0 }),
        ),
        start_step(tv, len, idle_acts(), k, w)->Go_0 == (PV {
            p: w.p + 1,
            r: 0,
            hl: 0,
            fld: 0,
            wrapper: None,
            open_para: None,
            stack: w.stack.push(local_of(tv[k].1)),
            ..w
        }),
{
    lemma_tag_names_differ();
    assert(ord_spec(w.p + 1) == Some(o));
}

/// A paragraph action with new properties replaces the paragraph's existing
/// `w:pPr` and nothing else: when the action neither deletes the paragraph
/// nor adds runs or paragraphs, and the paragraph's first child is a `w:pPr`
/// spanning `[a, b)` (see [`ppr_para_at`]), the holes are the new properties
/// at `a` and the old element dropped, so the output of the patch is the part
/// before the old `w:pPr`, the new one, and the part after it.
pub proof fn law_ppr_replaces_old_ppr(src: Seq<u8>, o: u32, pt: ResolvedParaTarget, k: int)
    requires
        pt.new_ppr is Some,
        !pt.delete,
        pt.insert_after@.len() == 0,
        pt.prepend_runs@.len() == 0,
        spans_in(crate::xml::doc_tokens(src), src.len() as int),
        ppr_para_at(src, k, o),
    ensures
        ({
            let tv = crate::xml::doc_tokens(src);
            let a = tv[k + 1].2 as int;
            let b = skip_spec(tv, src.len() as int, k + 1).1;
            let x = pt.new_ppr->0@;
            &&& patch_holes(src, one_para(o, pt)) == seq![(a, a, x), (a, b, Seq::<u8>::empty())]
            &&& spliced(src, patch_holes(src, one_para(o, pt))) == src.subrange(0, a) + x + src.subrange(b, src.len() as int)
        }),
{
    let tv = crate::xml::doc_tokens(src);
    let len = src.len() as int;
    let act = one_para(o, pt);
    let ps = pass_start();
    let z = idle_acts();
    let w = idle_state(tv, len, 0, ps, k);
    let y = start_step(tv, len, z, k, w)->Go_0;
    let sk = skip_spec(tv, len, k + 1);
    let x = pt.new_ppr->0@;
    lemma_tag_names_differ();
    assert(act.1.dom().contains(o) && act.1[o] == pt);
    // Before the paragraph: no element there is numbered `o`.
    lemma_para_addrs_before(tv, len, 0, ps, k);
    assert(names_none(act, addrs_upto(tv, len, 0, ps, k)));
    lemma_walk_prefix(tv, len, act, 0, ps, k);
    // The paragraph opens with its action.
    lemma_para_opens(tv, len, act, k, w, o);
    let w1 = PV { open_para: Some(o), prepended: false, ppr_done: false, ..y };
    assert(patch_walk(tv, len, act, k, w) == patch_walk(tv, len, act, k + 1, w1));
    // Its `w:pPr` is replaced: the pass writes the new one and skips the old.
    assert(top_s(w1.stack, "p"));
    assert(!in_cell_s(w1.stack)) by {
        if in_cell_s(w1.stack) {
            let j = choose|j: int| 0 <= j < w1.stack.len() && #[trigger] w1.stack[j] == sbytes("tc");
            if j < w.stack.len() {
                assert(w.stack[j] == w1.stack[j]);
            }
        }
    }
    lemma_first_close_from(tv, k + 1, k + 2);
    let x2 = PV { ppr_done: true, sp: sp_skip(sp_emit(sp_copy(w1.sp, tv[k + 1].2 as int), x), sk.1), ..w1 };
    assert(ppr_phase(tv, len, act, k + 1, w1) == Flow::Jump(sk.0, x2));
    assert(start_step(tv, len, act, k + 1, w1) == Flow::Jump(sk.0, x2));
    assert(patch_walk(tv, len, act, k + 1, w1) == patch_walk(tv, len, act, sk.0, x2));
    // After it: nothing more is written.
    let yq = PV { open_para: Some(o), prepended: false, ppr_done: true, ..y };
    assert(x2 == PV { sp: x2.sp, ..yq });
    lemma_quiet_sp(tv, len, sk.0, yq, x2.sp);
    lemma_para_addrs_after(tv, len, sk.0, x2);
    assert(names_none(act, addrs_from(tv, len, sk.0, x2)));
    lemma_walk_same(tv, len, act, sk.0, x2);
    assert(w.sp == ps.sp);
    assert(patch_holes(src, act) =~= seq![
        (tv[k + 1].2 as int, tv[k + 1].2 as int, x),
        (tv[k + 1].2 as int, sk.1, Seq::<u8>::empty()),
    ]);
    let j = first_close(tv, k + 1, k + 2);
    if j < tv.len() {
        assert(tv[k + 1].2 <= tv[k + 1].3 <= tv[j].2 <= tv[j].3 <= len);
    }
    law_wt_holes_splice(src, tv[k + 1].2 as int, sk.1, x);
}

/// A text-only rewrite of a run whose only child is one `w:t` element
/// (opening at token `k`, the run closing right after it) replaces exactly
/// that element: the pass over the run's children copies the source up to
/// the element, writes the rendered text, drops the element's bytes, and
/// goes on after `</w:r>`.
pub proof fn law_text_rewrite_replaces_only_wt(tv: Seq<TokView>, len: int, oe: int, k: int, x: Seq<u8>, s: SpV)
    requires
        0 <= k < tv.len(),
        tv[k].0 == TokKind::Start,
        local_of(tv[k].1) == sbytes("t"),
        k < skip_spec(tv, len, k).0 < tv.len(),
        tv[skip_spec(tv, len, k).0].0 == TokKind::End,
        local_of(tv[skip_spec(tv, len, k).0].1) == sbytes("r"),
    ensures
        srun(tv, len, oe, k, Some(x), None, false, false, s) == (
            skip_spec(tv, len, k).0 + 1,
            tv[skip_spec(tv, len, k).0].3 as int,
            (skip_spec(tv, len, k).1, s.1.push((tv[k].2 as int, tv[k].2 as int, x)).push(
                (tv[k].2 as int, skip_spec(tv, len, k).1, Seq::<u8>::empty()),
            )),
        ),
{
    let sk = skip_spec(tv, len, k);
    let start = tv[k].2 as int;
    let s3 = sp_emit(sp_copy(s, start), x);
    assert(srun(tv, len, oe, k, Some(x), None, false, false, s) == srun(tv, len, oe, sk.0, Some(x), None, false, true, sp_skip(s3, sk.1)));
    assert(!(sk.0 < 0 || sk.0 >= tv.len()));
}

/// The two holes of a `w:t` rewrite (written text at `a`, then the element
/// `[a, b)` dropped) splice to the source before the element, the text, and
/// the source after it.
pub proof fn law_wt_holes_splice(src: Seq<u8>, a: int, b: int, x: Seq<u8>)
    requires
        0 <= a <= b <= src.len(),
    ensures
        spliced(src, seq![(a, a, x), (a, b, Seq::<u8>::empty())]) == src.subrange(0, a) + x + src.subrange(b, src.len() as int),
{
    let h1: Hole = (a, a, x);
    let h2: Hole = (a, b, Seq::<u8>::empty());
    let hs = seq![h1, h2];
    let one = seq![h1];
    assert(hs.drop_last() =~= one);
    assert(one.drop_last() =~= Seq::<Hole>::empty());
    assert(assemble(src, Seq::<Hole>::empty()) == Seq::<u8>::empty());
    assert(assemble(src, one) == assemble(src, one.drop_last()) + src.subrange(last_end(one.drop_last()), a) + x);
    assert(assemble(src, one) =~= src.subrange(0, a) + x);
    assert(last_end(one) == a);
    assert(assemble(src, hs) == assemble(src, one) + src.subrange(a, a) + Seq::<u8>::empty());
    assert(last_end(hs) == b);
    assert(spliced(src, hs) =~= src.subrange(0, a) + x + src.subrange(b, src.len() as int));
}

/// A patch that writes one hole keeps every byte outside it: the output is
/// the input before the hole, the hole's bytes, then the input after it.
pub proof fn law_one_hole_keeps_the_rest(src: Seq<u8>, h: Hole)
    requires
        holes_ok(src.len() as int, seq![h]),
    ensures
        spliced(src, seq![h]) == src.subrange(0, h.0) + h.2 + src.subrange(h.1, src.len() as int),
{
    let hs = seq![h];
    assert(hs.drop_last() =~= Seq::<Hole>::empty());
    assert(hs.last() == h);
    assert(last_end(hs) == h.1);
    assert(assemble(src, Seq::<Hole>::empty()) == Seq::<u8>::empty());
    assert(assemble(src, hs) == assemble(src, hs.drop_last()) + src.subrange(last_end(hs.drop_last()), h.0) + h.2);
    assert(assemble(src, hs) =~= src.subrange(0, h.0) + h.2);
}

/// Run edits only (body runs and wrapped runs).
pub fn patch_document_xml(src: &[u8], targets: &[ResolvedTarget]) -> (out: Vec<u8>)
    ensures
        out@ == spliced(src@, patch_holes(src@, (targets@, Map::empty(), Seq::empty(), Map::empty()))),
        exists|holes: Seq<Hole>| holes_ok(src@.len() as int, holes) && out@ == spliced(src@, holes)
            && forall|k: int| 0 <= k < holes.len() ==> (#[trigger] holes[k]).2.len() == 0
                || patch_fragment(holes[k].2, targets@, Map::empty(), Seq::empty(), Map::empty()),
        targets@.len() == 0 ==> out@ == src@,
{
    let paras: BTreeMap<u32, ResolvedParaTarget> = BTreeMap::new();
    let cells: Vec<ResolvedCellTarget> = Vec::new();
    assert(paras@ =~= Map::<u32, ResolvedParaTarget>::empty());
    assert(cells@ =~= Seq::<ResolvedCellTarget>::empty());
    patch_document_xml_all(src, targets, &paras, cells.as_slice())
}

/// Run edits plus paragraph actions keyed by `<w:p>` ordinal.
pub fn patch_document_xml_full(
    src: &[u8],
    targets: &[ResolvedTarget],
    paras: &BTreeMap<u32, ResolvedParaTarget>,
) -> (out: Vec<u8>)
    ensures
        out@ == spliced(src@, patch_holes(src@, (targets@, paras@, Seq::empty(), Map::empty()))),
        exists|holes: Seq<Hole>| holes_ok(src@.len() as int, holes) && out@ == spliced(src@, holes)
            && forall|k: int| 0 <= k < holes.len() ==> (#[trigger] holes[k]).2.len() == 0
                || patch_fragment(holes[k].2, targets@, paras@, Seq::empty(), Map::empty()),
        targets@.len() == 0 && paras@ == Map::<u32, ResolvedParaTarget>::empty() ==> out@ == src@,
{
    let cells: Vec<ResolvedCellTarget> = Vec::new();
    assert(cells@ =~= Seq::<ResolvedCellTarget>::empty());
    patch_document_xml_all(src, targets, paras, cells.as_slice())
}

/// Run edits, paragraph actions and table-cell run edits.
pub fn patch_document_xml_all(
    src: &[u8],
    targets: &[ResolvedTarget],
    paras: &BTreeMap<u32, ResolvedParaTarget>,
    cells: &[ResolvedCellTarget],
) -> (out: Vec<u8>)
    ensures
        out@ == spliced(src@, patch_holes(src@, (targets@, paras@, cells@, Map::empty()))),
        exists|holes: Seq<Hole>| holes_ok(src@.len() as int, holes) && out@ == spliced(src@, holes)
            && forall|k: int| 0 <= k < holes.len() ==> (#[trigger] holes[k]).2.len() == 0
                || patch_fragment(holes[k].2, targets@, paras@, cells@, Map::empty()),
        targets@.len() == 0 && paras@ == Map::<u32, ResolvedParaTarget>::empty() && cells@.len()
            == 0 ==> out@ == src@,
{
    let rows: BTreeMap<(u32, u32), ResolvedRowTarget> = BTreeMap::new();
    patch_document_xml_rows(src, targets, paras, cells, &rows)
}

} // verus!
