//! The differ: the edits that turn one lowering into another. Runs are
//! compared on their resolved effective formatting, not on their style
//! tokens: synthesized `auto-cN` tokens are positional and renumber between
//! two lowerings, so only the inverted properties and the real Word `rStyle`
//! are stable. A paragraph whose run count changed is aligned run by run on
//! (text, style) identity into run deletions and insertions; table cells are
//! compared run by run where their shape is unchanged.

use vstd::prelude::*;
use crate::bindings::{style_for_token_spec, token_entries, DocxBindings};
use crate::bytes::{sbytes, ubytes};
use crate::edit::{CellRunEdit, EditSet, RunEdit, StructuralEdit};
use crate::ir::{LoweredBlock, LoweredCell, LoweredDoc, LoweredParagraph, LoweredRun, LoweredStyle, LoweredSwatch, PropValue, StyleCollection, StyleProp};
use crate::lower::{ascii_string, copy_opt, opt_chars, prop_view, props_view, style_view, PropV, PropView};
use crate::model::{RunProps, VertAlign};
use crate::rpr::opt_bytes;

verus! {

/// Direct character formatting as a value.
pub struct RunPropsV {
    pub bold: Option<bool>,
    pub italic: Option<bool>,
    pub underline: Option<bool>,
    pub strike: Option<bool>,
    pub caps: Option<bool>,
    pub small_caps: Option<bool>,
    pub color: Option<Seq<u8>>,
    pub size_half_pts: Option<u32>,
    pub font: Option<Seq<u8>>,
    pub vert_align: Option<VertAlign>,
    pub baseline_half_pts: Option<i32>,
}

/// Run properties as a value (texts as their UTF-8 bytes).
pub open spec fn rp_view(r: RunProps) -> RunPropsV {
    RunPropsV {
        bold: r.bold,
        italic: r.italic,
        underline: r.underline,
        strike: r.strike,
        caps: r.caps,
        small_caps: r.small_caps,
        color: opt_bytes(r.color),
        size_half_pts: r.size_half_pts,
        font: opt_bytes(r.font),
        vert_align: r.vert_align,
        baseline_half_pts: r.baseline_half_pts,
    }
}

/// No direct formatting.
pub open spec fn no_props() -> RunPropsV {
    RunPropsV {
        bold: None,
        italic: None,
        underline: None,
        strike: None,
        caps: None,
        small_caps: None,
        color: None,
        size_half_pts: None,
        font: None,
        vert_align: None,
        baseline_half_pts: None,
    }
}

/// A swatch as a value: its token and channels.
pub type SwatchV = (Seq<char>, Seq<u8>);

/// A lowered style as a value (see [`style_view`]).
pub type StyleV = (Seq<char>, Seq<char>, StyleCollection, Option<Seq<char>>, Seq<PropView>);

/// The swatches of a lowering as values.
pub open spec fn swatches_v(v: Seq<LoweredSwatch>) -> Seq<SwatchV> {
    v.map_values(|s: LoweredSwatch| (s.id@, s.value@))
}

/// The styles of a lowering as values.
pub open spec fn styles_v(v: Seq<LoweredStyle>) -> Seq<StyleV> {
    v.map_values(|s: LoweredStyle| style_view(s))
}

/// An uppercase hexadecimal digit (ASCII).
pub open spec fn hex_digit(n: int) -> u8 {
    if n < 10 {
        (0x30 + n) as u8
    } else {
        (0x41 + n - 10) as u8
    }
}

/// A byte as two uppercase hexadecimal digits.
pub open spec fn hex2(b: u8) -> Seq<u8> {
    seq![hex_digit(b as int / 16), hex_digit(b as int % 16)]
}

/// The first swatch at or after `i` with token `id`.
pub open spec fn swatch_from(sw: Seq<SwatchV>, id: Seq<char>, i: int) -> Option<int>
    decreases sw.len() - i,
{
    if i < 0 || i >= sw.len() {
        None
    } else if sw[i].0 == id {
        Some(i)
    } else {
        swatch_from(sw, id, i + 1)
    }
}

/// The `RRGGBB` of a swatch token (the inverse of the swatch minting): the
/// first swatch with the token, when it has three channels.
pub open spec fn swatch_hex_spec(sw: Seq<SwatchV>, id: Seq<char>) -> Option<Seq<u8>> {
    match swatch_from(sw, id, 0) {
        Some(k) => if sw[k].1.len() < 3 {
            None
        } else {
            Some(hex2(sw[k].1[0]) + hex2(sw[k].1[1]) + hex2(sw[k].1[2]))
        },
        None => None,
    }
}

/// A length in twips as half-points: rounded to nearest, halves away from
/// zero.
pub open spec fn half_points(l: int) -> int {
    if l >= 0 {
        (l + 5) / 10
    } else {
        -((-l + 5) / 10)
    }
}

/// `v` clamped to `u32`.
pub open spec fn sat_u32(v: int) -> u32 {
    if v < 0 {
        0
    } else if v > u32::MAX {
        u32::MAX
    } else {
        v as u32
    }
}

/// `v` clamped to `i32`.
pub open spec fn sat_i32(v: int) -> i32 {
    if v < i32::MIN {
        i32::MIN
    } else if v > i32::MAX {
        i32::MAX
    } else {
        v as i32
    }
}

/// One style property read back into run properties (the reverse of the
/// lowering's run properties); any other property leaves them as they are.
pub open spec fn invert_step(r: RunPropsV, p: PropView, sw: Seq<SwatchV>) -> RunPropsV {
    match p.1 {
        PropV::Text(s) => if p.0 == "characterFontFamily"@ {
            RunPropsV { font: Some(ubytes(s)), ..r }
        } else if p.0 == "characterFontStyle"@ {
            RunPropsV {
                bold: Some(s == "Bold Italic"@ || s == "Bold"@),
                italic: Some(s == "Bold Italic"@ || s == "Italic"@),
                ..r
            }
        } else if p.0 == "characterPosition"@ {
            RunPropsV {
                vert_align: if s == "Superscript"@ {
                    Some(VertAlign::Superscript)
                } else if s == "Subscript"@ {
                    Some(VertAlign::Subscript)
                } else {
                    None
                },
                ..r
            }
        } else if p.0 == "characterCase"@ {
            if s == "SmallCaps"@ {
                RunPropsV { small_caps: Some(true), ..r }
            } else if s == "AllCaps"@ {
                RunPropsV { caps: Some(true), ..r }
            } else {
                r
            }
        } else {
            r
        },
        PropV::Length(l) => if p.0 == "characterFontSize"@ {
            RunPropsV { size_half_pts: Some(sat_u32(half_points(l))), ..r }
        } else if p.0 == "characterBaselineShift"@ {
            RunPropsV { baseline_half_pts: Some(sat_i32(half_points(l))), ..r }
        } else {
            r
        },
        PropV::ColorRef(id) => if p.0 == "characterFillColor"@ {
            RunPropsV { color: swatch_hex_spec(sw, id), ..r }
        } else {
            r
        },
        PropV::Bool(b) => if p.0 == "characterUnderline"@ {
            RunPropsV { underline: Some(b), ..r }
        } else if p.0 == "characterStrikethru"@ {
            RunPropsV { strike: Some(b), ..r }
        } else {
            r
        },
        PropV::TabStops(_) => r,
    }
}

/// A synthesized character style's properties read back into run
/// properties, in order.
pub open spec fn invert_spec(ps: Seq<PropView>, sw: Seq<SwatchV>) -> RunPropsV
    decreases ps.len(),
{
    if ps.len() == 0 {
        no_props()
    } else {
        invert_step(invert_spec(ps.drop_last(), sw), ps.last(), sw)
    }
}

/// The first style at or after `i` with token `id`.
pub open spec fn style_from(ss: Seq<StyleV>, id: Seq<char>, i: int) -> Option<int>
    decreases ss.len() - i,
{
    if i < 0 || i >= ss.len() {
        None
    } else if ss[i].0 == id {
        Some(i)
    } else {
        style_from(ss, id, i + 1)
    }
}

/// The effective direct formatting a run's style token stands for, and the
/// real Word `rStyle` it carries: a token of a Word character style gives
/// that style and no direct formatting; a synthesized style gives its
/// properties read back and its parent's Word style, if any; no style, or an
/// unknown one, gives neither.
pub open spec fn eff_spec(token: Option<Seq<char>>, ss: Seq<StyleV>, sw: Seq<SwatchV>, ent: Seq<(Seq<u8>, Seq<char>)>) -> (RunPropsV, Option<Seq<char>>) {
    match token {
        None => (no_props(), None),
        Some(t) => match style_for_token_spec(ent, ubytes(t)) {
            Some(id) => (no_props(), Some(id)),
            None => match style_from(ss, t, 0) {
                Some(k) => (invert_spec(ss[k].4, sw), match ss[k].3 {
                    Some(b) => style_for_token_spec(ent, ubytes(b)),
                    None => None,
                }),
                None => (no_props(), None),
            },
        },
    }
}

/// The run properties with nothing set.
fn empty_props() -> (r: RunProps)
    ensures
        rp_view(r) == no_props(),
{
    RunProps {
        bold: None,
        italic: None,
        underline: None,
        strike: None,
        caps: None,
        small_caps: None,
        color: None,
        size_half_pts: None,
        font: None,
        vert_align: None,
        baseline_half_pts: None,
    }
}

/// An uppercase hexadecimal digit as an ASCII byte.
fn hex_byte(n: u8) -> (b: u8)
    requires
        n < 16,
    ensures
        b < 0x80,
        b == hex_digit(n as int),
{
    if n < 10 {
        0x30 + n
    } else {
        0x41 + n - 10
    }
}

/// The `RRGGBB` of a swatch token (see [`swatch_hex_spec`]).
pub fn swatch_hex(id: &str, swatches: &Vec<LoweredSwatch>) -> (r: Option<String>)
    ensures
        opt_bytes(r) == swatch_hex_spec(swatches_v(swatches@), id@),
{
    let ghost sw = swatches_v(swatches@);
    let mut i: usize = 0;
    while i < swatches.len()
        invariant
            i <= swatches@.len(),
            sw == swatches_v(swatches@),
            swatch_from(sw, id@, 0) == swatch_from(sw, id@, i as int),
        decreases swatches@.len() - i,
    {
        if crate::bytes::str_eq(swatches[i].id.as_str(), id) {
            let v = &swatches[i].value;
            if v.len() < 3 {
                return None;
            }
            let mut b: Vec<u8> = Vec::new();
            b.push(hex_byte(v[0] / 16));
            b.push(hex_byte(v[0] % 16));
            b.push(hex_byte(v[1] / 16));
            b.push(hex_byte(v[1] % 16));
            b.push(hex_byte(v[2] / 16));
            b.push(hex_byte(v[2] % 16));
            let s = ascii_string(&b);
            assert(b@ =~= hex2(v@[0]) + hex2(v@[1]) + hex2(v@[2]));
            return Some(s);
        }
        i = i + 1;
    }
    None
}


/// Half-points of a length in twips (see [`half_points`]).
fn half_points_of(l: i64) -> (r: i128)
    ensures
        r as int == half_points(l as int),
{
    let w = l as i128;
    if w >= 0 {
        (w + 5) / 10
    } else {
        0 - ((0 - w + 5) / 10)
    }
}

/// `v` clamped to `u32`.
fn clamp_u32(v: i128) -> (r: u32)
    ensures
        r == sat_u32(v as int),
{
    if v < 0 {
        0
    } else if v > 0xffff_ffff {
        0xffff_ffff
    } else {
        v as u32
    }
}

/// `v` clamped to `i32`.
fn clamp_i32(v: i128) -> (r: i32)
    ensures
        r == sat_i32(v as int),
{
    if v < -0x8000_0000 {
        -0x8000_0000
    } else if v > 0x7fff_ffff {
        0x7fff_ffff
    } else {
        v as i32
    }
}

/// Read one style property back into `r` (see [`invert_step`]).
fn invert_one(r: &mut RunProps, p: &StyleProp, swatches: &Vec<LoweredSwatch>)
    ensures
        rp_view(*final(r)) == invert_step(rp_view(*old(r)), prop_view(*p), swatches_v(swatches@)),
{
    let path = p.path.as_str();
    match &p.value {
        PropValue::Text(s) => {
            if crate::bytes::str_eq(path, "characterFontFamily") {
                r.font = Some(s.clone());
            } else if crate::bytes::str_eq(path, "characterFontStyle") {
                let v = s.as_str();
                let bi = crate::bytes::str_eq(v, "Bold Italic");
                r.bold = Some(bi || crate::bytes::str_eq(v, "Bold"));
                r.italic = Some(bi || crate::bytes::str_eq(v, "Italic"));
            } else if crate::bytes::str_eq(path, "characterPosition") {
                let v = s.as_str();
                r.vert_align = if crate::bytes::str_eq(v, "Superscript") {
                    Some(VertAlign::Superscript)
                } else if crate::bytes::str_eq(v, "Subscript") {
                    Some(VertAlign::Subscript)
                } else {
                    None
                };
            } else if crate::bytes::str_eq(path, "characterCase") {
                let v = s.as_str();
                if crate::bytes::str_eq(v, "SmallCaps") {
                    r.small_caps = Some(true);
                } else if crate::bytes::str_eq(v, "AllCaps") {
                    r.caps = Some(true);
                }
            }
        },
        PropValue::Length(l) => {
            if crate::bytes::str_eq(path, "characterFontSize") {
                r.size_half_pts = Some(clamp_u32(half_points_of(*l)));
            } else if crate::bytes::str_eq(path, "characterBaselineShift") {
                r.baseline_half_pts = Some(clamp_i32(half_points_of(*l)));
            }
        },
        PropValue::ColorRef(id) => {
            if crate::bytes::str_eq(path, "characterFillColor") {
                r.color = swatch_hex(id.as_str(), swatches);
            }
        },
        PropValue::Bool(b) => {
            if crate::bytes::str_eq(path, "characterUnderline") {
                r.underline = Some(*b);
            } else if crate::bytes::str_eq(path, "characterStrikethru") {
                r.strike = Some(*b);
            }
        },
        PropValue::TabStops(_) => {},
    }
}

/// A synthesized character style's properties read back into run
/// properties (see [`invert_spec`]).
pub fn invert_props(props: &Vec<StyleProp>, swatches: &Vec<LoweredSwatch>) -> (r: RunProps)
    ensures
        rp_view(r) == invert_spec(props_view(props@), swatches_v(swatches@)),
{
    let mut r = empty_props();
    let mut i: usize = 0;
    while i < props.len()
        invariant
            i <= props@.len(),
            rp_view(r) == invert_spec(props_view(props@.take(i as int)), swatches_v(swatches@)),
        decreases props@.len() - i,
    {
        invert_one(&mut r, &props[i], swatches);
        assert(props_view(props@.take(i + 1)).drop_last() =~= props_view(props@.take(i as int)));
        assert(props_view(props@.take(i + 1)).last() == prop_view(props@[i as int]));
        i = i + 1;
    }
    assert(props@.take(props@.len() as int) =~= props@);
    r
}

/// The first style with token `id`, searched from the start.
fn find_style(styles: &Vec<LoweredStyle>, id: &str) -> (r: Option<usize>)
    ensures
        match r {
            Some(k) => style_from(styles_v(styles@), id@, 0) == Some(k as int) && k < styles@.len(),
            None => style_from(styles_v(styles@), id@, 0) is None,
        },
{
    let ghost ss = styles_v(styles@);
    let mut i: usize = 0;
    while i < styles.len()
        invariant
            i <= styles@.len(),
            ss == styles_v(styles@),
            style_from(ss, id@, 0) == style_from(ss, id@, i as int),
        decreases styles@.len() - i,
    {
        if crate::bytes::str_eq(styles[i].id.as_str(), id) {
            return Some(i);
        }
        i = i + 1;
    }
    None
}

/// The run-props entries of the bindings as values.
pub open spec fn entries_of(b: DocxBindings) -> Seq<(Seq<u8>, Seq<char>)> {
    token_entries(b.char_token_to_style_id@)
}

/// The effective formatting of a run's style token (see [`eff_spec`]).
pub fn effective_props(token: &Option<String>, doc: &LoweredDoc, bindings: &DocxBindings) -> (r: (RunProps, Option<String>))
    ensures
        (rp_view(r.0), opt_chars(r.1)) == eff_spec(opt_chars(*token), styles_v(doc.styles@), swatches_v(doc.swatches@), entries_of(*bindings)),
{
    let t = match token {
        Some(t) => t.as_str(),
        None => {
            return (empty_props(), None);
        },
    };
    if let Some(id) = bindings.style_id_for_token(t) {
        return (empty_props(), Some(id.clone()));
    }
    match find_style(&doc.styles, t) {
        Some(k) => {
            let style = &doc.styles[k];
            let props = invert_props(&style.props, &doc.swatches);
            let rstyle = match &style.based_on {
                Some(b) => match bindings.style_id_for_token(b.as_str()) {
                    Some(id) => Some(id.clone()),
                    None => None,
                },
                None => None,
            };
            assert(styles_v(doc.styles@)[k as int] == style_view(doc.styles@[k as int]));
            (props, rstyle)
        },
        None => (empty_props(), None),
    }
}


/// A run's identity: its text and style token.
pub type RunId = (Seq<char>, Option<Seq<char>>);

/// A run's identity.
pub open spec fn run_id(r: LoweredRun) -> RunId {
    (r.text@, opt_chars(r.char_style_id))
}

/// The identities of a run list.
pub open spec fn run_ids(v: Seq<LoweredRun>) -> Seq<RunId> {
    v.map_values(|r: LoweredRun| run_id(r))
}

/// The styles and swatches a run's formatting is resolved against.
pub type Ctx = (Seq<StyleV>, Seq<SwatchV>);

/// A lowering's styles and swatches as values.
pub open spec fn ctx_of(d: LoweredDoc) -> Ctx {
    (styles_v(d.styles@), swatches_v(d.swatches@))
}

/// The effective formatting of a style token in a context.
pub open spec fn eff_in(t: Option<Seq<char>>, c: Ctx, ent: Seq<(Seq<u8>, Seq<char>)>) -> (RunPropsV, Option<Seq<char>>) {
    eff_spec(t, c.0, c.1, ent)
}

/// One run change: run index, new text, new direct formatting, new `rStyle`.
pub type ChangeV = (int, Option<Seq<char>>, Option<RunPropsV>, Option<Option<Seq<char>>>);

/// The change that turns run `b` into run `e` at index `r`: its text when
/// that differs, and its effective formatting with its `rStyle` when those
/// differ; none when neither does.
pub open spec fn change_of(r: int, b: RunId, e: RunId, cb: Ctx, ce: Ctx, ent: Seq<(Seq<u8>, Seq<char>)>) -> Option<ChangeV> {
    let tc = b.0 != e.0;
    let pb = eff_in(b.1, cb, ent);
    let pe = eff_in(e.1, ce, ent);
    let pc = pb != pe;
    if tc || pc {
        Some((r, if tc { Some(e.0) } else { None }, if pc { Some(pe.0) } else { None }, if pc { Some(pe.1) } else { None }))
    } else {
        None
    }
}

/// The changes of the first `n` runs of two run lists of one length.
pub open spec fn changes(b: Seq<RunId>, e: Seq<RunId>, n: int, cb: Ctx, ce: Ctx, ent: Seq<(Seq<u8>, Seq<char>)>) -> Seq<ChangeV>
    decreases n,
{
    if n <= 0 {
        Seq::empty()
    } else {
        changes(b, e, n - 1, cb, ce, ent) + match change_of(n - 1, b[n - 1], e[n - 1], cb, ce, ent) {
            Some(c) => seq![c],
            None => Seq::empty(),
        }
    }
}

/// One structural operation: delete a base run, or insert a run (text,
/// formatting, `rStyle`) after a base run or at the paragraph's start;
/// delete a base paragraph, or add a paragraph (text, formatting, `rStyle`,
/// paragraph style) after one.
pub enum OpV {
    Delete(int),
    Insert(Option<int>, Seq<char>, RunPropsV, Option<Seq<char>>),
    DropPara,
    AddPara(Seq<char>, RunPropsV, Option<Seq<char>>, Option<Seq<char>>),
}

/// The length of a longest common subsequence of two run lists (on run
/// identity), by the classic recurrence.
pub open spec fn lcs(b: Seq<RunId>, e: Seq<RunId>) -> nat
    decreases b.len() + e.len(),
{
    if b.len() == 0 || e.len() == 0 {
        0
    } else if b[0] == e[0] {
        1 + lcs(b.drop_first(), e.drop_first())
    } else {
        let d = lcs(b.drop_first(), e);
        let i = lcs(b, e.drop_first());
        if d >= i { d } else { i }
    }
}

/// The alignment of a base run list `b` (its first run at index `off`) with
/// an edited run list `e` along a longest common subsequence of run
/// identities: runs that agree are kept; a base run off the subsequence is
/// deleted; an edited run off it is inserted after the preceding kept base
/// run (`anchor`), or at the paragraph's start when none precedes. Ties
/// delete before they insert.
pub open spec fn align(b: Seq<RunId>, e: Seq<RunId>, off: int, anchor: Option<int>, ce: Ctx, ent: Seq<(Seq<u8>, Seq<char>)>) -> Seq<OpV>
    decreases b.len() + e.len(),
{
    if b.len() > 0 && e.len() > 0 && b[0] == e[0] {
        align(b.drop_first(), e.drop_first(), off + 1, Some(off), ce, ent)
    } else if b.len() > 0 && (e.len() == 0 || lcs(b.drop_first(), e) >= lcs(b, e.drop_first())) {
        seq![OpV::Delete(off)] + align(b.drop_first(), e, off + 1, anchor, ce, ent)
    } else if e.len() > 0 {
        let p = eff_in(e[0].1, ce, ent);
        seq![OpV::Insert(anchor, e[0].0, p.0, p.1)] + align(b, e.drop_first(), off, anchor, ce, ent)
    } else {
        Seq::empty()
    }
}

/// A table cell's shape: the run identities of each of its paragraphs.
pub type CellShape = Seq<Seq<RunId>>;

/// A lowered cell's shape.
pub open spec fn cell_shape(c: LoweredCell) -> CellShape {
    c.paragraphs@.map_values(|p: LoweredParagraph| run_ids(p.runs@))
}

/// The run changes of the first `n` paragraphs of a cell, each tagged with
/// its paragraph; a paragraph whose run count changed is skipped.
pub open spec fn para_changes(bp: CellShape, ep: CellShape, n: int, cb: Ctx, ce: Ctx, ent: Seq<(Seq<u8>, Seq<char>)>) -> Seq<(int, ChangeV)>
    decreases n,
{
    if n <= 0 {
        Seq::empty()
    } else {
        para_changes(bp, ep, n - 1, cb, ce, ent) + if bp[n - 1].len() == ep[n - 1].len() {
            changes(bp[n - 1], ep[n - 1], bp[n - 1].len() as int, cb, ce, ent).map_values(|c: ChangeV| (n - 1, c))
        } else {
            Seq::empty()
        }
    }
}

/// The run changes of the first `n` cells of a table, each tagged with its
/// cell and paragraph; a cell whose paragraph count changed is skipped.
pub open spec fn cell_changes(bc: Seq<CellShape>, ec: Seq<CellShape>, n: int, cb: Ctx, ce: Ctx, ent: Seq<(Seq<u8>, Seq<char>)>) -> Seq<(int, int, ChangeV)>
    decreases n,
{
    if n <= 0 {
        Seq::empty()
    } else {
        cell_changes(bc, ec, n - 1, cb, ce, ent) + if bc[n - 1].len() == ec[n - 1].len() {
            para_changes(bc[n - 1], ec[n - 1], bc[n - 1].len() as int, cb, ce, ent).map_values(|x: (int, ChangeV)| (n - 1, x.0, x.1))
        } else {
            Seq::empty()
        }
    }
}

/// A story block as the differ sees it.
pub enum BlockV {
    Para(Seq<RunId>),
    Tab(Seq<CellShape>),
}

/// A lowered block as the differ sees it.
pub open spec fn block_v(b: LoweredBlock) -> BlockV {
    match b {
        LoweredBlock::Paragraph(p) => BlockV::Para(run_ids(p.runs@)),
        LoweredBlock::Table(t) => BlockV::Tab(t.cells@.map_values(|c: LoweredCell| cell_shape(c))),
    }
}

/// The blocks of a lowering as the differ sees them.
pub open spec fn blocks_v(d: LoweredDoc) -> Seq<BlockV> {
    d.story.blocks@.map_values(|b: LoweredBlock| block_v(b))
}

/// The in-place run edits of one block pair: paragraphs of one run count.
pub open spec fn block_runs(k: int, bb: BlockV, eb: BlockV, cb: Ctx, ce: Ctx, ent: Seq<(Seq<u8>, Seq<char>)>) -> Seq<(int, ChangeV)> {
    match (bb, eb) {
        (BlockV::Para(b), BlockV::Para(e)) => if b.len() == e.len() {
            changes(b, e, b.len() as int, cb, ce, ent).map_values(|c: ChangeV| (k, c))
        } else {
            Seq::empty()
        },
        _ => Seq::empty(),
    }
}

/// The structural run operations of one block pair: paragraphs whose run
/// count changed.
pub open spec fn block_ops(k: int, bb: BlockV, eb: BlockV, ce: Ctx, ent: Seq<(Seq<u8>, Seq<char>)>) -> Seq<(int, OpV)> {
    match (bb, eb) {
        (BlockV::Para(b), BlockV::Para(e)) => if b.len() != e.len() {
            align(b, e, 0, None, ce, ent).map_values(|o: OpV| (k, o))
        } else {
            Seq::empty()
        },
        _ => Seq::empty(),
    }
}

/// The cell run edits of one block pair: tables of one cell count.
pub open spec fn block_cells(k: int, bb: BlockV, eb: BlockV, cb: Ctx, ce: Ctx, ent: Seq<(Seq<u8>, Seq<char>)>) -> Seq<(int, int, int, ChangeV)> {
    match (bb, eb) {
        (BlockV::Tab(b), BlockV::Tab(e)) => if b.len() == e.len() {
            cell_changes(b, e, b.len() as int, cb, ce, ent).map_values(|x: (int, int, ChangeV)| (k, x.0, x.1, x.2))
        } else {
            Seq::empty()
        },
        _ => Seq::empty(),
    }
}

/// The in-place run edits of the first `n` block pairs.
pub open spec fn diff_runs(bb: Seq<BlockV>, eb: Seq<BlockV>, n: int, cb: Ctx, ce: Ctx, ent: Seq<(Seq<u8>, Seq<char>)>) -> Seq<(int, ChangeV)>
    decreases n,
{
    if n <= 0 {
        Seq::empty()
    } else {
        diff_runs(bb, eb, n - 1, cb, ce, ent) + block_runs(n - 1, bb[n - 1], eb[n - 1], cb, ce, ent)
    }
}

/// The structural run operations of the first `n` block pairs.
pub open spec fn diff_ops(bb: Seq<BlockV>, eb: Seq<BlockV>, n: int, ce: Ctx, ent: Seq<(Seq<u8>, Seq<char>)>) -> Seq<(int, OpV)>
    decreases n,
{
    if n <= 0 {
        Seq::empty()
    } else {
        diff_ops(bb, eb, n - 1, ce, ent) + block_ops(n - 1, bb[n - 1], eb[n - 1], ce, ent)
    }
}

/// The cell run edits of the first `n` block pairs.
pub open spec fn diff_cells(bb: Seq<BlockV>, eb: Seq<BlockV>, n: int, cb: Ctx, ce: Ctx, ent: Seq<(Seq<u8>, Seq<char>)>) -> Seq<(int, int, int, ChangeV)>
    decreases n,
{
    if n <= 0 {
        Seq::empty()
    } else {
        diff_cells(bb, eb, n - 1, cb, ce, ent) + block_cells(n - 1, bb[n - 1], eb[n - 1], cb, ce, ent)
    }
}

/// The number of block pairs compared: the shorter story.
pub open spec fn paired(base: LoweredDoc, edited: LoweredDoc) -> int {
    if base.story.blocks@.len() <= edited.story.blocks@.len() {
        base.story.blocks@.len() as int
    } else {
        edited.story.blocks@.len() as int
    }
}

/// Optional run properties as a value.
pub open spec fn opt_rp(v: Option<RunProps>) -> Option<RunPropsV> {
    match v {
        Some(p) => Some(rp_view(p)),
        None => None,
    }
}

/// An optional optional text as a value.
pub open spec fn opt_opt(v: Option<Option<String>>) -> Option<Option<Seq<char>>> {
    match v {
        Some(o) => Some(opt_chars(o)),
        None => None,
    }
}

/// A run edit as a value: block and change.
pub open spec fn run_edit_v(e: RunEdit) -> (int, ChangeV) {
    (e.block as int, (e.run as int, opt_chars(e.new_text), opt_rp(e.new_props), opt_opt(e.rstyle)))
}

/// A cell run edit as a value: block, cell, paragraph and change.
pub open spec fn cell_edit_v(e: CellRunEdit) -> (int, int, int, ChangeV) {
    (e.block as int, e.cell as int, e.para as int, (e.run as int, opt_chars(e.new_text), opt_rp(e.new_props), opt_opt(e.rstyle)))
}

/// A structural run edit as a value: block and operation (other structural
/// edits have none and map to block -1).
pub open spec fn op_v(s: StructuralEdit) -> (int, OpV) {
    match s {
        StructuralEdit::DeleteRun { block, run } => (block as int, OpV::Delete(run as int)),
        StructuralEdit::InsertRun { block, run, text, props, rstyle } => (block as int, OpV::Insert(
            match run {
                Some(r) => Some(r as int),
                None => None,
            },
            text@,
            rp_view(props),
            opt_chars(rstyle),
        )),
        StructuralEdit::DeleteParagraph { block } => (block as int, OpV::DropPara),
        StructuralEdit::InsertParagraph { block, text, props, para_style, rstyle } => (block as int, OpV::AddPara(
            text@,
            rp_view(props),
            opt_chars(rstyle),
            opt_chars(para_style),
        )),
        _ => (-1, OpV::Delete(-1)),
    }
}

/// The index of the last paragraph among the first `n` blocks.
pub open spec fn last_para(bb: Seq<BlockV>, n: int) -> Option<int>
    decreases n,
{
    if n <= 0 {
        None
    } else if bb[n - 1] is Para {
        Some(n - 1)
    } else {
        last_para(bb, n - 1)
    }
}

/// The texts of a run list, joined.
pub open spec fn joined(e: Seq<RunId>) -> Seq<char>
    decreases e.len(),
{
    if e.len() == 0 {
        Seq::empty()
    } else {
        joined(e.drop_last()) + e.last().0
    }
}

/// The paragraph added for an edited paragraph's runs `e`: their text as one
/// run, with the first run's effective formatting and `rStyle`, and no
/// paragraph style.
pub open spec fn add_para(e: Seq<RunId>, ce: Ctx, ent: Seq<(Seq<u8>, Seq<char>)>) -> OpV {
    let p = eff_in(if e.len() > 0 { e[0].1 } else { None }, ce, ent);
    OpV::AddPara(joined(e), p.0, p.1, None)
}

/// The base paragraphs among blocks `from..n`, deleted.
pub open spec fn drop_tail(bb: Seq<BlockV>, from: int, n: int) -> Seq<(int, OpV)>
    decreases n - from,
{
    if n <= from {
        Seq::empty()
    } else {
        drop_tail(bb, from, n - 1) + if bb[n - 1] is Para {
            seq![(n - 1, OpV::DropPara)]
        } else {
            Seq::empty()
        }
    }
}

/// The edited paragraphs among blocks `from..n`, added after base block `a`.
pub open spec fn add_tail(eb: Seq<BlockV>, from: int, n: int, a: int, ce: Ctx, ent: Seq<(Seq<u8>, Seq<char>)>) -> Seq<(int, OpV)>
    decreases n - from,
{
    if n <= from {
        Seq::empty()
    } else {
        add_tail(eb, from, n - 1, a, ce, ent) + match eb[n - 1] {
            BlockV::Para(e) => seq![(a, add_para(e, ce, ent))],
            _ => Seq::empty(),
        }
    }
}

/// The operations for the blocks past the paired ones: a base with more
/// blocks loses its surplus paragraphs; an edited story with more blocks adds
/// its surplus paragraphs, in order, after the base's last paragraph (none
/// when the base has no paragraph). Surplus tables are left alone.
pub open spec fn tail_ops(bb: Seq<BlockV>, eb: Seq<BlockV>, ce: Ctx, ent: Seq<(Seq<u8>, Seq<char>)>) -> Seq<(int, OpV)> {
    if bb.len() > eb.len() {
        drop_tail(bb, eb.len() as int, bb.len() as int)
    } else if eb.len() > bb.len() {
        match last_para(bb, bb.len() as int) {
            Some(a) => add_tail(eb, bb.len() as int, eb.len() as int, a, ce, ent),
            None => Seq::empty(),
        }
    } else {
        Seq::empty()
    }
}

/// The last paragraph block of a lowering (see [`last_para`]).
fn last_para_index(d: &LoweredDoc) -> (r: Option<usize>)
    ensures
        match r {
            Some(a) => last_para(blocks_v(*d), d.story.blocks@.len() as int) == Some(a as int),
            None => last_para(blocks_v(*d), d.story.blocks@.len() as int) is None,
        },
{
    let ghost bb = blocks_v(*d);
    let mut n = d.story.blocks.len();
    while n > 0
        invariant
            n <= d.story.blocks@.len(),
            bb == blocks_v(*d),
            last_para(bb, d.story.blocks@.len() as int) == last_para(bb, n as int),
        decreases n,
    {
        assert(bb[n - 1] == block_v(d.story.blocks@[n - 1]));
        match &d.story.blocks[n - 1] {
            LoweredBlock::Paragraph(_) => {
                return Some(n - 1);
            },
            _ => {},
        }
        n = n - 1;
    }
    None
}

/// The texts of a run list, joined (see [`joined`]).
fn join_texts(runs: &Vec<LoweredRun>) -> (r: String)
    ensures
        r@ == joined(run_ids(runs@)),
{
    let ghost ids = run_ids(runs@);
    let mut out = String::new();
    let mut i: usize = 0;
    assert(ids.take(0) =~= Seq::<RunId>::empty());
    while i < runs.len()
        invariant
            i <= runs@.len(),
            ids == run_ids(runs@),
            out@ == joined(ids.take(i as int)),
        decreases runs@.len() - i,
    {
        assert(ids.take(i + 1).drop_last() =~= ids.take(i as int));
        assert(ids.take(i + 1).last() == run_id(runs@[i as int]));
        crate::text::append(&mut out, runs[i].text.as_str());
        i = i + 1;
    }
    assert(ids.take(runs@.len() as int) =~= ids);
    out
}

/// The structural edits for the blocks past the paired ones (see
/// [`tail_ops`]).
fn tail_edits(base: &LoweredDoc, edited: &LoweredDoc, bindings: &DocxBindings, out: &mut Vec<StructuralEdit>)
    ensures
        final(out)@.map_values(|x: StructuralEdit| op_v(x)) == old(out)@.map_values(|x: StructuralEdit| op_v(x)) + tail_ops(
            blocks_v(*base),
            blocks_v(*edited),
            ctx_of(*edited),
            entries_of(*bindings),
        ),
{
    let ghost bb = blocks_v(*base);
    let ghost eb = blocks_v(*edited);
    let ghost ce = ctx_of(*edited);
    let ghost ent = entries_of(*bindings);
    let ghost o = old(out)@.map_values(|x: StructuralEdit| op_v(x));
    let nb = base.story.blocks.len();
    let ne = edited.story.blocks.len();
    if nb > ne {
        let mut i = ne;
        assert(drop_tail(bb, ne as int, ne as int) =~= Seq::<(int, OpV)>::empty());
        assert(o + drop_tail(bb, ne as int, ne as int) =~= o);
        while i < nb
            invariant
                ne <= i <= nb,
                nb == base.story.blocks@.len(),
                bb == blocks_v(*base),
                out@.map_values(|x: StructuralEdit| op_v(x)) == o + drop_tail(bb, ne as int, i as int),
            decreases nb - i,
        {
            assert(bb[i as int] == block_v(base.story.blocks@[i as int]));
            let ghost before = out@;
            match &base.story.blocks[i] {
                LoweredBlock::Paragraph(_) => {
                    out.push(StructuralEdit::DeleteParagraph { block: i });
                    assert(out@.map_values(|x: StructuralEdit| op_v(x)) =~= before.map_values(|x: StructuralEdit| op_v(x)).push((i as int, OpV::DropPara)));
                },
                _ => {},
            }
            i = i + 1;
        }
    } else if ne > nb {
        match last_para_index(base) {
            Some(a) => {
                let mut j = nb;
                assert(add_tail(eb, nb as int, nb as int, a as int, ce, ent) =~= Seq::<(int, OpV)>::empty());
                assert(o + add_tail(eb, nb as int, nb as int, a as int, ce, ent) =~= o);
                while j < ne
                    invariant
                        nb <= j <= ne,
                        ne == edited.story.blocks@.len(),
                        eb == blocks_v(*edited),
                        ce == ctx_of(*edited),
                        ent == entries_of(*bindings),
                        out@.map_values(|x: StructuralEdit| op_v(x)) == o + add_tail(eb, nb as int, j as int, a as int, ce, ent),
                    decreases ne - j,
                {
                    assert(eb[j as int] == block_v(edited.story.blocks@[j as int]));
                    let ghost before = out@;
                    match &edited.story.blocks[j] {
                        LoweredBlock::Paragraph(ep) => {
                            let text = join_texts(&ep.runs);
                            let none: Option<String> = None;
                            let (props, rstyle) = if ep.runs.len() > 0 {
                                effective_props(&ep.runs[0].char_style_id, edited, bindings)
                            } else {
                                effective_props(&none, edited, bindings)
                            };
                            let ghost e = run_ids(ep.runs@);
                            out.push(StructuralEdit::InsertParagraph { block: a, text, props, para_style: None, rstyle });
                            assert(out@.map_values(|x: StructuralEdit| op_v(x)) =~= before.map_values(|x: StructuralEdit| op_v(x)).push((a as int, add_para(e, ce, ent))));
                        },
                        _ => {},
                    }
                    j = j + 1;
                }
            },
            None => {
                assert(o + Seq::<(int, OpV)>::empty() =~= o);
            },
        }
    } else {
        assert(o + Seq::<(int, OpV)>::empty() =~= o);
    }
}


/// Two optional texts are equal as bytes.
fn same_opt_bytes(a: &Option<String>, b: &Option<String>) -> (r: bool)
    ensures
        r == (opt_bytes(*a) == opt_bytes(*b)),
{
    match (a, b) {
        (Some(x), Some(y)) => crate::bytes::bytes_eq(x.as_str().as_bytes(), y.as_str().as_bytes()),
        (None, None) => true,
        _ => false,
    }
}

/// Two optional texts are equal.
fn same_opt_text(a: &Option<String>, b: &Option<String>) -> (r: bool)
    ensures
        r == (opt_chars(*a) == opt_chars(*b)),
{
    match (a, b) {
        (Some(x), Some(y)) => crate::bytes::str_eq(x.as_str(), y.as_str()),
        (None, None) => true,
        _ => false,
    }
}

/// Two optional vertical alignments are equal.
fn same_vert(a: Option<VertAlign>, b: Option<VertAlign>) -> (r: bool)
    ensures
        r == (a == b),
{
    match (a, b) {
        (Some(VertAlign::Superscript), Some(VertAlign::Superscript)) => true,
        (Some(VertAlign::Subscript), Some(VertAlign::Subscript)) => true,
        (Some(VertAlign::Baseline), Some(VertAlign::Baseline)) => true,
        (None, None) => true,
        _ => false,
    }
}

/// Two run property sets are equal as values.
fn same_props(a: &RunProps, b: &RunProps) -> (r: bool)
    ensures
        r == (rp_view(*a) == rp_view(*b)),
{
    a.bold == b.bold && a.italic == b.italic && a.underline == b.underline && a.strike == b.strike
        && a.caps == b.caps && a.small_caps == b.small_caps && same_opt_bytes(&a.color, &b.color)
        && a.size_half_pts == b.size_half_pts && same_opt_bytes(&a.font, &b.font) && same_vert(a.vert_align, b.vert_align)
        && a.baseline_half_pts == b.baseline_half_pts
}

/// The change of one run pair (see [`change_of`]): new text, new direct
/// formatting, new `rStyle`.
fn run_change(r: usize, b: &LoweredRun, e: &LoweredRun, base: &LoweredDoc, edited: &LoweredDoc, bindings: &DocxBindings) -> (c: Option<(Option<String>, Option<RunProps>, Option<Option<String>>)>)
    ensures
        change_of(r as int, run_id(*b), run_id(*e), ctx_of(*base), ctx_of(*edited), entries_of(*bindings)) == match c {
            Some(x) => Some((r as int, opt_chars(x.0), opt_rp(x.1), opt_opt(x.2))),
            None => None,
        },
{
    let tc = !crate::bytes::str_eq(b.text.as_str(), e.text.as_str());
    let (bp, bs) = effective_props(&b.char_style_id, base, bindings);
    let (ep, es) = effective_props(&e.char_style_id, edited, bindings);
    let pc = !(same_props(&bp, &ep) && same_opt_text(&bs, &es));
    if tc || pc {
        let nt = if tc { Some(e.text.clone()) } else { None };
        if pc {
            Some((nt, Some(ep), Some(es)))
        } else {
            Some((nt, None, None))
        }
    } else {
        None
    }
}

/// The in-place edits of a paragraph pair of one run count.
fn para_edits(k: usize, b: &Vec<LoweredRun>, e: &Vec<LoweredRun>, base: &LoweredDoc, edited: &LoweredDoc, bindings: &DocxBindings, out: &mut Vec<RunEdit>)
    requires
        b@.len() == e@.len(),
    ensures
        final(out)@.map_values(|x: RunEdit| run_edit_v(x)) == old(out)@.map_values(|x: RunEdit| run_edit_v(x)) + changes(
            run_ids(b@),
            run_ids(e@),
            b@.len() as int,
            ctx_of(*base),
            ctx_of(*edited),
            entries_of(*bindings),
        ).map_values(|c: ChangeV| (k as int, c)),
{
    let ghost bi = run_ids(b@);
    let ghost ei = run_ids(e@);
    let ghost o = old(out)@.map_values(|x: RunEdit| run_edit_v(x));
    let mut r: usize = 0;
    while r < b.len()
        invariant
            r <= b@.len(),
            b@.len() == e@.len(),
            bi == run_ids(b@),
            ei == run_ids(e@),
            out@.map_values(|x: RunEdit| run_edit_v(x)) == o + changes(bi, ei, r as int, ctx_of(*base), ctx_of(*edited), entries_of(*bindings)).map_values(
                |c: ChangeV| (k as int, c),
            ),
        decreases b@.len() - r,
    {
        let ghost before = out@;
        let ghost prev = changes(bi, ei, r as int, ctx_of(*base), ctx_of(*edited), entries_of(*bindings));
        let ghost next = changes(bi, ei, r + 1, ctx_of(*base), ctx_of(*edited), entries_of(*bindings));
        assert(bi[r as int] == run_id(b@[r as int]));
        assert(ei[r as int] == run_id(e@[r as int]));
        match run_change(r, &b[r], &e[r], base, edited, bindings) {
            Some((nt, np, rs)) => {
                out.push(RunEdit { block: k, run: r, new_text: nt, new_props: np, rstyle: rs });
                assert(out@.map_values(|x: RunEdit| run_edit_v(x)) =~= before.map_values(|x: RunEdit| run_edit_v(x)).push(run_edit_v(out@[before.len() as int])));
                assert(next.map_values(|c: ChangeV| (k as int, c)) =~= prev.map_values(|c: ChangeV| (k as int, c)).push((k as int, next.last())));
            },
            None => {
                assert(next =~= prev);
            },
        }
        r = r + 1;
    }
}

/// The rest of a sequence from `i`.
pub open spec fn rest<T>(s: Seq<T>, i: int) -> Seq<T> {
    s.subrange(i, s.len() as int)
}

/// A longest common subsequence is no longer than either list.
proof fn lemma_lcs_bound(b: Seq<RunId>, e: Seq<RunId>)
    ensures
        lcs(b, e) <= b.len(),
        lcs(b, e) <= e.len(),
    decreases b.len() + e.len(),
{
    if b.len() > 0 && e.len() > 0 {
        lemma_lcs_bound(b.drop_first(), e.drop_first());
        lemma_lcs_bound(b.drop_first(), e);
        lemma_lcs_bound(b, e.drop_first());
    }
}

/// Two runs have the same identity.
fn same_run(a: &LoweredRun, b: &LoweredRun) -> (r: bool)
    ensures
        r == (run_id(*a) == run_id(*b)),
{
    crate::bytes::str_eq(a.text.as_str(), b.text.as_str()) && same_opt_text(&a.char_style_id, &b.char_style_id)
}

/// The table of longest-common-subsequence lengths: row `n - i`, column `j`
/// holds that of the base runs from `i` and the edited runs from `j`.
fn lcs_table(b: &Vec<LoweredRun>, e: &Vec<LoweredRun>) -> (t: Vec<Vec<usize>>)
    ensures
        t@.len() == b@.len() + 1,
        forall|k: int| 0 <= k <= b@.len() ==> (#[trigger] t@[k])@.len() == e@.len() + 1,
        forall|k: int, j: int| 0 <= k <= b@.len() && 0 <= j <= e@.len() ==> (#[trigger] t@[k]@[j]) as int == lcs(
            rest(run_ids(b@), b@.len() - k),
            rest(run_ids(e@), j),
        ),
{
    let ghost bi = run_ids(b@);
    let ghost ei = run_ids(e@);
    let n = b.len();
    let m = e.len();
    let mut t: Vec<Vec<usize>> = Vec::new();
    let mut k: usize = 0;
    loop
        invariant_except_break
            t@.len() == k,
            forall|q: int| 0 <= q < k ==> (#[trigger] t@[q])@.len() == m + 1,
            forall|q: int, j: int| 0 <= q < k && 0 <= j <= m ==> (#[trigger] t@[q]@[j]) as int == lcs(rest(bi, n - q), rest(ei, j)),
        invariant
            k <= n,
            n == b@.len(),
            m == e@.len(),
            bi == run_ids(b@),
            ei == run_ids(e@),
        ensures
            t@.len() == n + 1,
            forall|q: int| 0 <= q <= n ==> (#[trigger] t@[q])@.len() == m + 1,
            forall|q: int, j: int| 0 <= q <= n && 0 <= j <= m ==> (#[trigger] t@[q]@[j]) as int == lcs(rest(bi, n - q), rest(ei, j)),
        decreases n - k,
    {
        let i = n - k;
        let mut row: Vec<usize> = Vec::new();
        row.push(0);
        let mut z: usize = 0;
        while z < m
            invariant
                z <= m,
                row@.len() == z + 1,
                forall|q: int| 0 <= q < row@.len() ==> row@[q] == 0,
            decreases m - z,
        {
            row.push(0);
            z = z + 1;
        }
        assert(rest(ei, m as int) =~= Seq::<RunId>::empty());
        let mut j: usize = m;
        while j > 0
            invariant
                j <= m,
                i == n - k,
                k <= n,
                n == b@.len(),
                m == e@.len(),
                bi == run_ids(b@),
                ei == run_ids(e@),
                t@.len() == k,
                forall|q: int| 0 <= q < k ==> (#[trigger] t@[q])@.len() == m + 1,
                forall|q: int, jj: int| 0 <= q < k && 0 <= jj <= m ==> (#[trigger] t@[q]@[jj]) as int == lcs(rest(bi, n - q), rest(ei, jj)),
                row@.len() == m + 1,
                forall|jj: int| j <= jj <= m ==> (#[trigger] row@[jj]) as int == lcs(rest(bi, i as int), rest(ei, jj)),
            decreases j,
        {
            let jj = j - 1;
            let ghost rb = rest(bi, i as int);
            let ghost re = rest(ei, jj as int);
            proof {
                assert(re[0] == ei[jj as int]);
                assert(re.drop_first() =~= rest(ei, j as int));
                if i < n {
                    assert(rb[0] == bi[i as int]);
                    assert(rb.drop_first() =~= rest(bi, i + 1));
                    lemma_lcs_bound(rest(bi, i + 1), rest(ei, j as int));
                    assert(rest(bi, i + 1).len() == n - (i + 1));
                } else {
                    assert(rb =~= Seq::<RunId>::empty());
                }
            }
            let v = if i == n {
                0
            } else if same_run(&b[i], &e[jj]) {
                assert(bi[i as int] == run_id(b@[i as int]));
                assert(ei[jj as int] == run_id(e@[jj as int]));
                let below = t[k - 1][j];
                below + 1
            } else {
                assert(bi[i as int] == run_id(b@[i as int]));
                assert(ei[jj as int] == run_id(e@[jj as int]));
                let below = t[k - 1][jj];
                let right = row[j];
                if below >= right { below } else { right }
            };
            row.set(jj, v);
            j = jj;
        }
        t.push(row);
        if k == n {
            break;
        }
        k = k + 1;
    }
    t
}

/// The structural edits that align a paragraph pair whose run count changed
/// (see [`align`]).
fn align_runs(k: usize, b: &Vec<LoweredRun>, e: &Vec<LoweredRun>, edited: &LoweredDoc, bindings: &DocxBindings, out: &mut Vec<StructuralEdit>)
    ensures
        final(out)@.map_values(|x: StructuralEdit| op_v(x)) == old(out)@.map_values(|x: StructuralEdit| op_v(x)) + align(
            run_ids(b@),
            run_ids(e@),
            0,
            None,
            ctx_of(*edited),
            entries_of(*bindings),
        ).map_values(|o: OpV| (k as int, o)),
{
    let ghost bi = run_ids(b@);
    let ghost ei = run_ids(e@);
    let ghost ce = ctx_of(*edited);
    let ghost ent = entries_of(*bindings);
    let ghost full = align(bi, ei, 0, None, ce, ent);
    let ghost o = old(out)@.map_values(|x: StructuralEdit| op_v(x));
    let ghost mut done: Seq<OpV> = Seq::empty();
    let t = lcs_table(b, e);
    let n = b.len();
    let m = e.len();
    let mut i: usize = 0;
    let mut j: usize = 0;
    let mut anchor: Option<usize> = None;
    assert(rest(bi, 0) =~= bi);
    assert(rest(ei, 0) =~= ei);
    while i < n || j < m
        invariant
            n == b@.len(),
            m == e@.len(),
            i <= n,
            j <= m,
            bi == run_ids(b@),
            ei == run_ids(e@),
            full == align(bi, ei, 0, None, ce, ent),
            ce == ctx_of(*edited),
            ent == entries_of(*bindings),
            t@.len() == n + 1,
            forall|q: int| 0 <= q <= n ==> (#[trigger] t@[q])@.len() == m + 1,
            forall|q: int, jj: int| 0 <= q <= n && 0 <= jj <= m ==> (#[trigger] t@[q]@[jj]) as int == lcs(rest(bi, n - q), rest(ei, jj)),
            anchor matches Some(a) ==> a < n,
            done + align(rest(bi, i as int), rest(ei, j as int), i as int, match anchor {
                Some(a) => Some(a as int),
                None => None,
            }, ce, ent) == full,
            out@.map_values(|x: StructuralEdit| op_v(x)) == o + done.map_values(|op: OpV| (k as int, op)),
        decreases n - i + m - j,
    {
        let ghost rb = rest(bi, i as int);
        let ghost re = rest(ei, j as int);
        let ghost an = match anchor {
            Some(a) => Some(a as int),
            None => None,
        };
        let ghost before = out@;
        if i < n {
            assert(rb[0] == run_id(b@[i as int]));
            assert(rb.drop_first() =~= rest(bi, i + 1));
        }
        if j < m {
            assert(re[0] == run_id(e@[j as int]));
            assert(re.drop_first() =~= rest(ei, j + 1));
        }
        if i < n && j < m && same_run(&b[i], &e[j]) {
            anchor = Some(i);
            i = i + 1;
            j = j + 1;
        } else if i < n && (j == m || t[n - i - 1][j] >= t[n - i][j + 1]) {
            out.push(StructuralEdit::DeleteRun { block: k, run: i });
            proof {
                if j < m {
                    assert(t@[n - i - 1]@[j as int] as int == lcs(rest(bi, i + 1), re));
                    assert(t@[n - i]@[j + 1] as int == lcs(rb, rest(ei, j + 1)));
                } else {
                    assert(re =~= Seq::<RunId>::empty());
                }
                let d0 = done;
                done = done + seq![OpV::Delete(i as int)];
                assert(done.map_values(|op: OpV| (k as int, op)) =~= d0.map_values(|op: OpV| (k as int, op)).push((k as int, OpV::Delete(i as int))));
            }
            assert(out@.map_values(|x: StructuralEdit| op_v(x)) =~= before.map_values(|x: StructuralEdit| op_v(x)).push((k as int, OpV::Delete(i as int))));
            i = i + 1;
        } else {
            proof {
                if i < n {
                    assert(t@[n - i - 1]@[j as int] as int == lcs(rest(bi, i + 1), re));
                    assert(t@[n - i]@[j + 1] as int == lcs(rb, rest(ei, j + 1)));
                } else {
                    assert(rb =~= Seq::<RunId>::empty());
                }
            }
            let (props, rstyle) = effective_props(&e[j].char_style_id, edited, bindings);
            out.push(StructuralEdit::InsertRun { block: k, run: anchor, text: e[j].text.clone(), props, rstyle });
            let ghost p = eff_in(re[0].1, ce, ent);
            proof {
                let d0 = done;
                done = done + seq![OpV::Insert(an, re[0].0, p.0, p.1)];
                assert(done.map_values(|op: OpV| (k as int, op)) =~= d0.map_values(|op: OpV| (k as int, op)).push((k as int, OpV::Insert(an, re[0].0, p.0, p.1))));
            }
            assert(out@.map_values(|x: StructuralEdit| op_v(x)) =~= before.map_values(|x: StructuralEdit| op_v(x)).push((k as int, OpV::Insert(an, re[0].0, p.0, p.1))));
            j = j + 1;
        }
    }
    assert(rest(bi, i as int) =~= Seq::<RunId>::empty());
    assert(rest(ei, j as int) =~= Seq::<RunId>::empty());
    assert(done =~= full);
}

/// The in-place edits of one cell paragraph pair of one run count.
fn cell_para_edits(
    k: usize,
    c: usize,
    p: usize,
    b: &Vec<LoweredRun>,
    e: &Vec<LoweredRun>,
    base: &LoweredDoc,
    edited: &LoweredDoc,
    bindings: &DocxBindings,
    out: &mut Vec<CellRunEdit>,
)
    requires
        b@.len() == e@.len(),
    ensures
        final(out)@.map_values(|x: CellRunEdit| cell_edit_v(x)) == old(out)@.map_values(|x: CellRunEdit| cell_edit_v(x)) + changes(
            run_ids(b@),
            run_ids(e@),
            b@.len() as int,
            ctx_of(*base),
            ctx_of(*edited),
            entries_of(*bindings),
        ).map_values(|ch: ChangeV| (k as int, c as int, p as int, ch)),
{
    let ghost bi = run_ids(b@);
    let ghost ei = run_ids(e@);
    let ghost o = old(out)@.map_values(|x: CellRunEdit| cell_edit_v(x));
    let mut r: usize = 0;
    while r < b.len()
        invariant
            r <= b@.len(),
            b@.len() == e@.len(),
            bi == run_ids(b@),
            ei == run_ids(e@),
            out@.map_values(|x: CellRunEdit| cell_edit_v(x)) == o + changes(bi, ei, r as int, ctx_of(*base), ctx_of(*edited), entries_of(*bindings)).map_values(
                |ch: ChangeV| (k as int, c as int, p as int, ch),
            ),
        decreases b@.len() - r,
    {
        let ghost before = out@;
        let ghost prev = changes(bi, ei, r as int, ctx_of(*base), ctx_of(*edited), entries_of(*bindings));
        let ghost next = changes(bi, ei, r + 1, ctx_of(*base), ctx_of(*edited), entries_of(*bindings));
        assert(bi[r as int] == run_id(b@[r as int]));
        assert(ei[r as int] == run_id(e@[r as int]));
        match run_change(r, &b[r], &e[r], base, edited, bindings) {
            Some((nt, np, rs)) => {
                out.push(CellRunEdit { block: k, cell: c, para: p, run: r, new_text: nt, new_props: np, rstyle: rs });
                assert(out@.map_values(|x: CellRunEdit| cell_edit_v(x)) =~= before.map_values(|x: CellRunEdit| cell_edit_v(x)).push(cell_edit_v(out@[before.len() as int])));
                assert(next.map_values(|ch: ChangeV| (k as int, c as int, p as int, ch)) =~= prev.map_values(|ch: ChangeV| (k as int, c as int, p as int, ch)).push((k as int, c as int, p as int, next.last())));
            },
            None => {
                assert(next =~= prev);
            },
        }
        r = r + 1;
    }
}

/// The in-place edits of one cell pair of one paragraph count.
fn cell_edits(k: usize, c: usize, bc: &LoweredCell, ec: &LoweredCell, base: &LoweredDoc, edited: &LoweredDoc, bindings: &DocxBindings, out: &mut Vec<CellRunEdit>)
    requires
        bc.paragraphs@.len() == ec.paragraphs@.len(),
    ensures
        final(out)@.map_values(|x: CellRunEdit| cell_edit_v(x)) == old(out)@.map_values(|x: CellRunEdit| cell_edit_v(x)) + para_changes(
            cell_shape(*bc),
            cell_shape(*ec),
            bc.paragraphs@.len() as int,
            ctx_of(*base),
            ctx_of(*edited),
            entries_of(*bindings),
        ).map_values(|x: (int, ChangeV)| (k as int, c as int, x.0, x.1)),
{
    let ghost bs = cell_shape(*bc);
    let ghost es = cell_shape(*ec);
    let ghost cb = ctx_of(*base);
    let ghost ce = ctx_of(*edited);
    let ghost ent = entries_of(*bindings);
    let ghost o = old(out)@.map_values(|x: CellRunEdit| cell_edit_v(x));
    let mut p: usize = 0;
    while p < bc.paragraphs.len()
        invariant
            p <= bc.paragraphs@.len(),
            bc.paragraphs@.len() == ec.paragraphs@.len(),
            bs == cell_shape(*bc),
            es == cell_shape(*ec),
            cb == ctx_of(*base),
            ce == ctx_of(*edited),
            ent == entries_of(*bindings),
            out@.map_values(|x: CellRunEdit| cell_edit_v(x)) == o + para_changes(bs, es, p as int, cb, ce, ent).map_values(
                |x: (int, ChangeV)| (k as int, c as int, x.0, x.1),
            ),
        decreases bc.paragraphs@.len() - p,
    {
        let ghost before = out@.map_values(|x: CellRunEdit| cell_edit_v(x));
        let ghost prev = para_changes(bs, es, p as int, cb, ce, ent);
        let b = &bc.paragraphs[p].runs;
        let e = &ec.paragraphs[p].runs;
        assert(bs[p as int] == run_ids(b@));
        assert(es[p as int] == run_ids(e@));
        if b.len() == e.len() {
            cell_para_edits(k, c, p, b, e, base, edited, bindings, out);
            let ghost ch = changes(bs[p as int], es[p as int], bs[p as int].len() as int, cb, ce, ent);
            assert(para_changes(bs, es, p + 1, cb, ce, ent) == prev + ch.map_values(|x: ChangeV| (p as int, x)));
            assert((prev + ch.map_values(|x: ChangeV| (p as int, x))).map_values(|x: (int, ChangeV)| (k as int, c as int, x.0, x.1)) =~= prev.map_values(
                |x: (int, ChangeV)| (k as int, c as int, x.0, x.1),
            ) + ch.map_values(|x: ChangeV| (k as int, c as int, p as int, x)));
        } else {
            assert(para_changes(bs, es, p + 1, cb, ce, ent) =~= prev);
        }
        p = p + 1;
    }
}

/// The cell shapes of a lowered table.
pub open spec fn table_shape(t: crate::ir::LoweredTable) -> Seq<CellShape> {
    t.cells@.map_values(|c: LoweredCell| cell_shape(c))
}

/// The in-place cell edits of a table pair of one cell count.
fn table_edits(
    k: usize,
    bt: &crate::ir::LoweredTable,
    et: &crate::ir::LoweredTable,
    base: &LoweredDoc,
    edited: &LoweredDoc,
    bindings: &DocxBindings,
    out: &mut Vec<CellRunEdit>,
)
    requires
        bt.cells@.len() == et.cells@.len(),
    ensures
        final(out)@.map_values(|x: CellRunEdit| cell_edit_v(x)) == old(out)@.map_values(|x: CellRunEdit| cell_edit_v(x)) + cell_changes(
            table_shape(*bt),
            table_shape(*et),
            bt.cells@.len() as int,
            ctx_of(*base),
            ctx_of(*edited),
            entries_of(*bindings),
        ).map_values(|x: (int, int, ChangeV)| (k as int, x.0, x.1, x.2)),
{
    let ghost bs = table_shape(*bt);
    let ghost es = table_shape(*et);
    let ghost cb = ctx_of(*base);
    let ghost ce = ctx_of(*edited);
    let ghost ent = entries_of(*bindings);
    let ghost o = old(out)@.map_values(|x: CellRunEdit| cell_edit_v(x));
    let mut c: usize = 0;
    while c < bt.cells.len()
        invariant
            c <= bt.cells@.len(),
            bt.cells@.len() == et.cells@.len(),
            bs == table_shape(*bt),
            es == table_shape(*et),
            cb == ctx_of(*base),
            ce == ctx_of(*edited),
            ent == entries_of(*bindings),
            out@.map_values(|x: CellRunEdit| cell_edit_v(x)) == o + cell_changes(bs, es, c as int, cb, ce, ent).map_values(
                |x: (int, int, ChangeV)| (k as int, x.0, x.1, x.2),
            ),
        decreases bt.cells@.len() - c,
    {
        let ghost prev = cell_changes(bs, es, c as int, cb, ce, ent);
        let bc = &bt.cells[c];
        let ec = &et.cells[c];
        assert(bs[c as int] == cell_shape(*bc));
        assert(es[c as int] == cell_shape(*ec));
        if bc.paragraphs.len() == ec.paragraphs.len() {
            cell_edits(k, c, bc, ec, base, edited, bindings, out);
            let ghost pc = para_changes(bs[c as int], es[c as int], bs[c as int].len() as int, cb, ce, ent);
            assert(cell_changes(bs, es, c + 1, cb, ce, ent) == prev + pc.map_values(|x: (int, ChangeV)| (c as int, x.0, x.1)));
            assert((prev + pc.map_values(|x: (int, ChangeV)| (c as int, x.0, x.1))).map_values(|x: (int, int, ChangeV)| (k as int, x.0, x.1, x.2)) =~= prev.map_values(
                |x: (int, int, ChangeV)| (k as int, x.0, x.1, x.2),
            ) + pc.map_values(|x: (int, ChangeV)| (k as int, c as int, x.0, x.1)));
        } else {
            assert(cell_changes(bs, es, c + 1, cb, ce, ent) =~= prev);
        }
        c = c + 1;
    }
}

/// Diff two lowerings into the edits that turn `base` into `edited`: block
/// pairs are compared in order up to the shorter story; paragraphs of one
/// run count give in-place run edits, paragraphs whose run count changed
/// give run deletions and insertions (see [`align`]), and tables of one cell
/// count give cell run edits. A change in the block count gives paragraph
/// deletions or insertions (see [`tail_ops`]).
pub fn diff(base: &LoweredDoc, edited: &LoweredDoc, bindings: &DocxBindings) -> (r: EditSet)
    ensures
        r.runs@.map_values(|x: RunEdit| run_edit_v(x)) == diff_runs(blocks_v(*base), blocks_v(*edited), paired(*base, *edited), ctx_of(*base), ctx_of(*edited), entries_of(*bindings)),
        r.structural@.map_values(|x: StructuralEdit| op_v(x)) == diff_ops(blocks_v(*base), blocks_v(*edited), paired(*base, *edited), ctx_of(*edited), entries_of(*bindings))
            + tail_ops(blocks_v(*base), blocks_v(*edited), ctx_of(*edited), entries_of(*bindings)),
        r.cells@.map_values(|x: CellRunEdit| cell_edit_v(x)) == diff_cells(blocks_v(*base), blocks_v(*edited), paired(*base, *edited), ctx_of(*base), ctx_of(*edited), entries_of(*bindings)),
        r.paragraphs@.len() == 0,
{
    let ghost bb = blocks_v(*base);
    let ghost eb = blocks_v(*edited);
    let ghost cb = ctx_of(*base);
    let ghost ce = ctx_of(*edited);
    let ghost ent = entries_of(*bindings);
    let n = if base.story.blocks.len() <= edited.story.blocks.len() { base.story.blocks.len() } else { edited.story.blocks.len() };
    let mut runs: Vec<RunEdit> = Vec::new();
    let mut structural: Vec<StructuralEdit> = Vec::new();
    let mut cells: Vec<CellRunEdit> = Vec::new();
    let mut k: usize = 0;
    assert(runs@.map_values(|x: RunEdit| run_edit_v(x)) =~= Seq::<(int, ChangeV)>::empty());
    assert(structural@.map_values(|x: StructuralEdit| op_v(x)) =~= Seq::<(int, OpV)>::empty());
    assert(cells@.map_values(|x: CellRunEdit| cell_edit_v(x)) =~= Seq::<(int, int, int, ChangeV)>::empty());
    while k < n
        invariant
            k <= n,
            n as int == paired(*base, *edited),
            bb == blocks_v(*base),
            eb == blocks_v(*edited),
            cb == ctx_of(*base),
            ce == ctx_of(*edited),
            ent == entries_of(*bindings),
            runs@.map_values(|x: RunEdit| run_edit_v(x)) == diff_runs(bb, eb, k as int, cb, ce, ent),
            structural@.map_values(|x: StructuralEdit| op_v(x)) == diff_ops(bb, eb, k as int, ce, ent),
            cells@.map_values(|x: CellRunEdit| cell_edit_v(x)) == diff_cells(bb, eb, k as int, cb, ce, ent),
        decreases n - k,
    {
        assert(bb[k as int] == block_v(base.story.blocks@[k as int]));
        assert(eb[k as int] == block_v(edited.story.blocks@[k as int]));
        let ghost r0 = runs@.map_values(|x: RunEdit| run_edit_v(x));
        let ghost s0 = structural@.map_values(|x: StructuralEdit| op_v(x));
        let ghost c0 = cells@.map_values(|x: CellRunEdit| cell_edit_v(x));
        match (&base.story.blocks[k], &edited.story.blocks[k]) {
            (LoweredBlock::Paragraph(bp), LoweredBlock::Paragraph(ep)) => {
                if bp.runs.len() == ep.runs.len() {
                    para_edits(k, &bp.runs, &ep.runs, base, edited, bindings, &mut runs);
                    assert(block_ops(k as int, bb[k as int], eb[k as int], ce, ent) =~= Seq::<(int, OpV)>::empty());
                    assert(s0 + block_ops(k as int, bb[k as int], eb[k as int], ce, ent) =~= s0);
                } else {
                    align_runs(k, &bp.runs, &ep.runs, edited, bindings, &mut structural);
                    assert(r0 + block_runs(k as int, bb[k as int], eb[k as int], cb, ce, ent) =~= r0);
                }
                assert(c0 + block_cells(k as int, bb[k as int], eb[k as int], cb, ce, ent) =~= c0);
            },
            (LoweredBlock::Table(bt), LoweredBlock::Table(et)) => {
                if bt.cells.len() == et.cells.len() {
                    table_edits(k, bt, et, base, edited, bindings, &mut cells);
                } else {
                    assert(c0 + block_cells(k as int, bb[k as int], eb[k as int], cb, ce, ent) =~= c0);
                }
                assert(r0 + block_runs(k as int, bb[k as int], eb[k as int], cb, ce, ent) =~= r0);
                assert(s0 + block_ops(k as int, bb[k as int], eb[k as int], ce, ent) =~= s0);
            },
            _ => {
                assert(r0 + block_runs(k as int, bb[k as int], eb[k as int], cb, ce, ent) =~= r0);
                assert(s0 + block_ops(k as int, bb[k as int], eb[k as int], ce, ent) =~= s0);
                assert(c0 + block_cells(k as int, bb[k as int], eb[k as int], cb, ce, ent) =~= c0);
            },
        }
        k = k + 1;
    }
    tail_edits(base, edited, bindings, &mut structural);
    EditSet { runs, structural, cells, paragraphs: Vec::new() }
}


proof fn lemma_changes_identity(b: Seq<RunId>, n: int, c: Ctx, ent: Seq<(Seq<u8>, Seq<char>)>)
    ensures
        changes(b, b, n, c, c, ent) == Seq::<ChangeV>::empty(),
    decreases n,
{
    if n > 0 {
        lemma_changes_identity(b, n - 1, c, ent);
        assert(change_of(n - 1, b[n - 1], b[n - 1], c, c, ent) is None);
        assert(changes(b, b, n, c, c, ent) =~= Seq::<ChangeV>::empty());
    }
}

proof fn lemma_para_changes_identity(p: CellShape, n: int, c: Ctx, ent: Seq<(Seq<u8>, Seq<char>)>)
    ensures
        para_changes(p, p, n, c, c, ent) == Seq::<(int, ChangeV)>::empty(),
    decreases n,
{
    if n > 0 {
        lemma_para_changes_identity(p, n - 1, c, ent);
        lemma_changes_identity(p[n - 1], p[n - 1].len() as int, c, ent);
        assert(para_changes(p, p, n, c, c, ent) =~= Seq::<(int, ChangeV)>::empty());
    }
}

proof fn lemma_cell_changes_identity(t: Seq<CellShape>, n: int, c: Ctx, ent: Seq<(Seq<u8>, Seq<char>)>)
    ensures
        cell_changes(t, t, n, c, c, ent) == Seq::<(int, int, ChangeV)>::empty(),
    decreases n,
{
    if n > 0 {
        lemma_cell_changes_identity(t, n - 1, c, ent);
        lemma_para_changes_identity(t[n - 1], t[n - 1].len() as int, c, ent);
        assert(cell_changes(t, t, n, c, c, ent) =~= Seq::<(int, int, ChangeV)>::empty());
    }
}

/// Diffing a lowering against itself gives no edits: no run edit, no
/// structural edit, no cell edit.
pub proof fn law_diff_of_identical(bb: Seq<BlockV>, n: int, c: Ctx, ent: Seq<(Seq<u8>, Seq<char>)>)
    ensures
        diff_runs(bb, bb, n, c, c, ent) == Seq::<(int, ChangeV)>::empty(),
        diff_ops(bb, bb, n, c, ent) == Seq::<(int, OpV)>::empty(),
        diff_cells(bb, bb, n, c, c, ent) == Seq::<(int, int, int, ChangeV)>::empty(),
        tail_ops(bb, bb, c, ent) == Seq::<(int, OpV)>::empty(),
    decreases n,
{
    assert(tail_ops(bb, bb, c, ent) =~= Seq::<(int, OpV)>::empty());
    if n > 0 {
        law_diff_of_identical(bb, n - 1, c, ent);
        match bb[n - 1] {
            BlockV::Para(r) => {
                lemma_changes_identity(r, r.len() as int, c, ent);
            },
            BlockV::Tab(t) => {
                lemma_cell_changes_identity(t, t.len() as int, c, ent);
            },
        }
        assert(block_runs(n - 1, bb[n - 1], bb[n - 1], c, c, ent) =~= Seq::<(int, ChangeV)>::empty());
        assert(block_ops(n - 1, bb[n - 1], bb[n - 1], c, ent) =~= Seq::<(int, OpV)>::empty());
        assert(block_cells(n - 1, bb[n - 1], bb[n - 1], c, c, ent) =~= Seq::<(int, int, int, ChangeV)>::empty());
        assert(diff_runs(bb, bb, n, c, c, ent) =~= Seq::<(int, ChangeV)>::empty());
        assert(diff_ops(bb, bb, n, c, ent) =~= Seq::<(int, OpV)>::empty());
        assert(diff_cells(bb, bb, n, c, c, ent) =~= Seq::<(int, int, int, ChangeV)>::empty());
    }
}

} // verus!
