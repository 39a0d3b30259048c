//! Fragment emitters: `RunProps -> <w:rPr>…</w:rPr>`, `ParaProps -> <w:pPr>…`,
//! text `-> <w:t>…</w:t>`, and whole runs, paragraphs and table rows. Each
//! emitter's result is stated exactly by a spec function of the same shape; the
//! `w:` prefix resolves against the `xmlns:w` declaration of the document root.

use vstd::prelude::*;
use vstd::string::StringSliceAdditionalSpecFns;
use crate::bytes::{sbytes, ubytes, dec, dec_int, push_bytes, push_str, push_dec, push_int};
use crate::model::{Justification, ParaProps, RunProps, TabStop, VertAlign};

verus! {

/// The XML escape of one byte: `< > & ' "` and carriage return become
/// references, every other byte stands for itself.
pub open spec fn esc_byte(b: u8) -> Seq<u8> {
    if b == 0x3c {
        sbytes("&lt;")
    } else if b == 0x3e {
        sbytes("&gt;")
    } else if b == 0x26 {
        sbytes("&amp;")
    } else if b == 0x27 {
        sbytes("&apos;")
    } else if b == 0x22 {
        sbytes("&quot;")
    } else if b == 0x0d {
        sbytes("&#13;")
    } else {
        seq![b]
    }
}

/// XML escaping of a UTF-8 byte string, byte by byte (every escaped character
/// is ASCII, so multi-byte characters pass through unchanged).
pub open spec fn escape_spec(s: Seq<u8>) -> Seq<u8>
    decreases s.len(),
{
    if s.len() == 0 {
        seq![]
    } else {
        escape_spec(s.drop_last()) + esc_byte(s.last())
    }
}

/// Append the XML escape of `s`.
pub fn push_escaped(out: &mut Vec<u8>, s: &[u8])
    ensures
        final(out)@ == old(out)@ + escape_spec(s@),
{
    let mut i: usize = 0;
    while i < s.len()
        invariant
            i <= s@.len(),
            out@ == old(out)@ + escape_spec(s@.subrange(0, i as int)),
        decreases s@.len() - i,
    {
        let b = s[i];
        let ghost before = out@;
        if b == 0x3c {
            push_str(out, "&lt;");
        } else if b == 0x3e {
            push_str(out, "&gt;");
        } else if b == 0x26 {
            push_str(out, "&amp;");
        } else if b == 0x27 {
            push_str(out, "&apos;");
        } else if b == 0x22 {
            push_str(out, "&quot;");
        } else if b == 0x0d {
            push_str(out, "&#13;");
        } else {
            out.push(b);
        }
        assert(out@ =~= before + esc_byte(b));
        assert(s@.subrange(0, i + 1).drop_last() =~= s@.subrange(0, i as int));
        i = i + 1;
        assert(out@ =~= old(out)@ + escape_spec(s@.subrange(0, i as int)));
    }
    assert(s@.subrange(0, s@.len() as int) =~= s@);
}

/// `<w:t xml:space="preserve">…</w:t>` around the escaped text.
pub open spec fn wt_spec(text: Seq<u8>) -> Seq<u8> {
    sbytes("<w:t xml:space=\"preserve\">") + escape_spec(text) + sbytes("</w:t>")
}

/// A run's `<w:t>` element with the new text, always `xml:space="preserve"` so
/// leading/trailing spaces survive.
pub fn render_wt(text: &str) -> (r: Vec<u8>)
    ensures
        r@ == wt_spec(sbytes(text)),
{
    let mut out = Vec::new();
    push_str(&mut out, "<w:t xml:space=\"preserve\">");
    push_escaped(&mut out, text.as_bytes());
    push_str(&mut out, "</w:t>");
    assert(out@ =~= wt_spec(sbytes(text)));
    out
}

/// `<w:NAME/>` for on, `<w:NAME w:val="false"/>` for off, nothing to inherit.
pub open spec fn toggle_spec(name: Seq<u8>, v: Option<bool>) -> Seq<u8> {
    match v {
        Some(true) => sbytes("<w:") + name + sbytes("/>"),
        Some(false) => sbytes("<w:") + name + sbytes(" w:val=\"false\"/>"),
        None => seq![],
    }
}

/// Emit a boolean toggle property (absent `w:val` reads as on).
pub fn toggle(s: &mut Vec<u8>, name: &str, v: Option<bool>)
    ensures
        final(s)@ == old(s)@ + toggle_spec(sbytes(name), v),
{
    match v {
        Some(true) => {
            push_str(s, "<w:");
            push_str(s, name);
            push_str(s, "/>");
        },
        Some(false) => {
            push_str(s, "<w:");
            push_str(s, name);
            push_str(s, " w:val=\"false\"/>");
        },
        None => {},
    }
    assert(s@ =~= old(s)@ + toggle_spec(sbytes(name), v));
}

/// `<w:NAME w:val="…"/>` around an escaped string value, or nothing.
pub open spec fn val_elem(open: Seq<u8>, v: Option<Seq<u8>>) -> Seq<u8> {
    match v {
        Some(x) => open + escape_spec(x) + sbytes("\"/>"),
        None => seq![],
    }
}

/// The bytes of an optional string.
pub open spec fn opt_bytes(v: Option<String>) -> Option<Seq<u8>> {
    match v {
        Some(s) => Some(ubytes(s@)),
        None => None,
    }
}

/// The bytes of an optional string slice.
pub open spec fn opt_sbytes(v: Option<&str>) -> Option<Seq<u8>> {
    match v {
        Some(s) => Some(sbytes(s)),
        None => None,
    }
}

fn push_val_elem(out: &mut Vec<u8>, open: &str, v: Option<&str>)
    ensures
        final(out)@ == old(out)@ + val_elem(sbytes(open), opt_sbytes(v)),
{
    if let Some(x) = v {
        push_str(out, open);
        push_escaped(out, x.as_bytes());
        push_str(out, "\"/>");
    }
    assert(out@ =~= old(out)@ + val_elem(sbytes(open), opt_sbytes(v)));
}

/// The `w:val` word of a vertical alignment.
pub open spec fn vert_word(v: VertAlign) -> Seq<u8> {
    match v {
        VertAlign::Baseline => sbytes("baseline"),
        VertAlign::Superscript => sbytes("superscript"),
        VertAlign::Subscript => sbytes("subscript"),
    }
}

/// `<w:position w:val="N"/>` for a baseline shift, or nothing.
pub open spec fn position_piece(v: Option<i32>) -> Seq<u8> {
    match v {
        Some(pos) => sbytes("<w:position w:val=\"") + dec_int(pos as int) + sbytes("\"/>"),
        None => seq![],
    }
}

/// `<w:sz w:val="N"/>` for a font size, or nothing.
pub open spec fn size_piece(v: Option<u32>) -> Seq<u8> {
    match v {
        Some(sz) => sbytes("<w:sz w:val=\"") + dec(sz as nat) + sbytes("\"/>"),
        None => seq![],
    }
}

/// `<w:u w:val="single"/>` / `<w:u w:val="none"/>`, or nothing.
pub open spec fn underline_piece(v: Option<bool>) -> Seq<u8> {
    match v {
        Some(true) => sbytes("<w:u w:val=\"single\"/>"),
        Some(false) => sbytes("<w:u w:val=\"none\"/>"),
        None => seq![],
    }
}

/// `<w:vertAlign w:val="…"/>`, or nothing.
pub open spec fn vert_piece(v: Option<VertAlign>) -> Seq<u8> {
    match v {
        Some(va) => sbytes("<w:vertAlign w:val=\"") + vert_word(va) + sbytes("\"/>"),
        None => seq![],
    }
}

/// The `<w:rPr>` element for a run's direct properties, in `CT_RPr` child
/// order: `rStyle`, `rFonts`, `b`, `i`, `caps`, `smallCaps`, `strike`,
/// `color`, `position`, `sz`, `u`, `vertAlign`.
#[verifier::opaque]
pub open spec fn rpr_spec(p: RunProps, rstyle: Option<Seq<u8>>) -> Seq<u8> {
    sbytes("<w:rPr>")
        + val_elem(sbytes("<w:rStyle w:val=\""), rstyle)
        + val_elem(sbytes("<w:rFonts w:ascii=\""), opt_bytes(p.font))
        + toggle_spec(sbytes("b"), p.bold)
        + toggle_spec(sbytes("i"), p.italic)
        + toggle_spec(sbytes("caps"), p.caps)
        + toggle_spec(sbytes("smallCaps"), p.small_caps)
        + toggle_spec(sbytes("strike"), p.strike)
        + val_elem(sbytes("<w:color w:val=\""), opt_bytes(p.color))
        + position_piece(p.baseline_half_pts)
        + size_piece(p.size_half_pts)
        + underline_piece(p.underline)
        + vert_piece(p.vert_align)
        + sbytes("</w:rPr>")
}

/// Borrow an optional string as an optional slice.
pub fn opt_str(v: &Option<String>) -> (r: Option<&str>)
    ensures
        opt_sbytes(r) == opt_bytes(*v),
{
    match v {
        Some(s) => Some(s.as_str()),
        None => None,
    }
}

fn push_position(s: &mut Vec<u8>, v: Option<i32>)
    ensures
        final(s)@ == old(s)@ + position_piece(v),
{
    if let Some(pos) = v {
        push_str(s, "<w:position w:val=\"");
        push_int(s, pos as i64);
        push_str(s, "\"/>");
    }
    assert(s@ =~= old(s)@ + position_piece(v));
}

fn push_size(s: &mut Vec<u8>, v: Option<u32>)
    ensures
        final(s)@ == old(s)@ + size_piece(v),
{
    if let Some(sz) = v {
        push_str(s, "<w:sz w:val=\"");
        push_dec(s, sz as u64);
        push_str(s, "\"/>");
    }
    assert(s@ =~= old(s)@ + size_piece(v));
}

fn push_underline(s: &mut Vec<u8>, v: Option<bool>)
    ensures
        final(s)@ == old(s)@ + underline_piece(v),
{
    match v {
        Some(true) => push_str(s, "<w:u w:val=\"single\"/>"),
        Some(false) => push_str(s, "<w:u w:val=\"none\"/>"),
        None => {},
    }
    assert(s@ =~= old(s)@ + underline_piece(v));
}

fn push_vert(s: &mut Vec<u8>, v: Option<VertAlign>)
    ensures
        final(s)@ == old(s)@ + vert_piece(v),
{
    if let Some(va) = v {
        push_str(s, "<w:vertAlign w:val=\"");
        match va {
            VertAlign::Baseline => push_str(s, "baseline"),
            VertAlign::Superscript => push_str(s, "superscript"),
            VertAlign::Subscript => push_str(s, "subscript"),
        }
        push_str(s, "\"/>");
    }
    assert(s@ =~= old(s)@ + vert_piece(v));
}

/// A `<w:rPr>` element for a run's effective direct properties. `rstyle` is a
/// real Word style id, emitted first per the schema.
pub fn render_rpr(props: &RunProps, rstyle: Option<&str>) -> (r: Vec<u8>)
    ensures
        r@ == rpr_spec(*props, opt_sbytes(rstyle)),
{
    reveal(rpr_spec);
    let mut s: Vec<u8> = Vec::new();
    push_str(&mut s, "<w:rPr>");
    assert(s@ =~= sbytes("<w:rPr>"));
    push_val_elem(&mut s, "<w:rStyle w:val=\"", rstyle);
    push_val_elem(&mut s, "<w:rFonts w:ascii=\"", opt_str(&props.font));
    toggle(&mut s, "b", props.bold);
    toggle(&mut s, "i", props.italic);
    toggle(&mut s, "caps", props.caps);
    toggle(&mut s, "smallCaps", props.small_caps);
    toggle(&mut s, "strike", props.strike);
    push_val_elem(&mut s, "<w:color w:val=\"", opt_str(&props.color));
    push_position(&mut s, props.baseline_half_pts);
    push_size(&mut s, props.size_half_pts);
    push_underline(&mut s, props.underline);
    push_vert(&mut s, props.vert_align);
    push_str(&mut s, "</w:rPr>");
    s
}

/// ` NAME="N"` for a present signed value, or nothing.
pub open spec fn num_attr(open: Seq<u8>, v: Option<i32>) -> Seq<u8> {
    match v {
        Some(n) => open + dec_int(n as int) + sbytes("\""),
        None => seq![],
    }
}

fn push_num_attr(s: &mut Vec<u8>, open: &str, v: Option<i32>)
    ensures
        final(s)@ == old(s)@ + num_attr(sbytes(open), v),
{
    if let Some(n) = v {
        push_str(s, open);
        push_int(s, n as i64);
        push_str(s, "\"");
    }
    assert(s@ =~= old(s)@ + num_attr(sbytes(open), v));
}

/// `<w:NAME/>` when the flag is explicitly on, else nothing.
pub open spec fn flag_piece(elem: Seq<u8>, v: Option<bool>) -> Seq<u8> {
    if v == Some(true) { elem } else { seq![] }
}

fn push_flag(s: &mut Vec<u8>, elem: &str, v: Option<bool>)
    ensures
        final(s)@ == old(s)@ + flag_piece(sbytes(elem), v),
{
    if v == Some(true) {
        push_str(s, elem);
    }
    assert(s@ =~= old(s)@ + flag_piece(sbytes(elem), v));
}

/// `<w:spacing w:before=… w:after=…/>` when either is set.
pub open spec fn spacing_piece(p: ParaProps) -> Seq<u8> {
    if p.space_before is Some || p.space_after is Some {
        sbytes("<w:spacing") + num_attr(sbytes(" w:before=\""), p.space_before)
            + num_attr(sbytes(" w:after=\""), p.space_after) + sbytes("/>")
    } else {
        seq![]
    }
}

/// `<w:ind …/>` when any indent is set; a hanging indent is written as
/// `w:hanging` and wins over `w:firstLine`.
pub open spec fn ind_piece(p: ParaProps) -> Seq<u8> {
    if p.left_indent is Some || p.right_indent is Some || p.first_line_indent is Some
        || p.hanging_indent is Some {
        sbytes("<w:ind") + num_attr(sbytes(" w:left=\""), p.left_indent)
            + num_attr(sbytes(" w:right=\""), p.right_indent)
            + if p.hanging_indent is Some {
                num_attr(sbytes(" w:hanging=\""), p.hanging_indent)
            } else {
                num_attr(sbytes(" w:firstLine=\""), p.first_line_indent)
            }
            + sbytes("/>")
    } else {
        seq![]
    }
}

/// One `<w:tab w:val=… w:pos=…/>` (alignment defaults to `left`).
pub open spec fn tab_spec(t: TabStop) -> Seq<u8> {
    sbytes("<w:tab w:val=\"") + escape_spec(
        match t.alignment {
            Some(a) => ubytes(a@),
            None => sbytes("left"),
        },
    ) + sbytes("\" w:pos=\"") + dec_int(t.position as int) + sbytes("\"/>")
}

/// The tab stops in order.
pub open spec fn tabs_spec(tabs: Seq<TabStop>) -> Seq<u8>
    decreases tabs.len(),
{
    if tabs.len() == 0 {
        seq![]
    } else {
        tabs_spec(tabs.drop_last()) + tab_spec(tabs.last())
    }
}

/// `<w:tabs>…</w:tabs>` when there are tab stops.
pub open spec fn tabs_piece(tabs: Seq<TabStop>) -> Seq<u8> {
    if tabs.len() == 0 { seq![] } else { sbytes("<w:tabs>") + tabs_spec(tabs) + sbytes("</w:tabs>") }
}

/// The `w:jc` word of an alignment.
pub open spec fn jc_word(j: Justification) -> Seq<u8> {
    match j {
        Justification::Left | Justification::Start => sbytes("left"),
        Justification::Center => sbytes("center"),
        Justification::Right | Justification::End => sbytes("right"),
        Justification::Both => sbytes("both"),
        Justification::Distribute => sbytes("distribute"),
    }
}

/// `<w:jc w:val=…/>`, or nothing.
pub open spec fn jc_piece(j: Option<Justification>) -> Seq<u8> {
    match j {
        Some(j) => sbytes("<w:jc w:val=\"") + jc_word(j) + sbytes("\"/>"),
        None => seq![],
    }
}

/// The `<w:pPr>` element for a paragraph's style + direct formatting, in
/// `CT_PPr` child order: `pStyle`, `keepNext`, `keepLines`, `spacing`, `ind`,
/// `tabs`, `jc`.
#[verifier::opaque]
pub open spec fn ppr_spec(p: ParaProps, pstyle: Option<Seq<u8>>) -> Seq<u8> {
    sbytes("<w:pPr>") + val_elem(sbytes("<w:pStyle w:val=\""), pstyle)
        + flag_piece(sbytes("<w:keepNext/>"), p.keep_next)
        + flag_piece(sbytes("<w:keepLines/>"), p.keep_lines)
        + spacing_piece(p) + ind_piece(p) + tabs_piece(p.tabs@) + jc_piece(p.justification)
        + sbytes("</w:pPr>")
}

fn push_spacing(s: &mut Vec<u8>, p: &ParaProps)
    ensures
        final(s)@ == old(s)@ + spacing_piece(*p),
{
    if p.space_before.is_some() || p.space_after.is_some() {
        push_str(s, "<w:spacing");
        push_num_attr(s, " w:before=\"", p.space_before);
        push_num_attr(s, " w:after=\"", p.space_after);
        push_str(s, "/>");
    }
    assert(s@ =~= old(s)@ + spacing_piece(*p));
}

fn push_ind(s: &mut Vec<u8>, p: &ParaProps)
    ensures
        final(s)@ == old(s)@ + ind_piece(*p),
{
    if p.left_indent.is_some() || p.right_indent.is_some() || p.first_line_indent.is_some()
        || p.hanging_indent.is_some() {
        push_str(s, "<w:ind");
        push_num_attr(s, " w:left=\"", p.left_indent);
        push_num_attr(s, " w:right=\"", p.right_indent);
        if p.hanging_indent.is_some() {
            push_num_attr(s, " w:hanging=\"", p.hanging_indent);
        } else {
            push_num_attr(s, " w:firstLine=\"", p.first_line_indent);
        }
        push_str(s, "/>");
    }
    assert(s@ =~= old(s)@ + ind_piece(*p));
}

fn push_tab(s: &mut Vec<u8>, t: &TabStop)
    ensures
        final(s)@ == old(s)@ + tab_spec(*t),
{
    push_str(s, "<w:tab w:val=\"");
    match &t.alignment {
        Some(a) => push_escaped(s, a.as_str().as_bytes()),
        None => push_escaped(s, "left".as_bytes()),
    }
    push_str(s, "\" w:pos=\"");
    push_int(s, t.position as i64);
    push_str(s, "\"/>");
    assert(s@ =~= old(s)@ + tab_spec(*t));
}

fn push_tabs(s: &mut Vec<u8>, tabs: &Vec<TabStop>)
    ensures
        final(s)@ == old(s)@ + tabs_piece(tabs@),
{
    if tabs.len() > 0 {
        push_str(s, "<w:tabs>");
        let ghost base = s@;
        let mut i: usize = 0;
        while i < tabs.len()
            invariant
                i <= tabs@.len(),
                s@ == base + tabs_spec(tabs@.subrange(0, i as int)),
            decreases tabs@.len() - i,
        {
            push_tab(s, &tabs[i]);
            assert(tabs@.subrange(0, i + 1).drop_last() =~= tabs@.subrange(0, i as int));
            i = i + 1;
            assert(s@ =~= base + tabs_spec(tabs@.subrange(0, i as int)));
        }
        assert(tabs@.subrange(0, tabs@.len() as int) =~= tabs@);
        push_str(s, "</w:tabs>");
    }
    assert(s@ =~= old(s)@ + tabs_piece(tabs@));
}

fn push_jc(s: &mut Vec<u8>, j: Option<Justification>)
    ensures
        final(s)@ == old(s)@ + jc_piece(j),
{
    if let Some(j) = j {
        push_str(s, "<w:jc w:val=\"");
        match j {
            Justification::Left | Justification::Start => push_str(s, "left"),
            Justification::Center => push_str(s, "center"),
            Justification::Right | Justification::End => push_str(s, "right"),
            Justification::Both => push_str(s, "both"),
            Justification::Distribute => push_str(s, "distribute"),
        }
        push_str(s, "\"/>");
    }
    assert(s@ =~= old(s)@ + jc_piece(j));
}

/// A `<w:pPr>` element for a paragraph's applied style + direct formatting.
/// `pstyle` is a real Word style id.
pub fn render_ppr(props: &ParaProps, pstyle: Option<&str>) -> (r: Vec<u8>)
    ensures
        r@ == ppr_spec(*props, opt_sbytes(pstyle)),
{
    reveal(ppr_spec);
    let mut s: Vec<u8> = Vec::new();
    push_str(&mut s, "<w:pPr>");
    assert(s@ =~= sbytes("<w:pPr>"));
    push_val_elem(&mut s, "<w:pStyle w:val=\"", pstyle);
    push_flag(&mut s, "<w:keepNext/>", props.keep_next);
    push_flag(&mut s, "<w:keepLines/>", props.keep_lines);
    push_spacing(&mut s, props);
    push_ind(&mut s, props);
    push_tabs(&mut s, &props.tabs);
    push_jc(&mut s, props.justification);
    push_str(&mut s, "</w:pPr>");
    s
}

/// A whole `<w:r>`: the `<w:rPr>` (only when there is something to say) and
/// the text.
pub open spec fn run_spec(text: Seq<u8>, p: RunProps, rstyle: Option<Seq<u8>>) -> Seq<u8> {
    sbytes("<w:r>") + (if p.is_empty() && rstyle is None { seq![] } else { rpr_spec(p, rstyle) })
        + wt_spec(text) + sbytes("</w:r>")
}

/// A whole `<w:r>` element: optional `<w:rPr>` + the text.
pub fn render_run(text: &str, props: &RunProps, rstyle: Option<&str>) -> (r: Vec<u8>)
    ensures
        r@ == run_spec(sbytes(text), *props, opt_sbytes(rstyle)),
{
    let mut out: Vec<u8> = Vec::new();
    push_str(&mut out, "<w:r>");
    if !props.is_default() || rstyle.is_some() {
        let rpr = render_rpr(props, rstyle);
        push_bytes(&mut out, &rpr);
    }
    let wt = render_wt(text);
    push_bytes(&mut out, &wt);
    push_str(&mut out, "</w:r>");
    assert(out@ =~= run_spec(sbytes(text), *props, opt_sbytes(rstyle)));
    out
}

/// A whole `<w:p>` carrying one run, with an optional `<w:pStyle>`.
pub open spec fn paragraph_spec(
    text: Seq<u8>,
    p: RunProps,
    rstyle: Option<Seq<u8>>,
    para_style: Option<Seq<u8>>,
) -> Seq<u8> {
    sbytes("<w:p>") + match para_style {
        Some(ps) => sbytes("<w:pPr><w:pStyle w:val=\"") + escape_spec(ps) + sbytes("\"/></w:pPr>"),
        None => seq![],
    } + run_spec(text, p, rstyle) + sbytes("</w:p>")
}

/// A whole `<w:p>` element carrying one run, with an optional `<w:pStyle>`.
pub fn render_paragraph(
    text: &str,
    props: &RunProps,
    rstyle: Option<&str>,
    para_style: Option<&str>,
) -> (r: Vec<u8>)
    ensures
        r@ == paragraph_spec(sbytes(text), *props, opt_sbytes(rstyle), opt_sbytes(para_style)),
{
    let mut out: Vec<u8> = Vec::new();
    push_str(&mut out, "<w:p>");
    if let Some(ps) = para_style {
        push_str(&mut out, "<w:pPr><w:pStyle w:val=\"");
        push_escaped(&mut out, ps.as_bytes());
        push_str(&mut out, "\"/></w:pPr>");
    }
    let run = render_run(text, props, rstyle);
    push_bytes(&mut out, &run);
    push_str(&mut out, "</w:p>");
    assert(out@ =~= paragraph_spec(sbytes(text), *props, opt_sbytes(rstyle), opt_sbytes(para_style)));
    out
}

/// One `<w:tc>` holding a single paragraph, with a plain run when the text is
/// not empty (a cell must hold at least one paragraph).
pub open spec fn cell_spec(text: Seq<char>) -> Seq<u8> {
    sbytes("<w:tc><w:p>") + (if text.len() == 0 {
        seq![]
    } else {
        sbytes("<w:r>") + wt_spec(ubytes(text)) + sbytes("</w:r>")
    }) + sbytes("</w:p></w:tc>")
}

/// The cells in order.
pub open spec fn cells_spec(cells: Seq<String>) -> Seq<u8>
    decreases cells.len(),
{
    if cells.len() == 0 {
        seq![]
    } else {
        cells_spec(cells.drop_last()) + cell_spec(cells.last()@)
    }
}

fn push_cell(out: &mut Vec<u8>, cell: &String)
    ensures
        final(out)@ == old(out)@ + cell_spec(cell@),
{
    push_str(out, "<w:tc><w:p>");
    let ghost mid = out@;
    let text: &str = cell.as_str();
    assert(sbytes(text) == ubytes(cell@));
    if !text.is_empty() {
        let plain = RunProps::default();
        let run = render_run(text, &plain, None);
        assert(opt_sbytes(None) is None);
        assert(run@ =~= sbytes("<w:r>") + wt_spec(ubytes(cell@)) + sbytes("</w:r>"));
        push_bytes(out, &run);
        assert(out@ =~= mid + sbytes("<w:r>") + wt_spec(ubytes(cell@)) + sbytes("</w:r>"));
    }
    push_str(out, "</w:p></w:tc>");
    assert(out@ =~= old(out)@ + cell_spec(cell@));
}

/// A whole `<w:tr>` element with one `<w:tc>` per entry of `cells`.
pub fn render_table_row(cells: &[String]) -> (r: Vec<u8>)
    ensures
        r@ == sbytes("<w:tr>") + cells_spec(cells@) + sbytes("</w:tr>"),
{
    let mut out: Vec<u8> = Vec::new();
    push_str(&mut out, "<w:tr>");
    let ghost base = out@;
    let mut i: usize = 0;
    while i < cells.len()
        invariant
            i <= cells@.len(),
            out@ == base + cells_spec(cells@.subrange(0, i as int)),
        decreases cells@.len() - i,
    {
        push_cell(&mut out, &cells[i]);
        assert(cells@.subrange(0, i + 1).drop_last() =~= cells@.subrange(0, i as int));
        i = i + 1;
        assert(out@ =~= base + cells_spec(cells@.subrange(0, i as int)));
    }
    assert(cells@.subrange(0, cells@.len() as int) =~= cells@);
    push_str(&mut out, "</w:tr>");
    out
}

} // verus!
