//! Lowering of the Word model to the host IR. The host's only range-styling
//! operation is applying a named style, so direct Word formatting is carried
//! by synthesized named styles (deduplicated by property signature, based on
//! the referenced style). Word styles become native styles with every parent
//! before its children; the body becomes one story of paragraphs and tables.

use vstd::prelude::*;
use crate::bytes::{dec_int, sbytes, ubytes};
use crate::ir::{
    Diagnostic, LoweredBlock, LoweredCell, LoweredDoc, LoweredImage, LoweredParagraph, LoweredRun,
    LoweredSection, LoweredStory, LoweredStyle, LoweredSwatch, LoweredTabStop, LoweredTable, PropValue,
    StyleCollection, StyleProp,
};
use crate::model::{
    Block, DocxDocument, Justification, ListKind, ListMarker, ParaProps, Paragraph, Run, RunProps, Section,
    Style, StyleKind, TabStop, Table, VMerge, VertAlign,
};
use crate::rpr::opt_bytes;
use crate::diff::{style_from, styles_v};
use crate::text::{append, owned};

verus! {

/// Prefix of every lowered paragraph-style token.
pub const PARA_PREFIX: &'static str = "ParagraphStyle/docx-";

/// Prefix of every lowered character-style token.
pub const CHAR_PREFIX: &'static str = "CharacterStyle/docx-";

/// The rest of the diagnostic that counts the hyperlink runs styled.
pub const LINK_NOTE: &'static str = " hyperlink run(s) styled (blue + underline); the clickable link is preserved in the source .docx but not yet a native clickable link";

/// An optional text as a value.
pub open spec fn opt_chars(v: Option<String>) -> Option<Seq<char>> {
    match v {
        Some(s) => Some(s@),
        None => None,
    }
}

/// A tab stop as a value: position (twips), alignment, alignment character,
/// leader.
pub type TabV = (int, Option<Seq<char>>, Option<Seq<char>>, Option<Seq<char>>);

/// A property value as a value.
pub enum PropV {
    Text(Seq<char>),
    Length(int),
    Bool(bool),
    ColorRef(Seq<char>),
    TabStops(Seq<TabV>),
}

/// A style property as a value: its path and value.
pub type PropView = (Seq<char>, PropV);

/// A lowered tab stop as a value.
pub open spec fn tab_view(t: LoweredTabStop) -> TabV {
    (t.position as int, opt_chars(t.alignment), opt_chars(t.alignment_character), opt_chars(t.leader))
}

/// A property value as a value.
pub open spec fn value_view(v: PropValue) -> PropV {
    match v {
        PropValue::Text(s) => PropV::Text(s@),
        PropValue::Length(l) => PropV::Length(l as int),
        PropValue::Bool(b) => PropV::Bool(b),
        PropValue::ColorRef(c) => PropV::ColorRef(c@),
        PropValue::TabStops(ts) => PropV::TabStops(ts@.map_values(|t: LoweredTabStop| tab_view(t))),
    }
}

/// A style property as a value.
pub open spec fn prop_view(p: StyleProp) -> PropView {
    (p.path@, value_view(p.value))
}

/// Style properties as values.
pub open spec fn props_view(v: Seq<StyleProp>) -> Seq<PropView> {
    v.map_values(|p: StyleProp| prop_view(p))
}

/// A property when `cond` holds, else nothing.
pub open spec fn prop_if(cond: bool, path: Seq<char>, v: PropV) -> Seq<PropView> {
    if cond {
        seq![(path, v)]
    } else {
        Seq::empty()
    }
}

/// The justification word the host expects for a Word `w:jc`.
pub open spec fn justification_word(j: Justification) -> Seq<char> {
    match j {
        Justification::Left | Justification::Start => "LeftAlign"@,
        Justification::Center => "CenterAlign"@,
        Justification::Right | Justification::End => "RightAlign"@,
        Justification::Both => "LeftJustified"@,
        Justification::Distribute => "FullyJustified"@,
    }
}

/// The justification word (see [`justification_word`]).
pub fn justification_idml(j: Justification) -> (r: &'static str)
    ensures
        r@ == justification_word(j),
{
    match j {
        Justification::Left | Justification::Start => "LeftAlign",
        Justification::Center => "CenterAlign",
        Justification::Right | Justification::End => "RightAlign",
        Justification::Both => "LeftJustified",
        Justification::Distribute => "FullyJustified",
    }
}

/// A lowered tab stop of a Word tab stop.
pub open spec fn tab_of(t: TabStop) -> TabV {
    (t.position as int, opt_chars(t.alignment), None, opt_chars(t.leader))
}

/// The first-line indent property: a hanging indent is a negative first-line
/// indent and wins over an explicit first-line indent.
pub open spec fn first_line_prop(p: ParaProps) -> Seq<PropView> {
    match p.hanging_indent {
        Some(v) => seq![("paragraphFirstLineIndent"@, PropV::Length(-(v as int)))],
        None => match p.first_line_indent {
            Some(v) => seq![("paragraphFirstLineIndent"@, PropV::Length(v as int))],
            None => Seq::empty(),
        },
    }
}

/// The style properties of direct paragraph formatting, in order.
pub open spec fn para_props_spec(p: ParaProps) -> Seq<PropView> {
    prop_if(p.justification is Some, "paragraphJustification"@, PropV::Text(justification_word(p.justification->0)))
        + prop_if(p.left_indent is Some, "paragraphLeftIndent"@, PropV::Length(p.left_indent->0 as int))
        + prop_if(p.right_indent is Some, "paragraphRightIndent"@, PropV::Length(p.right_indent->0 as int))
        + first_line_prop(p)
        + prop_if(p.space_before is Some, "paragraphSpaceBefore"@, PropV::Length(p.space_before->0 as int))
        + prop_if(p.space_after is Some, "paragraphSpaceAfter"@, PropV::Length(p.space_after->0 as int))
        + prop_if(p.keep_next == Some(true), "paragraphKeepWithNext"@, PropV::Length(20))
        + prop_if(p.keep_lines is Some, "paragraphKeepLinesTogether"@, PropV::Bool(p.keep_lines->0))
        + prop_if(p.tabs@.len() > 0, "paragraphTabStops"@, PropV::TabStops(p.tabs@.map_values(|t: TabStop| tab_of(t))))
}

/// The font style word of the bold and italic toggles.
pub open spec fn font_style_word(bold: bool, italic: bool) -> Seq<char> {
    if bold && italic {
        "Bold Italic"@
    } else if bold {
        "Bold"@
    } else if italic {
        "Italic"@
    } else {
        "Regular"@
    }
}

/// The swatch token of an `RRGGBB` color.
pub open spec fn swatch_token(hex: Seq<char>) -> Seq<char> {
    "Color/docx-"@ + hex
}

/// The character-case property: small caps wins over all caps.
pub open spec fn case_prop(r: RunProps) -> Seq<PropView> {
    if r.small_caps == Some(true) {
        seq![("characterCase"@, PropV::Text("SmallCaps"@))]
    } else if r.caps == Some(true) {
        seq![("characterCase"@, PropV::Text("AllCaps"@))]
    } else {
        Seq::empty()
    }
}

/// The position property of a vertical alignment (baseline has none).
pub open spec fn position_prop(v: Option<VertAlign>) -> Seq<PropView> {
    match v {
        Some(VertAlign::Superscript) => seq![("characterPosition"@, PropV::Text("Superscript"@))],
        Some(VertAlign::Subscript) => seq![("characterPosition"@, PropV::Text("Subscript"@))],
        _ => Seq::empty(),
    }
}

/// The style properties of direct run formatting, in order. Sizes in
/// half-points become twips (ten per half-point).
pub open spec fn run_props_spec(r: RunProps) -> Seq<PropView> {
    prop_if(r.font is Some, "characterFontFamily"@, PropV::Text(opt_chars(r.font)->0))
        + prop_if(r.bold is Some || r.italic is Some, "characterFontStyle"@, PropV::Text(font_style_word(
            r.bold == Some(true),
            r.italic == Some(true),
        )))
        + prop_if(r.size_half_pts is Some, "characterFontSize"@, PropV::Length(r.size_half_pts->0 as int * 10))
        + prop_if(r.color is Some, "characterFillColor"@, PropV::ColorRef(swatch_token(opt_chars(r.color)->0)))
        + prop_if(r.underline is Some, "characterUnderline"@, PropV::Bool(r.underline->0))
        + prop_if(r.strike is Some, "characterStrikethru"@, PropV::Bool(r.strike->0))
        + position_prop(r.vert_align)
        + case_prop(r)
        + prop_if(r.baseline_half_pts is Some, "characterBaselineShift"@, PropV::Length(r.baseline_half_pts->0 as int * 10))
}

/// The list properties of a paragraph: list type, bullet glyph or number
/// format, and an 18pt indent per level.
pub open spec fn list_props_spec(l: ListMarker) -> Seq<PropView> {
    seq![("paragraphListType"@, PropV::Text(if l.kind == ListKind::Bullet { "BulletList"@ } else { "NumberedList"@ }))]
        + prop_if(l.bullet_char is Some, "paragraphBulletCharacter"@, PropV::Text(opt_chars(l.bullet_char)->0))
        + prop_if(l.number_format is Some, "paragraphNumberingFormat"@, PropV::Text(opt_chars(l.number_format)->0))
        + seq![("paragraphLeftIndent"@, PropV::Length((l.level as int + 1) * 360))]
}

/// A text property.
fn text_prop(path: &str, v: String) -> (p: StyleProp)
    ensures
        prop_view(p) == (path@, PropV::Text(v@)),
{
    StyleProp { path: owned(path), value: PropValue::Text(v) }
}

/// A length property (twips).
fn len_prop(path: &str, v: i64) -> (p: StyleProp)
    ensures
        prop_view(p) == (path@, PropV::Length(v as int)),
{
    StyleProp { path: owned(path), value: PropValue::Length(v) }
}

/// A boolean property.
fn bool_prop(path: &str, v: bool) -> (p: StyleProp)
    ensures
        prop_view(p) == (path@, PropV::Bool(v)),
{
    StyleProp { path: owned(path), value: PropValue::Bool(v) }
}

/// A copy of an optional text.
pub(crate) fn copy_opt(v: &Option<String>) -> (r: Option<String>)
    ensures
        opt_chars(r) == opt_chars(*v),
{
    match v {
        Some(s) => Some(s.clone()),
        None => None,
    }
}

/// Append `p` to `out`, tracking the views.
fn push_prop(out: &mut Vec<StyleProp>, p: StyleProp)
    ensures
        props_view(final(out)@) == props_view(old(out)@).push(prop_view(p)),
{
    out.push(p);
    assert(props_view(final(out)@) =~= props_view(old(out)@).push(prop_view(p)));
}

/// Append a length property when the value is present.
fn push_opt_len(out: &mut Vec<StyleProp>, path: &str, v: Option<i32>)
    ensures
        props_view(final(out)@) == props_view(old(out)@) + prop_if(v is Some, path@, PropV::Length(v->0 as int)),
{
    if let Some(x) = v {
        push_prop(out, len_prop(path, x as i64));
    }
    assert(props_view(final(out)@) =~= props_view(old(out)@) + prop_if(v is Some, path@, PropV::Length(v->0 as int)));
}

/// Append the tab-stops property when there are stops.
fn push_tabs(out: &mut Vec<StyleProp>, tabs: &Vec<TabStop>)
    ensures
        props_view(final(out)@) == props_view(old(out)@) + prop_if(tabs@.len() > 0, "paragraphTabStops"@, PropV::TabStops(
            tabs@.map_values(|t: TabStop| tab_of(t)),
        )),
{
    if tabs.len() > 0 {
        let mut stops: Vec<LoweredTabStop> = Vec::new();
        let mut i: usize = 0;
        while i < tabs.len()
            invariant
                i <= tabs@.len(),
                stops@.map_values(|t: LoweredTabStop| tab_view(t)) == tabs@.take(i as int).map_values(|t: TabStop| tab_of(t)),
            decreases tabs@.len() - i,
        {
            let t = &tabs[i];
            let ghost before = stops@;
            stops.push(LoweredTabStop {
                position: t.position as i64,
                alignment: copy_opt(&t.alignment),
                alignment_character: None,
                leader: copy_opt(&t.leader),
            });
            assert(tabs@.take(i + 1) =~= tabs@.take(i as int).push(tabs@[i as int]));
            assert(stops@.map_values(|t: LoweredTabStop| tab_view(t)) =~= before.map_values(|t: LoweredTabStop| tab_view(t)).push(tab_of(tabs@[i as int])));
            i = i + 1;
        }
        assert(tabs@.take(tabs@.len() as int) =~= tabs@);
        push_prop(out, StyleProp { path: owned("paragraphTabStops"), value: PropValue::TabStops(stops) });
    }
    assert(props_view(final(out)@) =~= props_view(old(out)@) + prop_if(tabs@.len() > 0, "paragraphTabStops"@, PropV::TabStops(
        tabs@.map_values(|t: TabStop| tab_of(t)),
    )));
}

/// Append the first-line indent property (see [`first_line_prop`]).
fn push_first_line(out: &mut Vec<StyleProp>, p: &ParaProps)
    ensures
        props_view(final(out)@) == props_view(old(out)@) + first_line_prop(*p),
{
    if let Some(v) = p.hanging_indent {
        push_prop(out, len_prop("paragraphFirstLineIndent", 0i64 - v as i64));
    } else if let Some(v) = p.first_line_indent {
        push_prop(out, len_prop("paragraphFirstLineIndent", v as i64));
    }
    assert(props_view(final(out)@) =~= props_view(old(out)@) + first_line_prop(*p));
}

/// The style properties of direct paragraph formatting (see
/// [`para_props_spec`]).
pub fn para_props(p: &ParaProps) -> (r: Vec<StyleProp>)
    ensures
        props_view(r@) == para_props_spec(*p),
{
    let mut out: Vec<StyleProp> = Vec::new();
    if let Some(j) = p.justification {
        push_prop(&mut out, text_prop("paragraphJustification", owned(justification_idml(j))));
    }
    assert(props_view(out@) =~= prop_if(p.justification is Some, "paragraphJustification"@, PropV::Text(justification_word(p.justification->0))));
    push_opt_len(&mut out, "paragraphLeftIndent", p.left_indent);
    push_opt_len(&mut out, "paragraphRightIndent", p.right_indent);
    push_first_line(&mut out, p);
    push_opt_len(&mut out, "paragraphSpaceBefore", p.space_before);
    push_opt_len(&mut out, "paragraphSpaceAfter", p.space_after);
    let ghost s6 = props_view(out@);
    if p.keep_next == Some(true) {
        push_prop(&mut out, len_prop("paragraphKeepWithNext", 20));
    }
    assert(props_view(out@) =~= s6 + prop_if(p.keep_next == Some(true), "paragraphKeepWithNext"@, PropV::Length(20)));
    let ghost s7 = props_view(out@);
    if let Some(k) = p.keep_lines {
        push_prop(&mut out, bool_prop("paragraphKeepLinesTogether", k));
    }
    assert(props_view(out@) =~= s7 + prop_if(p.keep_lines is Some, "paragraphKeepLinesTogether"@, PropV::Bool(p.keep_lines->0)));
    push_tabs(&mut out, &p.tabs);
    out
}

/// The list properties of a paragraph (see [`list_props_spec`]).
pub fn list_props(l: &ListMarker) -> (r: Vec<StyleProp>)
    ensures
        props_view(r@) == list_props_spec(*l),
{
    let mut out: Vec<StyleProp> = Vec::new();
    let word = match l.kind {
        ListKind::Bullet => "BulletList",
        ListKind::Numbered => "NumberedList",
    };
    push_prop(&mut out, text_prop("paragraphListType", owned(word)));
    assert(props_view(out@) =~= seq![("paragraphListType"@, PropV::Text(if l.kind == ListKind::Bullet { "BulletList"@ } else { "NumberedList"@ }))]);
    let ghost s1 = props_view(out@);
    if let Some(ch) = &l.bullet_char {
        push_prop(&mut out, text_prop("paragraphBulletCharacter", ch.clone()));
    }
    assert(props_view(out@) =~= s1 + prop_if(l.bullet_char is Some, "paragraphBulletCharacter"@, PropV::Text(opt_chars(l.bullet_char)->0)));
    let ghost s2 = props_view(out@);
    if let Some(f) = &l.number_format {
        push_prop(&mut out, text_prop("paragraphNumberingFormat", f.clone()));
    }
    assert(props_view(out@) =~= s2 + prop_if(l.number_format is Some, "paragraphNumberingFormat"@, PropV::Text(opt_chars(l.number_format)->0)));
    let ghost s3 = props_view(out@);
    push_prop(&mut out, len_prop("paragraphLeftIndent", (l.level as i64 + 1) * 360));
    assert(props_view(out@) =~= s3 + seq![("paragraphLeftIndent"@, PropV::Length((l.level as int + 1) * 360))]);
    out
}

/// The page geometry of a section (Word's default when there is none).
pub open spec fn section_spec(s: Option<Section>) -> (int, int, int, int, int, int, int) {
    match s {
        Some(s) => (s.page_width as int, s.page_height as int, s.margin_top as int, s.margin_bottom as int,
            s.margin_left as int, s.margin_right as int, if s.columns > 1 { s.columns as int } else { 1 }),
        None => (12240, 15840, 1440, 1440, 1440, 1440, 1),
    }
}

/// A lowered section as values.
pub open spec fn section_view(s: LoweredSection) -> (int, int, int, int, int, int, int) {
    (s.page_width as int, s.page_height as int, s.margin_top as int, s.margin_bottom as int, s.margin_left as int,
        s.margin_right as int, s.columns as int)
}

/// The page geometry of the first section (see [`section_spec`]).
pub fn lower_section(section: Option<&Section>) -> (r: LoweredSection)
    ensures
        section_view(r) == section_spec(match section {
            Some(s) => Some(*s),
            None => None,
        }),
{
    match section {
        Some(s) => LoweredSection {
            page_width: s.page_width,
            page_height: s.page_height,
            margin_top: s.margin_top,
            margin_bottom: s.margin_bottom,
            margin_left: s.margin_left,
            margin_right: s.margin_right,
            columns: if s.columns > 1 { s.columns } else { 1 },
        },
        None => {
            let d = Section::default();
            LoweredSection {
                page_width: d.page_width,
                page_height: d.page_height,
                margin_top: d.margin_top,
                margin_bottom: d.margin_bottom,
                margin_left: d.margin_left,
                margin_right: d.margin_right,
                columns: d.columns,
            }
        },
    }
}

/// The ASCII text of an ASCII byte string.
pub(crate) fn ascii_string(b: &Vec<u8>) -> (r: String)
    requires
        forall|i: int| 0 <= i < b@.len() ==> b@[i] < 0x80,
    ensures
        ubytes(r@) == b@,
{
    proof {
        assert(b@.subrange(0, 0) =~= Seq::<u8>::empty());
        vstd::utf8::partial_valid_utf8_extend_ascii_block(b@, 0, b@.len() as int);
        assert(b@.subrange(0, b@.len() as int) =~= b@);
    }
    match crate::bytes::utf8_str(b.as_slice()) {
        Some(s) => {
            proof { vstd::utf8::encode_utf8_decode_utf8(s@); }
            owned(s)
        },
        None => {
            assert(false);
            String::new()
        },
    }
}

proof fn lemma_dec_ascii(n: nat)
    ensures
        forall|i: int| 0 <= i < crate::bytes::dec(n).len() ==> crate::bytes::dec(n)[i] < 0x80,
    decreases n,
{
    if n >= 10 {
        lemma_dec_ascii(n / 10);
        let d = crate::bytes::dec(n / 10);
        assert(crate::bytes::dec(n) == d + seq![(0x30 + n % 10) as u8]);
        assert forall|i: int| 0 <= i < crate::bytes::dec(n).len() implies crate::bytes::dec(n)[i] < 0x80 by {
            if i < d.len() {
                assert(crate::bytes::dec(n)[i] == d[i]);
            }
        }
    }
}

/// The decimal text of a signed value.
fn int_string(v: i64) -> (r: String)
    ensures
        ubytes(r@) == dec_int(v as int),
{
    let mut b: Vec<u8> = Vec::new();
    crate::bytes::push_int(&mut b, v);
    proof {
        if v < 0 {
            lemma_dec_ascii((-(v as int)) as nat);
        } else {
            lemma_dec_ascii(v as nat);
        }
        assert(forall|i: int| 0 <= i < b@.len() ==> b@[i] < 0x80) by {
            if v < 0 {
                assert(b@ == seq![0x2du8] + crate::bytes::dec((-(v as int)) as nat));
                assert forall|i: int| 0 <= i < b@.len() implies b@[i] < 0x80 by {
                    if i > 0 {
                        assert(b@[i] == crate::bytes::dec((-(v as int)) as nat)[i - 1]);
                    }
                }
            }
        }
    }
    ascii_string(&b)
}

/// Value of an ASCII hex digit.
pub open spec fn hex_val(b: u8) -> Option<int> {
    if 0x30 <= b <= 0x39 {
        Some(b - 0x30)
    } else if 0x41 <= b <= 0x46 {
        Some(b - 0x41 + 10)
    } else if 0x61 <= b <= 0x66 {
        Some(b - 0x61 + 10)
    } else {
        None
    }
}

/// A two-character radix-16 byte, as `u8::from_str_radix` reads it (an
/// optional leading `+`).
pub open spec fn hex_pair(a: u8, b: u8) -> Option<u8> {
    if a == 0x2b {
        match hex_val(b) {
            Some(v) => Some(v as u8),
            None => None,
        }
    } else {
        match (hex_val(a), hex_val(b)) {
            (Some(x), Some(y)) => Some((x * 16 + y) as u8),
            _ => None,
        }
    }
}

/// The channels of an `RRGGBB` color, when it is six bytes of hex pairs.
pub open spec fn rgb_of(hex: Seq<u8>) -> Option<(u8, u8, u8)> {
    if hex.len() != 6 {
        None
    } else {
        match (hex_pair(hex[0], hex[1]), hex_pair(hex[2], hex[3]), hex_pair(hex[4], hex[5])) {
            (Some(r), Some(g), Some(b)) => Some((r, g, b)),
            _ => None,
        }
    }
}

fn hex_digit(b: u8) -> (r: Option<u8>)
    ensures
        match r {
            Some(v) => hex_val(b) == Some(v as int),
            None => hex_val(b) is None,
        },
{
    if 0x30 <= b && b <= 0x39 {
        Some(b - 0x30)
    } else if 0x41 <= b && b <= 0x46 {
        Some(b - 0x41 + 10)
    } else if 0x61 <= b && b <= 0x66 {
        Some(b - 0x61 + 10)
    } else {
        None
    }
}

fn read_pair(a: u8, b: u8) -> (r: Option<u8>)
    ensures
        r == hex_pair(a, b),
{
    if a == 0x2b {
        return hex_digit(b);
    }
    match (hex_digit(a), hex_digit(b)) {
        (Some(x), Some(y)) => Some(x * 16 + y),
        _ => None,
    }
}

/// A swatch as a value: token, name, color space, channels.
pub open spec fn swatch_view(s: LoweredSwatch) -> (Seq<char>, Seq<char>, Seq<char>, Seq<u8>) {
    (s.id@, s.name@, s.space@, s.value@)
}

/// A swatch registry as values.
pub open spec fn swatch_views(v: Seq<LoweredSwatch>) -> Seq<(Seq<char>, Seq<char>, Seq<char>, Seq<u8>)> {
    v.map_values(|s: LoweredSwatch| swatch_view(s))
}

/// The swatch a color `RRGGBB` mints: its token, the name `docx RRGGBB`,
/// RGB, and its channels (black when they do not parse).
pub open spec fn swatch_of(hex: Seq<char>) -> (Seq<char>, Seq<char>, Seq<char>, Seq<u8>) {
    (swatch_token(hex), "docx "@ + hex, "RGB"@, match rgb_of(ubytes(hex)) {
        Some((r, g, b)) => seq![r, g, b],
        None => seq![0u8, 0u8, 0u8],
    })
}

/// Register the swatch of `hex`: kept when its token is there, else
/// minted last.
pub open spec fn register_spec(v: Seq<(Seq<char>, Seq<char>, Seq<char>, Seq<u8>)>, hex: Seq<char>) -> Seq<(Seq<char>, Seq<char>, Seq<char>, Seq<u8>)> {
    if v.map_values(|x: (Seq<char>, Seq<char>, Seq<char>, Seq<u8>)| x.0).contains(swatch_token(hex)) {
        v
    } else {
        v.push(swatch_of(hex))
    }
}

/// The swatches after registering an optional color.
pub open spec fn register_opt(v: Seq<(Seq<char>, Seq<char>, Seq<char>, Seq<u8>)>, c: Option<String>) -> Seq<(Seq<char>, Seq<char>, Seq<char>, Seq<u8>)> {
    match c {
        Some(hex) => register_spec(v, hex@),
        None => v,
    }
}

/// Parse `RRGGBB` into its channels (see [`rgb_of`]).
pub fn parse_hex(hex: &str) -> (r: Option<(u8, u8, u8)>)
    ensures
        r == rgb_of(sbytes(hex)),
{
    let b = hex.as_bytes();
    if b.len() != 6 {
        return None;
    }
    match (read_pair(b[0], b[1]), read_pair(b[2], b[3]), read_pair(b[4], b[5])) {
        (Some(r), Some(g), Some(bl)) => Some((r, g, bl)),
        _ => None,
    }
}

/// The style tokens of a sequence of styles.
pub open spec fn style_ids(v: Seq<LoweredStyle>) -> Seq<Seq<char>> {
    v.map_values(|s: LoweredStyle| s.id@)
}

/// The swatch tokens of a sequence of swatches.
pub open spec fn swatch_ids(v: Seq<LoweredSwatch>) -> Seq<Seq<char>> {
    v.map_values(|s: LoweredSwatch| s.id@)
}

/// `a` is a prefix of `b`: a table that only grows.
pub open spec fn grows(a: Seq<Seq<char>>, b: Seq<Seq<char>>) -> bool {
    &&& a.len() <= b.len()
    &&& forall|i: int| 0 <= i < a.len() ==> a[i] == b[i]
}

/// No token occurs twice.
pub open spec fn distinct(ids: Seq<Seq<char>>) -> bool {
    forall|i: int, j: int| 0 <= i < j < ids.len() ==> ids[i] != ids[j]
}

/// The synthesized-style cache: signature (as UTF-8 bytes) to style token.
pub open spec fn cache_view(v: Seq<(String, String)>) -> Seq<(Seq<u8>, Seq<char>)> {
    v.map_values(|e: (String, String)| (ubytes(e.0@), e.1@))
}

/// The token cached for a signature, if any (first entry wins).
pub open spec fn cached(c: Seq<(Seq<u8>, Seq<char>)>, sig: Seq<u8>) -> Option<Seq<char>>
    decreases c.len(),
{
    if c.len() == 0 {
        None
    } else if c[0].0 == sig {
        Some(c[0].1)
    } else {
        cached(c.drop_first(), sig)
    }
}

/// Is there a swatch with token `id`?
fn find_id(v: &Vec<LoweredSwatch>, id: &str) -> (r: bool)
    ensures
        r == swatch_ids(v@).contains(id@),
{
    let mut i: usize = 0;
    while i < v.len()
        invariant
            i <= v@.len(),
            forall|k: int| 0 <= k < i ==> swatch_ids(v@)[k] != id@,
        decreases v@.len() - i,
    {
        if crate::bytes::str_eq(v[i].id.as_str(), id) {
            assert(swatch_ids(v@)[i as int] == id@);
            return true;
        }
        i = i + 1;
    }
    false
}

/// The index of the style with token `id`, if any.
/// A token the synthesis mints: the paragraph prefix and `auto-p`, or the
/// character prefix and `auto-c`, then a number.
pub open spec fn synth_token(t: Seq<char>) -> bool {
    exists|n: Seq<char>| t == PARA_PREFIX@ + "auto-p"@ + n || t == CHAR_PREFIX@ + "auto-c"@ + n
}

/// The table `b` keeps the styles of `a` (as values): each keeps its place,
/// and its value unless a synthesized style took its token.
pub open spec fn keeps_v(a: Seq<(Seq<char>, Seq<char>, StyleCollection, Option<Seq<char>>, Seq<PropView>)>, b: Seq<LoweredStyle>) -> bool {
    &&& a.len() <= b.len()
    &&& forall|k: int| 0 <= k < a.len() ==> style_view(#[trigger] b[k]) == a[k] || synth_token(b[k].id@)
}

/// The table `b` keeps the styles of `a` (see [`keeps_v`]).
pub open spec fn keeps(a: Seq<LoweredStyle>, b: Seq<LoweredStyle>) -> bool {
    keeps_v(styles_v(a), b)
}

proof fn lemma_keeps_refl(a: Seq<LoweredStyle>)
    ensures
        keeps(a, a),
{
}

/// Record a style: it replaces the first style with its token in place, or
/// goes last.
pub open spec fn record_spec(
    vs: Seq<(Seq<char>, Seq<char>, StyleCollection, Option<Seq<char>>, Seq<PropView>)>,
    st: (Seq<char>, Seq<char>, StyleCollection, Option<Seq<char>>, Seq<PropView>),
) -> Seq<(Seq<char>, Seq<char>, StyleCollection, Option<Seq<char>>, Seq<PropView>)> {
    match style_from(vs, st.0, 0) {
        Some(i) => vs.update(i, st),
        None => vs.push(st),
    }
}

/// The native style a catalog style lowers to (`base` the document-defaults
/// base token): a paragraph style keeps its name (or id), takes its
/// paragraph then run properties, and its parent (else `base`); a character
/// style takes its run properties and its parent; table and numbering
/// styles lower to nothing.
pub open spec fn catalog_style_view(s: Style, base: Option<Seq<char>>) -> Option<(Seq<char>, Seq<char>, StyleCollection, Option<Seq<char>>, Seq<PropView>)> {
    let name = match s.name {
        Some(n) => n@,
        None => s.style_id@,
    };
    match s.kind {
        StyleKind::Paragraph => Some((
            vstd::utf8::decode_utf8(ref_token(PARA_PREFIX, s.style_id@)),
            name,
            StyleCollection::Paragraph,
            match s.based_on {
                Some(b) => Some(vstd::utf8::decode_utf8(ref_token(PARA_PREFIX, b@))),
                None => base,
            },
            para_props_spec(s.para) + run_props_spec(s.run),
        )),
        StyleKind::Character => Some((
            vstd::utf8::decode_utf8(ref_token(CHAR_PREFIX, s.style_id@)),
            name,
            StyleCollection::Character,
            match s.based_on {
                Some(b) => Some(vstd::utf8::decode_utf8(ref_token(CHAR_PREFIX, b@))),
                None => None,
            },
            run_props_spec(s.run),
        )),
        _ => None,
    }
}

/// The swatches after lowering the catalog `styles` in order onto `v`: each
/// paragraph or character style registers its run color.
pub open spec fn catalog_swatches(v: Seq<(Seq<char>, Seq<char>, Seq<char>, Seq<u8>)>, styles: Seq<Style>) -> Seq<(Seq<char>, Seq<char>, Seq<char>, Seq<u8>)>
    decreases styles.len(),
{
    if styles.len() == 0 {
        v
    } else {
        let prev = catalog_swatches(v, styles.drop_last());
        let s = styles.last();
        match s.kind {
            StyleKind::Paragraph | StyleKind::Character => register_opt(prev, s.run.color),
            _ => prev,
        }
    }
}

/// The style table after lowering the catalog `styles` in order onto `vs`.
pub open spec fn catalog_fold(
    vs: Seq<(Seq<char>, Seq<char>, StyleCollection, Option<Seq<char>>, Seq<PropView>)>,
    styles: Seq<Style>,
    base: Option<Seq<char>>,
) -> Seq<(Seq<char>, Seq<char>, StyleCollection, Option<Seq<char>>, Seq<PropView>)>
    decreases styles.len(),
{
    if styles.len() == 0 {
        vs
    } else {
        let prev = catalog_fold(vs, styles.drop_last(), base);
        match catalog_style_view(styles.last(), base) {
            Some(st) => record_spec(prev, st),
            None => prev,
        }
    }
}

/// What [`style_from`] finds.
proof fn lemma_style_from(vs: Seq<(Seq<char>, Seq<char>, StyleCollection, Option<Seq<char>>, Seq<PropView>)>, id: Seq<char>, k: int)
    requires
        0 <= k,
    ensures
        style_from(vs, id, k) matches Some(i) ==> k <= i < vs.len() && vs[i].0 == id && forall|j: int| k <= j < i ==> vs[j].0 != id,
        style_from(vs, id, k) is None ==> forall|j: int| k <= j < vs.len() ==> vs[j].0 != id,
    decreases vs.len() - k,
{
    if k < vs.len() && vs[k].0 != id {
        lemma_style_from(vs, id, k + 1);
    }
}

fn style_index(v: &Vec<LoweredStyle>, id: &str) -> (r: Option<usize>)
    ensures
        match r {
            Some(i) => i < v@.len() && style_ids(v@)[i as int] == id@ && forall|k: int| 0 <= k < i ==> style_ids(v@)[k] != id@,
            None => !style_ids(v@).contains(id@),
        },
{
    let mut i: usize = 0;
    while i < v.len()
        invariant
            i <= v@.len(),
            forall|k: int| 0 <= k < i ==> style_ids(v@)[k] != id@,
        decreases v@.len() - i,
    {
        if crate::bytes::str_eq(v[i].id.as_str(), id) {
            return Some(i);
        }
        i = i + 1;
    }
    None
}

/// Mutable lowering state: the style table in creation order, the swatch
/// registry, the synthesis cache and counter, diagnostics, the document
/// defaults base style, and the number of hyperlink runs styled.
pub struct Lowering {
    pub styles: Vec<LoweredStyle>,
    pub swatches: Vec<LoweredSwatch>,
    pub synth_cache: Vec<(String, String)>,
    pub synth_counter: u32,
    pub diagnostics: Vec<Diagnostic>,
    pub default_base: Option<String>,
    pub hyperlinks: u32,
}

impl Lowering {
    /// Style tokens are distinct, swatch tokens are distinct, and every
    /// cached synthesized token names a style.
    pub open spec fn wf(&self) -> bool {
        &&& distinct(style_ids(self.styles@))
        &&& distinct(swatch_ids(self.swatches@))
        &&& forall|k: int| 0 <= k < self.synth_cache@.len() ==> style_ids(self.styles@).contains(#[trigger] self.synth_cache@[k].1@)
    }

    /// A fresh state.
    pub fn new() -> (l: Self)
        ensures
            l.wf(),
            l.styles@.len() == 0,
            l.swatches@.len() == 0,
            l.synth_cache@.len() == 0,
            l.diagnostics@.len() == 0,
            l.default_base is None,
            l.hyperlinks == 0,
            l.synth_counter == 0,
    {
        Lowering {
            styles: Vec::new(),
            swatches: Vec::new(),
            synth_cache: Vec::new(),
            synth_counter: 0,
            diagnostics: Vec::new(),
            default_base: None,
            hyperlinks: 0,
        }
    }

    /// Register a color (by `RRGGBB`) and return its swatch token; a color
    /// seen before keeps its swatch.
    pub fn swatch_for(&mut self, hex: &str) -> (id: String)
        requires
            old(self).wf(),
        ensures
            final(self).hyperlinks == old(self).hyperlinks,
            final(self).wf(),
            id@ == swatch_token(hex@),
            final(self).diagnostics == old(self).diagnostics,
            swatch_ids(final(self).swatches@).contains(id@),
            final(self).styles == old(self).styles,
            final(self).synth_cache == old(self).synth_cache,
            final(self).default_base == old(self).default_base,
            swatch_ids(old(self).swatches@).contains(id@) ==> final(self).swatches == old(self).swatches,
            !swatch_ids(old(self).swatches@).contains(id@) ==> swatch_ids(final(self).swatches@) == swatch_ids(old(self).swatches@).push(id@),
            swatch_views(final(self).swatches@) == register_spec(swatch_views(old(self).swatches@), hex@),
    {
        let ghost sv0 = swatch_views(self.swatches@);
        proof {
            assert(sv0.map_values(|x: (Seq<char>, Seq<char>, Seq<char>, Seq<u8>)| x.0) =~= swatch_ids(self.swatches@));
        }
        let mut token = owned("Color/docx-");
        append(&mut token, hex);
        let ghost ids = swatch_ids(self.swatches@);
        if find_id(&self.swatches, token.as_str()) {
            return token;
        }
        let (r, g, b) = match parse_hex(hex) {
            Some(c) => c,
            None => (0u8, 0u8, 0u8),
        };
        let mut name = owned("docx ");
        append(&mut name, hex);
        let mut value: Vec<u8> = Vec::new();
        value.push(r);
        value.push(g);
        value.push(b);
        let ghost vv = value@;
        proof {
            assert(vv =~= match rgb_of(ubytes(hex@)) {
                Some((r, g, b)) => seq![r, g, b],
                None => seq![0u8, 0u8, 0u8],
            });
        }
        self.swatches.push(LoweredSwatch { id: token.clone(), name, space: owned("RGB"), value });
        assert(swatch_views(self.swatches@) =~= sv0.push(swatch_of(hex@)));
        assert(swatch_ids(self.swatches@) =~= ids.push(token@));
        assert(swatch_ids(self.swatches@)[ids.len() as int] == token@);
        token
    }

    /// Insert a style, replacing one with the same token in place.
    pub fn record_style(&mut self, style: LoweredStyle)
        requires
            old(self).wf(),
        ensures
            final(self).hyperlinks == old(self).hyperlinks,
            final(self).wf(),
            style_ids(final(self).styles@).contains(style.id@),
            style_ids(old(self).styles@).contains(style.id@) ==> style_ids(final(self).styles@) == style_ids(old(self).styles@),
            !style_ids(old(self).styles@).contains(style.id@) ==> style_ids(final(self).styles@) == style_ids(old(self).styles@).push(style.id@),
            final(self).diagnostics == old(self).diagnostics,
            grows(style_ids(old(self).styles@), style_ids(final(self).styles@)),
            final(self).swatches == old(self).swatches,
            final(self).synth_cache == old(self).synth_cache,
            final(self).default_base == old(self).default_base,
            styles_v(final(self).styles@) == record_spec(styles_v(old(self).styles@), style_view(style)),
    {
        let ghost ids = style_ids(self.styles@);
        let ghost vs = styles_v(self.styles@);
        let ghost sv = style_view(style);
        proof {
            lemma_style_from(vs, sv.0, 0);
        }
        if let Some(i) = style_index(&self.styles, style.id.as_str()) {
            let ghost sid = style.id@;
            proof {
                if style_from(vs, sv.0, 0) != Some(i as int) {
                    assert(ids[i as int] == vs[i as int].0);
                    match style_from(vs, sv.0, 0) {
                        Some(j) => {
                            if j < i {
                                assert(ids[j] == vs[j].0);
                            }
                        },
                        None => {},
                    }
                }
            }
            self.styles.set(i, style);
            assert(styles_v(self.styles@) =~= vs.update(i as int, sv));
            assert(style_ids(self.styles@) =~= ids.update(i as int, sid));
            assert(ids.update(i as int, sid) =~= ids);
            assert(style_ids(self.styles@)[i as int] == sid);
            return;
        }
        let ghost sid = style.id@;
        proof {
            if style_from(vs, sv.0, 0) is Some {
                let j = style_from(vs, sv.0, 0)->0;
                assert(ids[j] == vs[j].0);
            }
        }
        self.styles.push(style);
        assert(styles_v(self.styles@) =~= vs.push(sv));
        assert(style_ids(self.styles@) =~= ids.push(sid));
        assert(style_ids(self.styles@)[ids.len() as int] == sid);
        assert forall|k: int| 0 <= k < self.synth_cache@.len() implies style_ids(self.styles@).contains(#[trigger] self.synth_cache@[k].1@) by {
            lemma_grows_contains(ids, style_ids(self.styles@), self.synth_cache@[k].1@);
        }
    }

    /// A paragraph `basedOn` fallback: the explicit parent, else the document
    /// defaults base style.
    pub fn para_base(&self, explicit: Option<String>) -> (r: Option<String>)
        ensures
            opt_chars(r) == match explicit {
                Some(e) => Some(e@),
                None => opt_chars(self.default_base),
            },
    {
        match explicit {
            Some(e) => Some(e),
            None => copy_opt(&self.default_base),
        }
    }
}

/// The signature text of a tab stop list.
pub open spec fn tabs_sig(ts: Seq<TabV>) -> Seq<u8>
    decreases ts.len(),
{
    if ts.len() == 0 {
        Seq::empty()
    } else {
        let t = ts.last();
        tabs_sig(ts.drop_last()) + dec_int(t.0) + sbytes(":") + ubytes(match t.1 {
            Some(a) => a,
            None => Seq::empty(),
        }) + sbytes(":") + ubytes(match t.3 {
            Some(l) => l,
            None => Seq::empty(),
        }) + sbytes(",")
    }
}

/// The signature text of a property value.
pub open spec fn value_sig(v: PropV) -> Seq<u8> {
    match v {
        PropV::Text(t) => ubytes(t),
        PropV::Length(l) => dec_int(l),
        PropV::Bool(b) => if b { sbytes("1") } else { sbytes("0") },
        PropV::ColorRef(c) => ubytes(c),
        PropV::TabStops(ts) => tabs_sig(ts),
    }
}

/// The signature text of a property list: `path=value;` for each.
pub open spec fn props_sig(ps: Seq<PropView>) -> Seq<u8>
    decreases ps.len(),
{
    if ps.len() == 0 {
        Seq::empty()
    } else {
        props_sig(ps.drop_last()) + ubytes(ps.last().0) + sbytes("=") + value_sig(ps.last().1) + sbytes(";")
    }
}

/// The name a collection's signature starts with.
pub open spec fn collection_word(c: StyleCollection) -> Seq<u8> {
    match c {
        StyleCollection::Paragraph => sbytes("Paragraph"),
        StyleCollection::Character => sbytes("Character"),
    }
}

/// The dedup key of a synthesized style: collection, parent, properties.
pub open spec fn signature_spec(c: StyleCollection, based_on: Option<Seq<char>>, ps: Seq<PropView>) -> Seq<u8> {
    collection_word(c) + sbytes("|") + ubytes(match based_on {
        Some(b) => b,
        None => Seq::empty(),
    }) + sbytes("|") + props_sig(ps)
}

/// Append the signature text of a tab stop list.
fn push_tabs_sig(out: &mut String, ts: &Vec<LoweredTabStop>)
    ensures
        ubytes(final(out)@) == ubytes(old(out)@) + tabs_sig(ts@.map_values(|t: LoweredTabStop| tab_view(t))),
{
    let ghost tv = ts@.map_values(|t: LoweredTabStop| tab_view(t));
    let ghost start = ubytes(out@);
    let mut i: usize = 0;
    assert(tv.take(0) =~= Seq::<TabV>::empty());
    assert(start + tabs_sig(tv.take(0)) =~= start);
    while i < ts.len()
        invariant
            i <= ts@.len(),
            tv == ts@.map_values(|t: LoweredTabStop| tab_view(t)),
            ubytes(out@) == start + tabs_sig(tv.take(i as int)),
        decreases ts@.len() - i,
    {
        let t = &ts[i];
        assert(tv.take(i + 1).drop_last() =~= tv.take(i as int));
        assert(tv.take(i + 1).last() == tab_view(*t));
        let ghost before = ubytes(out@);
        append(out, int_string(t.position).as_str());
        append(out, ":");
        match &t.alignment {
            Some(a) => append(out, a.as_str()),
            None => {
                assert(ubytes(Seq::<char>::empty()) =~= Seq::<u8>::empty());
            },
        }
        append(out, ":");
        match &t.leader {
            Some(l) => append(out, l.as_str()),
            None => {
                assert(ubytes(Seq::<char>::empty()) =~= Seq::<u8>::empty());
            },
        }
        append(out, ",");
        assert(ubytes(out@) =~= start + tabs_sig(tv.take(i + 1)));
        i = i + 1;
    }
    assert(tv.take(ts@.len() as int) =~= tv);
}

/// Append the signature text of a property value.
fn push_value_sig(out: &mut String, v: &PropValue)
    ensures
        ubytes(final(out)@) == ubytes(old(out)@) + value_sig(value_view(*v)),
{
    match v {
        PropValue::Text(t) => append(out, t.as_str()),
        PropValue::Length(l) => append(out, int_string(*l).as_str()),
        PropValue::Bool(b) => if *b {
            append(out, "1")
        } else {
            append(out, "0")
        },
        PropValue::ColorRef(c) => append(out, c.as_str()),
        PropValue::TabStops(ts) => push_tabs_sig(out, ts),
    }
}

/// The dedup key of a synthesized style (see [`signature_spec`]).
pub fn synth_signature(collection: StyleCollection, based_on: &Option<String>, props: &Vec<StyleProp>) -> (r: String)
    ensures
        ubytes(r@) == signature_spec(collection, opt_chars(*based_on), props_view(props@)),
{
    let mut sig = match collection {
        StyleCollection::Paragraph => owned("Paragraph"),
        StyleCollection::Character => owned("Character"),
    };
    append(&mut sig, "|");
    match based_on {
        Some(b) => append(&mut sig, b.as_str()),
        None => {
            assert(ubytes(Seq::<char>::empty()) =~= Seq::<u8>::empty());
        },
    }
    append(&mut sig, "|");
    let ghost pv = props_view(props@);
    let ghost start = ubytes(sig@);
    let mut i: usize = 0;
    assert(pv.take(0) =~= Seq::<PropView>::empty());
    assert(start + props_sig(pv.take(0)) =~= start);
    while i < props.len()
        invariant
            i <= props@.len(),
            pv == props_view(props@),
            ubytes(sig@) == start + props_sig(pv.take(i as int)),
        decreases props@.len() - i,
    {
        let p = &props[i];
        assert(pv.take(i + 1).drop_last() =~= pv.take(i as int));
        assert(pv.take(i + 1).last() == prop_view(*p));
        append(&mut sig, p.path.as_str());
        append(&mut sig, "=");
        push_value_sig(&mut sig, &p.value);
        append(&mut sig, ";");
        assert(ubytes(sig@) =~= start + props_sig(pv.take(i + 1)));
        i = i + 1;
    }
    assert(pv.take(props@.len() as int) =~= pv);
    sig
}

/// The cached token for a signature (see [`cached`]).
fn find_cached(cache: &Vec<(String, String)>, sig: &String) -> (r: Option<String>)
    ensures
        opt_chars(r) == cached(cache_view(cache@), ubytes(sig@)),
{
    let ghost cv = cache_view(cache@);
    let mut i: usize = 0;
    assert(cv.subrange(0, cv.len() as int) =~= cv);
    while i < cache.len()
        invariant
            i <= cache@.len(),
            cv == cache_view(cache@),
            cached(cv, ubytes(sig@)) == cached(cv.subrange(i as int, cv.len() as int), ubytes(sig@)),
        decreases cache@.len() - i,
    {
        let ghost rest = cv.subrange(i as int, cv.len() as int);
        assert(rest[0] == cv[i as int]);
        assert(rest.drop_first() =~= cv.subrange(i + 1, cv.len() as int));
        if crate::bytes::bytes_eq(cache[i].0.as_str().as_bytes(), sig.as_str().as_bytes()) {
            return Some(cache[i].1.clone());
        }
        i = i + 1;
    }
    assert(cv.subrange(i as int, cv.len() as int) =~= Seq::<(Seq<u8>, Seq<char>)>::empty());
    None
}

/// A token of a table that grows stays in it.
proof fn lemma_grows_contains(a: Seq<Seq<char>>, b: Seq<Seq<char>>, x: Seq<char>)
    requires
        grows(a, b),
        a.contains(x),
    ensures
        b.contains(x),
{
    let j = choose|j: int| 0 <= j < a.len() && a[j] == x;
    assert(b[j] == x);
}

/// A cached token is the token of some cache entry.
proof fn lemma_cached_in(c: Seq<(Seq<u8>, Seq<char>)>, sig: Seq<u8>)
    ensures
        cached(c, sig) matches Some(x) ==> exists|k: int| 0 <= k < c.len() && c[k].1 == x,
    decreases c.len(),
{
    if c.len() > 0 && c[0].0 != sig {
        lemma_cached_in(c.drop_first(), sig);
        if cached(c, sig) is Some {
            let x = cached(c, sig)->0;
            let k = choose|k: int| 0 <= k < c.drop_first().len() && c.drop_first()[k].1 == x;
            assert(c[k + 1].1 == x);
        }
    } else if c.len() > 0 {
        assert(c[0].1 == cached(c, sig)->0);
    }
}

/// A signature first cached is found again.
proof fn lemma_cached_push(c: Seq<(Seq<u8>, Seq<char>)>, sig: Seq<u8>, id: Seq<char>)
    requires
        cached(c, sig) is None,
    ensures
        cached(c.push((sig, id)), sig) == Some(id),
    decreases c.len(),
{
    if c.len() > 0 {
        assert(c.push((sig, id)).drop_first() =~= c.drop_first().push((sig, id)));
        lemma_cached_push(c.drop_first(), sig, id);
    } else {
        assert(c.push((sig, id))[0] == (sig, id));
    }
}

/// Synthesizing the same formatting twice gives one style: after a first
/// synthesis, which either finds its signature cached or caches it with
/// the new token, the signature is cached with the token that call
/// returned, so a second synthesis gives that token back (and, by
/// [`Lowering::synthesize`], records nothing).
pub proof fn law_synthesis_dedups(c: Seq<(Seq<u8>, Seq<char>)>, sig: Seq<u8>, id: Seq<char>)
    ensures
        cached(
            match cached(c, sig) {
                Some(_) => c,
                None => c.push((sig, id)),
            },
            sig,
        ) == Some(
            match cached(c, sig) {
                Some(x) => x,
                None => id,
            },
        ),
{
    if cached(c, sig) is None {
        lemma_cached_push(c, sig, id);
    }
}

impl Lowering {
    /// Synthesize (or reuse) a named style carrying direct formatting: a
    /// signature seen before gives back its style; otherwise a new
    /// `auto-pN`/`auto-cN` style is recorded and cached under the signature.
    pub fn synthesize(&mut self, collection: StyleCollection, based_on: Option<String>, props: Vec<StyleProp>) -> (id: String)
        requires
            old(self).wf(),
        ensures
            final(self).hyperlinks == old(self).hyperlinks,
            final(self).wf(),
            final(self).diagnostics == old(self).diagnostics,
            final(self).swatches == old(self).swatches,
            final(self).default_base == old(self).default_base,
            grows(style_ids(old(self).styles@), style_ids(final(self).styles@)),
            keeps(old(self).styles@, final(self).styles@),
            style_ids(final(self).styles@).contains(id@),
            match cached(cache_view(old(self).synth_cache@), signature_spec(collection, opt_chars(based_on), props_view(props@))) {
                Some(x) => id@ == x && final(self).styles == old(self).styles && final(self).synth_cache == old(self).synth_cache,
                None => cache_view(final(self).synth_cache@) == cache_view(old(self).synth_cache@).push(
                    (signature_spec(collection, opt_chars(based_on), props_view(props@)), id@),
                ) && style_ids(final(self).styles@).contains(id@),
            },
    {
        let sig = synth_signature(collection, &based_on, &props);
        if let Some(id) = find_cached(&self.synth_cache, &sig) {
            proof {
                let cv = cache_view(self.synth_cache@);
                lemma_cached_in(cv, ubytes(sig@));
                let k = choose|k: int| 0 <= k < cv.len() && cv[k].1 == id@;
                assert(cv[k].1 == self.synth_cache@[k].1@);
            }
            proof {
                lemma_keeps_refl(self.styles@);
            }
            return id;
        }
        self.synth_counter = self.synth_counter.wrapping_add(1);
        let n = int_string(self.synth_counter as i64);
        let mut id = match collection {
            StyleCollection::Paragraph => {
                let mut t = owned(PARA_PREFIX);
                append(&mut t, "auto-p");
                t
            },
            StyleCollection::Character => {
                let mut t = owned(CHAR_PREFIX);
                append(&mut t, "auto-c");
                t
            },
        };
        append(&mut id, n.as_str());
        let mut name = owned("docx direct format ");
        append(&mut name, n.as_str());
        proof {
            match collection {
                StyleCollection::Paragraph => assert(id@ == PARA_PREFIX@ + "auto-p"@ + n@),
                StyleCollection::Character => assert(id@ == CHAR_PREFIX@ + "auto-c"@ + n@),
            }
            assert(synth_token(id@));
        }
        let ghost s0 = self.styles@;
        self.record_style(LoweredStyle { id: id.clone(), name, collection, based_on, props });
        proof {
            let vs = styles_v(s0);
            lemma_style_from(vs, id@, 0);
            assert forall|k: int| 0 <= k < vs.len() implies style_view(#[trigger] self.styles@[k]) == vs[k] || synth_token(self.styles@[k].id@) by {
                assert(styles_v(self.styles@)[k] == style_view(self.styles@[k]));
            }
        }
        let ghost before = cache_view(self.synth_cache@);
        self.synth_cache.push((sig, id.clone()));
        assert(cache_view(self.synth_cache@) =~= before.push((ubytes(sig@), id@)));
        id
    }
}

/// The base64 (standard alphabet) character of a 6-bit value.
pub open spec fn b64_char(v: int) -> char {
    if v < 26 {
        (0x41 + v) as char
    } else if v < 52 {
        (0x61 + v - 26) as char
    } else if v < 62 {
        (0x30 + v - 52) as char
    } else if v == 62 {
        '+'
    } else {
        '/'
    }
}

/// Standard base64 with `=` padding.
pub open spec fn base64_spec(b: Seq<u8>) -> Seq<char>
    decreases b.len(),
{
    if b.len() == 0 {
        Seq::empty()
    } else if b.len() == 1 {
        seq![b64_char(b[0] as int / 4), b64_char((b[0] as int % 4) * 16), '=', '=']
    } else if b.len() == 2 {
        seq![b64_char(b[0] as int / 4), b64_char((b[0] as int % 4) * 16 + b[1] as int / 16), b64_char((b[1] as int % 16) * 4), '=']
    } else {
        seq![
            b64_char(b[0] as int / 4),
            b64_char((b[0] as int % 4) * 16 + b[1] as int / 16),
            b64_char((b[1] as int % 16) * 4 + b[2] as int / 64),
            b64_char(b[2] as int % 64),
        ] + base64_spec(b.subrange(3, b.len() as int))
    }
}

/// Calls `base64::engine::general_purpose::STANDARD.encode`: standard
/// alphabet, `=` padding.
#[verifier::external_body]
fn base64_encode(bytes: &[u8]) -> (r: String)
    ensures
        r@ == base64_spec(bytes@),
{
    base64::Engine::encode(&base64::engine::general_purpose::STANDARD, bytes)
}

/// Lower an image to an anchored placement carrying its media as a
/// self-contained `data:` URI.
pub fn lower_image(img: &crate::model::Image) -> (r: LoweredImage)
    ensures
        r.width_emu == img.width_emu,
        r.height_emu == img.height_emu,
        r.uri@ == "data:"@ + img.mime@ + ";base64,"@ + base64_spec(img.bytes@),
{
    let mut uri = owned("data:");
    append(&mut uri, img.mime.as_str());
    append(&mut uri, ";base64,");
    let b64 = base64_encode(img.bytes.as_slice());
    append(&mut uri, b64.as_str());
    LoweredImage { width_emu: img.width_emu, height_emu: img.height_emu, uri }
}

/// The texts of the runs that are lowered: the ones with text.
pub open spec fn nonempty_texts(runs: Seq<Run>) -> Seq<Seq<char>>
    decreases runs.len(),
{
    if runs.len() == 0 {
        Seq::empty()
    } else {
        nonempty_texts(runs.drop_last()) + if runs.last().text@.len() > 0 {
            seq![runs.last().text@]
        } else {
            Seq::empty()
        }
    }
}

/// How many runs carry an image.
pub open spec fn image_count(runs: Seq<Run>) -> nat
    decreases runs.len(),
{
    if runs.len() == 0 {
        0
    } else {
        image_count(runs.drop_last()) + if runs.last().image is Some {
            1nat
        } else {
            0nat
        }
    }
}

/// The texts of lowered runs.
pub open spec fn lowered_texts(runs: Seq<LoweredRun>) -> Seq<Seq<char>> {
    runs.map_values(|r: LoweredRun| r.text@)
}

/// Is some property's path `path`?
fn has_path(props: &Vec<StyleProp>, path: &str) -> (r: bool)
    ensures
        r == exists|i: int| 0 <= i < props@.len() && props@[i].path@ == path@,
{
    let mut i: usize = 0;
    while i < props.len()
        invariant
            i <= props@.len(),
            forall|k: int| 0 <= k < i ==> props@[k].path@ != path@,
        decreases props@.len() - i,
    {
        if crate::bytes::str_eq(props[i].path.as_str(), path) {
            return true;
        }
        i = i + 1;
    }
    false
}

/// Append an optional property when present.
fn push_opt(out: &mut Vec<StyleProp>, p: Option<StyleProp>)
    ensures
        props_view(final(out)@) == props_view(old(out)@) + match p {
            Some(x) => seq![prop_view(x)],
            None => Seq::empty(),
        },
{
    match p {
        Some(x) => push_prop(out, x),
        None => {
            assert(props_view(out@) =~= props_view(out@) + Seq::<PropView>::empty());
        },
    }
}

fn font_prop(r: &RunProps) -> (p: Option<StyleProp>)
    ensures
        match p {
            Some(x) => seq![prop_view(x)],
            None => Seq::<PropView>::empty(),
        } == prop_if(r.font is Some, "characterFontFamily"@, PropV::Text(opt_chars(r.font)->0)),
{
    match &r.font {
        Some(f) => Some(text_prop("characterFontFamily", f.clone())),
        None => None,
    }
}

fn style_prop(r: &RunProps) -> (p: Option<StyleProp>)
    ensures
        match p {
            Some(x) => seq![prop_view(x)],
            None => Seq::<PropView>::empty(),
        } == prop_if(r.bold is Some || r.italic is Some, "characterFontStyle"@, PropV::Text(font_style_word(
            r.bold == Some(true),
            r.italic == Some(true),
        ))),
{
    if r.bold.is_some() || r.italic.is_some() {
        let b = r.bold == Some(true);
        let i = r.italic == Some(true);
        let w = if b && i {
            "Bold Italic"
        } else if b {
            "Bold"
        } else if i {
            "Italic"
        } else {
            "Regular"
        };
        Some(text_prop("characterFontStyle", owned(w)))
    } else {
        None
    }
}

fn size_prop(r: &RunProps) -> (p: Option<StyleProp>)
    ensures
        match p {
            Some(x) => seq![prop_view(x)],
            None => Seq::<PropView>::empty(),
        } == prop_if(r.size_half_pts is Some, "characterFontSize"@, PropV::Length(r.size_half_pts->0 as int * 10)),
{
    match r.size_half_pts {
        Some(h) => Some(len_prop("characterFontSize", h as i64 * 10)),
        None => None,
    }
}

fn bool_opt_prop(path: &str, v: Option<bool>) -> (p: Option<StyleProp>)
    ensures
        match p {
            Some(x) => seq![prop_view(x)],
            None => Seq::<PropView>::empty(),
        } == prop_if(v is Some, path@, PropV::Bool(v->0)),
{
    match v {
        Some(b) => Some(bool_prop(path, b)),
        None => None,
    }
}

fn position_of(v: Option<VertAlign>) -> (p: Option<StyleProp>)
    ensures
        match p {
            Some(x) => seq![prop_view(x)],
            None => Seq::<PropView>::empty(),
        } == position_prop(v),
{
    match v {
        Some(VertAlign::Superscript) => Some(text_prop("characterPosition", owned("Superscript"))),
        Some(VertAlign::Subscript) => Some(text_prop("characterPosition", owned("Subscript"))),
        _ => None,
    }
}

fn case_of(r: &RunProps) -> (p: Option<StyleProp>)
    ensures
        match p {
            Some(x) => seq![prop_view(x)],
            None => Seq::<PropView>::empty(),
        } == case_prop(*r),
{
    if r.small_caps == Some(true) {
        Some(text_prop("characterCase", owned("SmallCaps")))
    } else if r.caps == Some(true) {
        Some(text_prop("characterCase", owned("AllCaps")))
    } else {
        None
    }
}

fn baseline_prop(r: &RunProps) -> (p: Option<StyleProp>)
    ensures
        match p {
            Some(x) => seq![prop_view(x)],
            None => Seq::<PropView>::empty(),
        } == prop_if(r.baseline_half_pts is Some, "characterBaselineShift"@, PropV::Length(r.baseline_half_pts->0 as int * 10)),
{
    match r.baseline_half_pts {
        Some(h) => Some(len_prop("characterBaselineShift", h as i64 * 10)),
        None => None,
    }
}

/// A style reference's token bytes: the prefix and the sanitized id.
pub open spec fn ref_token(prefix: &str, id: Seq<char>) -> Seq<u8> {
    sbytes(prefix) + crate::bindings::sanitize_bytes(ubytes(id))
}

/// The token bytes a style reference becomes, if there is one.
pub open spec fn ref_of(prefix: &str, id: Option<String>) -> Option<Seq<u8>> {
    match id {
        Some(i) => Some(ref_token(prefix, i@)),
        None => None,
    }
}

/// A run carries direct formatting, or is a link (which gets some).
pub open spec fn run_direct(r: Run) -> bool {
    run_props_spec(r.props).len() > 0 || r.hyperlink is Some
}

/// A lowered run and its source run: the same text; without direct
/// formatting the token of its Word style (or none); with it a style of the
/// table (the synthesized one).
pub open spec fn run_lowered(lr: LoweredRun, r: Run, styles: Seq<LoweredStyle>) -> bool {
    &&& lr.text@ == r.text@
    &&& !run_direct(r) ==> opt_bytes(lr.char_style_id) == ref_of(CHAR_PREFIX, r.style_id)
    &&& run_direct(r) ==> lr.char_style_id is Some && style_ids(styles).contains(opt_chars(lr.char_style_id)->0)
}

/// `n` more added to a count, saturating at `u32::MAX`.
pub open spec fn sat_add(a: u32, n: nat) -> u32 {
    if a + n > u32::MAX { u32::MAX } else { (a + n) as u32 }
}

/// The hyperlink runs among `runs`.
pub open spec fn links_in(runs: Seq<Run>) -> nat
    decreases runs.len(),
{
    if runs.len() == 0 {
        0
    } else {
        links_in(runs.drop_last()) + if runs.last().hyperlink is Some { 1nat } else { 0nat }
    }
}

/// The hyperlink runs that lowering a paragraph styles: those with text.
pub open spec fn para_links(p: Paragraph) -> nat {
    links_in(kept_runs(p.runs@))
}

/// The hyperlink runs styled in a cell's paragraphs.
pub open spec fn paras_links(ps: Seq<Paragraph>) -> nat
    decreases ps.len(),
{
    if ps.len() == 0 {
        0
    } else {
        paras_links(ps.drop_last()) + para_links(ps.last())
    }
}

/// The hyperlink runs styled in a row's cells (a vertical continuation is
/// not lowered).
pub open spec fn row_links(cells: Seq<crate::model::TableCell>) -> nat
    decreases cells.len(),
{
    if cells.len() == 0 {
        0
    } else {
        row_links(cells.drop_last()) + if cells.last().v_merge is Continue {
            0nat
        } else {
            paras_links(cells.last().paragraphs@)
        }
    }
}

/// The hyperlink runs styled in a table.
pub open spec fn table_links(rows: Seq<crate::model::TableRow>) -> nat
    decreases rows.len(),
{
    if rows.len() == 0 {
        0
    } else {
        table_links(rows.drop_last()) + row_links(rows.last().cells@)
    }
}

/// The hyperlink runs styled in the body's blocks.
pub open spec fn body_links(body: Seq<Block>) -> nat
    decreases body.len(),
{
    if body.len() == 0 {
        0
    } else {
        body_links(body.drop_last()) + match body.last() {
            Block::Paragraph(p) => para_links(p),
            Block::Table(t) => table_links(t.rows@),
        }
    }
}

proof fn lemma_sat_add(a: u32, n: nat, m: nat)
    ensures
        sat_add(sat_add(a, n), m) == sat_add(a, n + m),
{
}

/// The runs that are lowered: the ones with text.
pub open spec fn kept_runs(runs: Seq<Run>) -> Seq<Run>
    decreases runs.len(),
{
    if runs.len() == 0 {
        Seq::empty()
    } else {
        kept_runs(runs.drop_last()) + if runs.last().text@.len() > 0 {
            seq![runs.last()]
        } else {
            Seq::empty()
        }
    }
}

/// A paragraph carries direct formatting or a list.
pub open spec fn para_direct(p: Paragraph) -> bool {
    para_props_spec(p.props).len() > 0 || p.list is Some
}

/// A lowered paragraph and its source paragraph: without direct formatting
/// the token of its Word style, else the document-defaults base `base`; with
/// it a style of the table (the synthesized one); and each run with text
/// lowered in order (see [`run_lowered`]).
pub open spec fn para_lowered(lp: LoweredParagraph, p: Paragraph, base: Option<Seq<u8>>, styles: Seq<LoweredStyle>) -> bool {
    &&& !para_direct(p) ==> opt_bytes(lp.para_style_id) == match ref_of(PARA_PREFIX, p.style_id) {
        Some(t) => Some(t),
        None => base,
    }
    &&& para_direct(p) ==> lp.para_style_id is Some && style_ids(styles).contains(opt_chars(lp.para_style_id)->0)
    &&& lp.runs@.len() == kept_runs(p.runs@).len()
    &&& forall|k: int| 0 <= k < lp.runs@.len() ==> run_lowered(#[trigger] lp.runs@[k], kept_runs(p.runs@)[k], styles)
}

proof fn lemma_run_lowered_grows(lr: LoweredRun, r: Run, a: Seq<LoweredStyle>, b: Seq<LoweredStyle>)
    requires
        run_lowered(lr, r, a),
        grows(style_ids(a), style_ids(b)),
    ensures
        run_lowered(lr, r, b),
{
    if run_direct(r) {
        lemma_grows_contains(style_ids(a), style_ids(b), opt_chars(lr.char_style_id)->0);
    }
}

proof fn lemma_para_lowered_grows(lp: LoweredParagraph, p: Paragraph, base: Option<Seq<u8>>, a: Seq<LoweredStyle>, b: Seq<LoweredStyle>)
    requires
        para_lowered(lp, p, base, a),
        grows(style_ids(a), style_ids(b)),
    ensures
        para_lowered(lp, p, base, b),
{
    if para_direct(p) {
        lemma_grows_contains(style_ids(a), style_ids(b), opt_chars(lp.para_style_id)->0);
    }
    assert forall|k: int| 0 <= k < lp.runs@.len() implies run_lowered(#[trigger] lp.runs@[k], kept_runs(p.runs@)[k], b) by {
        lemma_run_lowered_grows(lp.runs@[k], kept_runs(p.runs@)[k], a, b);
    }
}

impl Lowering {
    /// The style properties of direct run formatting (see
    /// [`run_props_spec`]); a color registers its swatch.
    pub fn run_props(&mut self, r: &RunProps) -> (out: Vec<StyleProp>)
        requires
            old(self).wf(),
        ensures
            final(self).hyperlinks == old(self).hyperlinks,
            final(self).wf(),
            props_view(out@) == run_props_spec(*r),
            final(self).styles == old(self).styles,
            final(self).diagnostics == old(self).diagnostics,
            final(self).synth_cache == old(self).synth_cache,
            final(self).default_base == old(self).default_base,
            r.color matches Some(c) ==> swatch_ids(final(self).swatches@).contains(swatch_token(c@)),
            r.color is None ==> final(self).swatches == old(self).swatches,
            swatch_views(final(self).swatches@) == register_opt(swatch_views(old(self).swatches@), r.color),
            grows(swatch_ids(old(self).swatches@), swatch_ids(final(self).swatches@)),
    {
        let mut out: Vec<StyleProp> = Vec::new();
        assert(props_view(out@) =~= Seq::<PropView>::empty());
        push_opt(&mut out, font_prop(r));
        push_opt(&mut out, style_prop(r));
        push_opt(&mut out, size_prop(r));
        let ghost s3 = props_view(out@);
        let ghost sw0 = swatch_ids(self.swatches@);
        if let Some(hex) = &r.color {
            let id = self.swatch_for(hex.as_str());
            proof {
                if !sw0.contains(id@) {
                    assert(swatch_ids(self.swatches@).subrange(0, sw0.len() as int) =~= sw0);
                }
            }
            push_prop(&mut out, StyleProp { path: owned("characterFillColor"), value: PropValue::ColorRef(id) });
        }
        assert(props_view(out@) =~= s3 + prop_if(r.color is Some, "characterFillColor"@, PropV::ColorRef(swatch_token(opt_chars(r.color)->0))));
        push_opt(&mut out, bool_opt_prop("characterUnderline", r.underline));
        push_opt(&mut out, bool_opt_prop("characterStrikethru", r.strike));
        push_opt(&mut out, position_of(r.vert_align));
        push_opt(&mut out, case_of(r));
        push_opt(&mut out, baseline_prop(r));
        assert(props_view(out@) =~= run_props_spec(*r));
        out
    }

    /// Lower a run: its text, and the character style applied over it — its
    /// Word style when it has no direct formatting, else a synthesized style
    /// (a hyperlink run also gets blue and underline unless it sets them).
    pub fn lower_run(&mut self, r: &Run) -> (lr: LoweredRun)
        requires
            old(self).wf(),
        ensures
            final(self).wf(),
            final(self).diagnostics == old(self).diagnostics,
            run_lowered(lr, *r, final(self).styles@),
            final(self).hyperlinks == sat_add(old(self).hyperlinks, if r.hyperlink is Some { 1nat } else { 0nat }),
            final(self).default_base == old(self).default_base,
            grows(style_ids(old(self).styles@), style_ids(final(self).styles@)),
            keeps(old(self).styles@, final(self).styles@),

    {
        let base = match &r.style_id {
            Some(id) => Some(crate::bindings::style_token(CHAR_PREFIX, id.as_str())),
            None => None,
        };
        let mut props = self.run_props(&r.props);
        if r.hyperlink.is_some() {
            self.hyperlinks = self.hyperlinks.saturating_add(1);
            if !has_path(&props, "characterFillColor") {
                let swatch = self.swatch_for("0000FF");
                props.push(StyleProp { path: owned("characterFillColor"), value: PropValue::ColorRef(swatch) });
            }
            if !has_path(&props, "characterUnderline") {
                props.push(bool_prop("characterUnderline", true));
            }
            assert(props@.len() > 0);
        }
        let char_style_id = if props.len() == 0 {
            base
        } else {
            Some(self.synthesize(StyleCollection::Character, base, props))
        };
        LoweredRun { text: r.text.clone(), char_style_id }
    }

    /// Lower a paragraph: its style (its Word style, or the document defaults
    /// base, when it has no direct formatting or list; else a synthesized
    /// style), its runs with text, and its inline images.
    pub fn lower_paragraph(&mut self, p: &Paragraph, source_index: u32) -> (lp: LoweredParagraph)
        requires
            old(self).wf(),
        ensures
            final(self).wf(),
            final(self).diagnostics == old(self).diagnostics,
            lp.source_index == source_index,
            lowered_texts(lp.runs@) == nonempty_texts(p.runs@),
            para_lowered(lp, *p, opt_bytes(old(self).default_base), final(self).styles@),
            lp.images@.len() == image_count(p.runs@),
            final(self).hyperlinks == sat_add(old(self).hyperlinks, para_links(*p)),
            final(self).default_base == old(self).default_base,
            grows(style_ids(old(self).styles@), style_ids(final(self).styles@)),
            keeps(old(self).styles@, final(self).styles@),

    {
        let explicit = match &p.style_id {
            Some(id) => Some(crate::bindings::style_token(PARA_PREFIX, id.as_str())),
            None => None,
        };
        let mut props = para_props(&p.props);
        if let Some(list) = &p.list {
            let mut lp = list_props(list);
            assert(props_view(lp@).len() > 0);
            props.append(&mut lp);
        }
        assert(props@.len() > 0 <==> para_direct(*p));
        let para_style_id = if props.len() == 0 {
            self.para_base(explicit)
        } else {
            let base = self.para_base(explicit);
            Some(self.synthesize(StyleCollection::Paragraph, base, props))
        };
        let ghost dbase = opt_bytes(old(self).default_base);
        let mut runs: Vec<LoweredRun> = Vec::new();
        let mut images: Vec<LoweredImage> = Vec::new();
        let mut i: usize = 0;
        assert(p.runs@.take(0) =~= Seq::<Run>::empty());
        assert(lowered_texts(runs@) =~= Seq::<Seq<char>>::empty());
        while i < p.runs.len()
            invariant
                i <= p.runs@.len(),
                self.wf(),
                self.default_base == old(self).default_base,
                self.diagnostics == old(self).diagnostics,
                grows(style_ids(old(self).styles@), style_ids(self.styles@)),
                keeps(old(self).styles@, self.styles@),
                lowered_texts(runs@) == nonempty_texts(p.runs@.take(i as int)),
                images@.len() == image_count(p.runs@.take(i as int)),
                dbase == opt_bytes(old(self).default_base),
                !para_direct(*p) ==> opt_bytes(para_style_id) == match ref_of(PARA_PREFIX, p.style_id) {
                    Some(t) => Some(t),
                    None => dbase,
                },
                para_direct(*p) ==> para_style_id is Some && style_ids(self.styles@).contains(opt_chars(para_style_id)->0),
                runs@.len() == kept_runs(p.runs@.take(i as int)).len(),
                forall|k: int| 0 <= k < runs@.len() ==> run_lowered(#[trigger] runs@[k], kept_runs(p.runs@.take(i as int))[k], self.styles@),
                self.hyperlinks == sat_add(old(self).hyperlinks, links_in(kept_runs(p.runs@.take(i as int)))),
            decreases p.runs@.len() - i,
        {
            let r = &p.runs[i];
            assert(p.runs@.take(i + 1).drop_last() =~= p.runs@.take(i as int));
            assert(p.runs@.take(i + 1).last() == *r);
            let ghost before = lowered_texts(runs@);
            if r.text.as_str().as_bytes().len() > 0 {
                proof {
                    if r.text@.len() == 0 {
                        assert(ubytes(r.text@) =~= Seq::<u8>::empty());
                    }
                }
                let ghost styles0 = self.styles@;
                let ghost runs0 = runs@;
                let lr = self.lower_run(r);
                runs.push(lr);
                assert(lowered_texts(runs@) =~= before.push(r.text@));
                proof {
                    let kept0 = kept_runs(p.runs@.take(i as int));
                    assert(kept_runs(p.runs@.take(i + 1)) == kept0.push(*r));
                    assert(kept0.push(*r).drop_last() =~= kept0);
                    lemma_sat_add(old(self).hyperlinks, links_in(kept0), if r.hyperlink is Some { 1nat } else { 0nat });
                    assert forall|k: int| 0 <= k < runs@.len() implies run_lowered(#[trigger] runs@[k], kept_runs(p.runs@.take(i + 1))[k], self.styles@) by {
                        if k < runs0.len() {
                            assert(runs@[k] == runs0[k]);
                            lemma_run_lowered_grows(runs0[k], kept0[k], styles0, self.styles@);
                        }
                    }
                    if para_direct(*p) {
                        lemma_grows_contains(style_ids(styles0), style_ids(self.styles@), opt_chars(para_style_id)->0);
                    }
                }
            } else {
                proof {
                    if r.text@.len() > 0 {
                        assert(ubytes(r.text@).len() > 0);
                    }
                }
                assert(lowered_texts(runs@) =~= before);
                assert(kept_runs(p.runs@.take(i + 1)) =~= kept_runs(p.runs@.take(i as int)));
            }
            if let Some(img) = &r.image {
                images.push(lower_image(img));
            }
            i = i + 1;
        }
        assert(p.runs@.take(p.runs@.len() as int) =~= p.runs@);
        LoweredParagraph { para_style_id, runs, images, source_index }
    }
}

/// The source of each lowered cell of one row: (row, cell index), every
/// cell but the vertically merged continuations.
pub open spec fn row_sources(row: int, cells: Seq<crate::model::TableCell>) -> Seq<(int, int)>
    decreases cells.len(),
{
    if cells.len() == 0 {
        Seq::empty()
    } else {
        row_sources(row, cells.drop_last()) + if cells.last().v_merge is Continue {
            Seq::empty()
        } else {
            seq![(row, cells.len() - 1)]
        }
    }
}

/// A row's sources before cell `j` are no more than all of them.
proof fn lemma_row_sources_mono(row: int, cells: Seq<crate::model::TableCell>, j: int)
    requires
        0 <= j <= cells.len(),
    ensures
        row_sources(row, cells.take(j)).len() <= row_sources(row, cells).len(),
    decreases cells.len(),
{
    if j == cells.len() {
        assert(cells.take(j) =~= cells);
    } else {
        assert(cells.drop_last().take(j) =~= cells.take(j));
        lemma_row_sources_mono(row, cells.drop_last(), j);
    }
}

/// The sources of the first `r` rows are no more than all of them.
proof fn lemma_cell_sources_mono(rows: Seq<crate::model::TableRow>, r: int)
    requires
        0 <= r <= rows.len(),
    ensures
        cell_sources(rows.take(r)).len() <= cell_sources(rows).len(),
    decreases rows.len(),
{
    if r == rows.len() {
        assert(rows.take(r) =~= rows);
    } else {
        assert(rows.drop_last().take(r) =~= rows.take(r));
        lemma_cell_sources_mono(rows.drop_last(), r);
    }
}

/// The source of each lowered cell of a table, row by row.
pub open spec fn cell_sources(rows: Seq<crate::model::TableRow>) -> Seq<(int, int)>
    decreases rows.len(),
{
    if rows.len() == 0 {
        Seq::empty()
    } else {
        cell_sources(rows.drop_last()) + row_sources(rows.len() - 1, rows.last().cells@)
    }
}

/// The run texts of each lowered paragraph.
pub open spec fn para_shape(ps: Seq<LoweredParagraph>) -> Seq<Seq<Seq<char>>> {
    ps.map_values(|p: LoweredParagraph| lowered_texts(p.runs@))
}

/// The run texts of each model paragraph that lowering keeps.
pub open spec fn cell_text_shape(ps: Seq<Paragraph>) -> Seq<Seq<Seq<char>>> {
    ps.map_values(|p: Paragraph| nonempty_texts(p.runs@))
}

/// A cell's horizontal span (at least one).
pub open spec fn span_of(c: crate::model::TableCell) -> u32 {
    if c.grid_span > 1 { c.grid_span } else { 1 }
}

/// The grid column of cell `j` of a row: the spans of the cells before it,
/// summed (capped at `u32::MAX`).
pub open spec fn col_at(cells: Seq<crate::model::TableCell>, j: int) -> int
    decreases j,
{
    if j <= 0 {
        0
    } else {
        let c = col_at(cells, j - 1) + span_of(cells[j - 1]);
        if c > u32::MAX {
            u32::MAX as int
        } else {
            c
        }
    }
}

/// A lowered cell matches its source cell: same row, its grid column, same
/// span, same paragraphs and run texts.
pub open spec fn cell_matches(c: LoweredCell, rows: Seq<crate::model::TableRow>, src: (int, int)) -> bool {
    &&& c.row == src.0 as u32
    &&& c.col as int == col_at(rows[src.0].cells@, src.1)
    &&& c.col_span == span_of(rows[src.0].cells@[src.1])
    &&& para_shape(c.paragraphs@) == cell_text_shape(rows[src.0].cells@[src.1].paragraphs@)
}

/// The cells of a lowered table correspond one for one, in order, to the
/// source cells that are not vertical continuations, each with the row span
/// that vertical merging gives it (see [`merge_fold`]).
pub open spec fn cells_match(cells: Seq<LoweredCell>, rows: Seq<crate::model::TableRow>) -> bool {
    &&& cells.len() == cell_sources(rows).len()
    &&& forall|k: int| 0 <= k < cells.len() ==> #[trigger] cell_matches(cells[k], rows, cell_sources(rows)[k])
    &&& forall|k: int| 0 <= k < cells.len() ==> (#[trigger] cells[k]).row_span == span_values(rows)[k]
}

/// A lowered cell's paragraphs are its source cell's, each lowered as a
/// body paragraph is (source index zero; see [`para_lowered`]).
pub open spec fn cell_styled(c: LoweredCell, src: crate::model::TableCell, base: Option<Seq<u8>>, styles: Seq<LoweredStyle>) -> bool {
    &&& c.paragraphs@.len() == src.paragraphs@.len()
    &&& forall|q: int| 0 <= q < c.paragraphs@.len() ==> (#[trigger] c.paragraphs@[q]).source_index == 0 && para_lowered(
        c.paragraphs@[q],
        src.paragraphs@[q],
        base,
        styles,
    )
}

/// [`cell_styled`] of a lowered cell and the source cell at `s`.
pub open spec fn styled_at(c: LoweredCell, rows: Seq<crate::model::TableRow>, s: (int, int), base: Option<Seq<u8>>, styles: Seq<LoweredStyle>) -> bool {
    cell_styled(c, rows[s.0].cells@[s.1], base, styles)
}

/// Every cell of a lowered table is [`cell_styled`] against its source cell.
pub open spec fn cells_styled(cells: Seq<LoweredCell>, rows: Seq<crate::model::TableRow>, base: Option<Seq<u8>>, styles: Seq<LoweredStyle>) -> bool {
    forall|k: int| 0 <= k < cells.len() ==> #[trigger] styled_at(cells[k], rows, cell_sources(rows)[k], base, styles)
}

proof fn lemma_styled_grows(c: LoweredCell, rows: Seq<crate::model::TableRow>, s: (int, int), base: Option<Seq<u8>>, a: Seq<LoweredStyle>, b: Seq<LoweredStyle>)
    requires
        styled_at(c, rows, s, base, a),
        grows(style_ids(a), style_ids(b)),
    ensures
        styled_at(c, rows, s, base, b),
{
    let src = rows[s.0].cells@[s.1];
    assert forall|q: int| 0 <= q < c.paragraphs@.len() implies (#[trigger] c.paragraphs@[q]).source_index == 0 && para_lowered(
        c.paragraphs@[q],
        src.paragraphs@[q],
        base,
        b,
    ) by {
        lemma_para_lowered_grows(c.paragraphs@[q], src.paragraphs@[q], base, a, b);
    }
}

/// A source position lies in the given row and names a cell of it that is
/// not a vertical continuation.
pub open spec fn source_in_row(row: int, cells: Seq<crate::model::TableCell>, s: (int, int)) -> bool {
    &&& s.0 == row
    &&& 0 <= s.1 < cells.len()
    &&& !(cells[s.1].v_merge is Continue)
}

proof fn lemma_row_sources_bounds(row: int, cells: Seq<crate::model::TableCell>)
    ensures
        forall|k: int| 0 <= k < row_sources(row, cells).len() ==> source_in_row(row, cells, #[trigger] row_sources(row, cells)[k]),
    decreases cells.len(),
{
    if cells.len() > 0 {
        lemma_row_sources_bounds(row, cells.drop_last());
        let rs = row_sources(row, cells.drop_last());
        assert forall|k: int| 0 <= k < row_sources(row, cells).len() implies source_in_row(row, cells, #[trigger] row_sources(row, cells)[k]) by {
            if k < rs.len() {
                assert(row_sources(row, cells)[k] == rs[k]);
                assert(source_in_row(row, cells.drop_last(), rs[k]));
                assert(cells.drop_last()[rs[k].1] == cells[rs[k].1]);
            }
        }
    }
}

/// The grid cells of a row's first `j` cells, in order: each cell's grid
/// column and its vertical-merge role.
pub open spec fn row_items(cells: Seq<crate::model::TableCell>, j: int) -> Seq<(int, VMerge)>
    decreases j,
{
    if j <= 0 {
        Seq::empty()
    } else {
        row_items(cells, j - 1).push((col_at(cells, j - 1), cells[j - 1].v_merge))
    }
}

/// The grid cells of a table's first `r` rows, row by row.
pub open spec fn grid_items(rows: Seq<crate::model::TableRow>, r: int) -> Seq<(int, VMerge)>
    decreases r,
{
    if r <= 0 {
        Seq::empty()
    } else {
        grid_items(rows, r - 1) + row_items(rows[r - 1].cells@, rows[r - 1].cells@.len() as int)
    }
}

/// One more row of a vertical merge (saturating).
pub open spec fn span_inc(x: u32) -> u32 {
    if x == u32::MAX { x } else { (x + 1) as u32 }
}

/// Vertical merging over grid cells in document order: each cell that is
/// not a continuation becomes a lowered cell of row span one; a restart
/// cell becomes the anchor of its grid column, any other such cell clears
/// that column's anchor; a continuation cell adds one row to the span of
/// its column's anchor, when there is one. The result is the row spans of
/// the lowered cells, and the anchors left (grid column to lowered cell).
pub open spec fn merge_fold(items: Seq<(int, VMerge)>) -> (Seq<u32>, Map<int, int>)
    decreases items.len(),
{
    if items.len() == 0 {
        (Seq::empty(), Map::empty())
    } else {
        let prev = merge_fold(items.drop_last());
        let s = prev.0;
        let a = prev.1;
        let c = items.last().0;
        match items.last().1 {
            VMerge::Continue => if a.dom().contains(c) && 0 <= a[c] < s.len() {
                (s.update(a[c], span_inc(s[a[c]])), a)
            } else {
                (s, a)
            },
            VMerge::Restart => (s.push(1), a.insert(c, s.len() as int)),
            VMerge::Unmerged => (s.push(1), a.remove(c)),
        }
    }
}

/// The row spans of a table's lowered cells, in order.
pub open spec fn span_values(rows: Seq<crate::model::TableRow>) -> Seq<u32> {
    merge_fold(grid_items(rows, rows.len() as int)).0
}

/// The anchors of a list of (grid column, lowered cell) pairs; a later pair
/// for a column wins.
pub open spec fn anchor_map(v: Seq<(u32, usize)>) -> Map<int, int>
    decreases v.len(),
{
    if v.len() == 0 {
        Map::empty()
    } else {
        anchor_map(v.drop_last()).insert(v.last().0 as int, v.last().1 as int)
    }
}

/// The anchor of grid column `col`, searched from the latest pair back.
fn find_anchor(anchors: &Vec<(u32, usize)>, col: u32) -> (r: Option<usize>)
    ensures
        match r {
            Some(k) => k < anchors@.len() && anchor_map(anchors@).dom().contains(col as int) && anchor_map(anchors@)[col as int]
                == anchors@[k as int].1 as int,
            None => !anchor_map(anchors@).dom().contains(col as int),
        },
{
    let mut i: usize = anchors.len();
    assert(anchors@.take(i as int) =~= anchors@);
    while i > 0
        invariant
            i <= anchors@.len(),
            anchor_map(anchors@.take(i as int)).dom().contains(col as int) == anchor_map(anchors@).dom().contains(col as int),
            anchor_map(anchors@).dom().contains(col as int) ==> anchor_map(anchors@.take(i as int))[col as int] == anchor_map(
                anchors@,
            )[col as int],
        decreases i,
    {
        assert(anchors@.take(i as int).drop_last() =~= anchors@.take(i - 1));
        assert(anchors@.take(i as int).last() == anchors@[i - 1]);
        if anchors[i - 1].0 == col {
            return Some(i - 1);
        }
        i = i - 1;
    }
    assert(anchors@.take(0) =~= Seq::<(u32, usize)>::empty());
    None
}

/// Dropping a column's pairs drops that column's anchor.
proof fn lemma_anchor_drop(v: Seq<(u32, usize)>, w: Seq<(u32, usize)>, x: (u32, usize), c: int)
    requires
        anchor_map(w) == anchor_map(v).remove(c),
    ensures
        x.0 as int != c ==> anchor_map(w.push(x)) == anchor_map(v.push(x)).remove(c),
        x.0 as int == c ==> anchor_map(w) == anchor_map(v.push(x)).remove(c),
{
    assert(w.push(x).drop_last() =~= w);
    assert(v.push(x).drop_last() =~= v);
    if x.0 as int != c {
        assert(anchor_map(w.push(x)) =~= anchor_map(v.push(x)).remove(c));
    } else {
        assert(anchor_map(w) =~= anchor_map(v.push(x)).remove(c));
    }
}

/// The vertical-merge row spans of the lowered cells, in order (see
/// [`merge_fold`]).
pub fn row_spans(rows: &Vec<crate::model::TableRow>) -> (spans: Vec<u32>)
    ensures
        spans@.len() == cell_sources(rows@).len(),
        spans@ == span_values(rows@),
{
    let mut spans: Vec<u32> = Vec::new();
    let mut anchors: Vec<(u32, usize)> = Vec::new();
    let mut r: usize = 0;
    assert(rows@.take(0) =~= Seq::<crate::model::TableRow>::empty());
    while r < rows.len()
        invariant
            r <= rows@.len(),
            spans@.len() == cell_sources(rows@.take(r as int)).len(),
            spans@ == merge_fold(grid_items(rows@, r as int)).0,
            anchor_map(anchors@) == merge_fold(grid_items(rows@, r as int)).1,
            forall|c: int| #[trigger] anchor_map(anchors@).dom().contains(c) ==> 0 <= anchor_map(anchors@)[c] < spans@.len(),
        decreases rows@.len() - r,
    {
        assert(rows@.take(r + 1).drop_last() =~= rows@.take(r as int));
        let cells = &rows[r].cells;
        let ghost base = spans@.len();
        let ghost g = grid_items(rows@, r as int);
        let mut col: u32 = 0;
        let mut j: usize = 0;
        assert(cells@.take(0) =~= Seq::<crate::model::TableCell>::empty());
        assert(g + row_items(cells@, 0) =~= g);
        while j < cells.len()
            invariant
                j <= cells@.len(),
                r < rows@.len(),
                *cells == rows@[r as int].cells,
                g == grid_items(rows@, r as int),
                col as int == col_at(cells@, j as int),
                spans@.len() == base + row_sources(r as int, cells@.take(j as int)).len(),
                spans@ == merge_fold(g + row_items(cells@, j as int)).0,
                anchor_map(anchors@) == merge_fold(g + row_items(cells@, j as int)).1,
                forall|c: int| #[trigger] anchor_map(anchors@).dom().contains(c) ==> 0 <= anchor_map(anchors@)[c] < spans@.len(),
            decreases cells@.len() - j,
        {
            assert(cells@.take(j + 1).drop_last() =~= cells@.take(j as int));
            let ghost cur = g + row_items(cells@, j as int);
            let ghost item = (col as int, cells@[j as int].v_merge);
            assert((g + row_items(cells@, j + 1)).drop_last() =~= cur);
            assert((g + row_items(cells@, j + 1)).last() == item);
            let ghost am = anchor_map(anchors@);
            let c = &cells[j];
            let span = if c.grid_span > 1 { c.grid_span } else { 1 };
            let cont = match c.v_merge {
                VMerge::Continue => true,
                _ => false,
            };
            if cont {
                match find_anchor(&anchors, col) {
                    Some(a) => {
                        let idx = anchors[a].1;
                        let v = spans[idx];
                        spans.set(idx, v.saturating_add(1));
                    },
                    None => {},
                }
            } else {
                let idx = spans.len();
                spans.push(1);
                let restart = match c.v_merge {
                    VMerge::Restart => true,
                    _ => false,
                };
                let mut kept: Vec<(u32, usize)> = Vec::new();
                let mut a: usize = 0;
                assert(anchors@.take(0) =~= Seq::<(u32, usize)>::empty());
                assert(anchor_map(kept@) =~= anchor_map(anchors@.take(0)).remove(col as int));
                while a < anchors.len()
                    invariant
                        a <= anchors@.len(),
                        anchor_map(kept@) == anchor_map(anchors@.take(a as int)).remove(col as int),
                    decreases anchors@.len() - a,
                {
                    proof {
                        assert(anchors@.take(a + 1) =~= anchors@.take(a as int).push(anchors@[a as int]));
                        lemma_anchor_drop(anchors@.take(a as int), kept@, anchors@[a as int], col as int);
                    }
                    if anchors[a].0 != col {
                        kept.push(anchors[a]);
                    }
                    a = a + 1;
                }
                assert(anchors@.take(anchors@.len() as int) =~= anchors@);
                if restart {
                    let ghost k0 = kept@;
                    kept.push((col, idx));
                    assert(kept@.drop_last() =~= k0);
                    assert(anchor_map(kept@) =~= am.insert(col as int, idx as int));
                } else {
                    assert(anchor_map(kept@) =~= am.remove(col as int));
                }
                anchors = kept;
            }
            proof {
                assert(row_sources(r as int, cells@.take(j + 1)).len() == row_sources(r as int, cells@.take(j as int)).len() + if cont {
                    0int
                } else {
                    1int
                });
            }
            col = col.saturating_add(span);
            j = j + 1;
        }
        assert(cells@.take(cells@.len() as int) =~= cells@);
        assert(grid_items(rows@, r + 1) == g + row_items(cells@, cells@.len() as int));
        r = r + 1;
    }
    assert(rows@.take(rows@.len() as int) =~= rows@);
    spans
}

/// The column count of a table: its grid, else the widest row by spans.
pub open spec fn row_width(cells: Seq<crate::model::TableCell>) -> int
    decreases cells.len(),
{
    if cells.len() == 0 {
        0
    } else {
        row_width(cells.drop_last()) + span_of(cells.last())
    }
}

/// The widest row, counting spans (one when there are no rows).
pub open spec fn widest(rows: Seq<crate::model::TableRow>) -> int
    decreases rows.len(),
{
    if rows.len() == 0 {
        0
    } else {
        let w = row_width(rows.last().cells@);
        let rest = widest(rows.drop_last());
        if w > rest { w } else { rest }
    }
}

/// The column count of a table, capped at `u32::MAX`.
pub open spec fn cols_spec(t: Table) -> int {
    if t.column_widths@.len() > 0 {
        t.column_widths@.len() as u32 as int
    } else if t.rows@.len() == 0 {
        1
    } else {
        let w = widest(t.rows@);
        if w > u32::MAX { u32::MAX as int } else { w }
    }
}

proof fn lemma_row_width_nonneg(cells: Seq<crate::model::TableCell>)
    ensures
        row_width(cells) >= 0,
    decreases cells.len(),
{
    if cells.len() > 0 {
        lemma_row_width_nonneg(cells.drop_last());
    }
}

/// The column count (see [`cols_spec`]).
fn table_cols(t: &Table) -> (n: u32)
    ensures
        n as int == cols_spec(*t),
{
    if t.column_widths.len() > 0 {
        #[verifier::truncate]
        let n = t.column_widths.len() as u32;
        return n;
    }
    if t.rows.len() == 0 {
        return 1;
    }
    let mut best: u32 = 0;
    let mut r: usize = 0;
    assert(t.rows@.take(0) =~= Seq::<crate::model::TableRow>::empty());
    while r < t.rows.len()
        invariant
            r <= t.rows@.len(),
            best as int == if widest(t.rows@.take(r as int)) > u32::MAX { u32::MAX as int } else { widest(t.rows@.take(r as int)) },
        decreases t.rows@.len() - r,
    {
        assert(t.rows@.take(r + 1).drop_last() =~= t.rows@.take(r as int));
        let cells = &t.rows[r].cells;
        let mut w: u32 = 0;
        let mut j: usize = 0;
        assert(cells@.take(0) =~= Seq::<crate::model::TableCell>::empty());
        while j < cells.len()
            invariant
                j <= cells@.len(),
                w as int == if row_width(cells@.take(j as int)) > u32::MAX { u32::MAX as int } else { row_width(cells@.take(j as int)) },
            decreases cells@.len() - j,
        {
            assert(cells@.take(j + 1).drop_last() =~= cells@.take(j as int));
            proof { lemma_row_width_nonneg(cells@.take(j as int)); }
            let span = if cells[j].grid_span > 1 { cells[j].grid_span } else { 1 };
            w = w.saturating_add(span);
            j = j + 1;
        }
        assert(cells@.take(cells@.len() as int) =~= cells@);
        if w > best {
            best = w;
        }
        r = r + 1;
    }
    assert(t.rows@.take(t.rows@.len() as int) =~= t.rows@);
    best
}

impl Lowering {
    /// Lower a table: the grid size, the column widths, and the cells that
    /// are not absorbed by a vertical merge (each at its grid position with
    /// its spans).
    pub fn lower_table(&mut self, t: &Table) -> (lt: LoweredTable)
        requires
            old(self).wf(),
        ensures
            final(self).wf(),
            final(self).diagnostics == old(self).diagnostics,
            lt.rows == t.rows@.len() as u32,
            lt.cols as int == cols_spec(*t),
            lt.column_widths@ == t.column_widths@,
            cells_match(lt.cells@, t.rows@),
            cells_styled(lt.cells@, t.rows@, opt_bytes(old(self).default_base), final(self).styles@),
            final(self).hyperlinks == sat_add(old(self).hyperlinks, table_links(t.rows@)),
            final(self).default_base == old(self).default_base,
            grows(style_ids(old(self).styles@), style_ids(final(self).styles@)),
            keeps(old(self).styles@, final(self).styles@),

    {
        let ghost dbase = opt_bytes(old(self).default_base);
        let cols = table_cols(t);
        let spans = row_spans(&t.rows);
        let mut widths: Vec<i32> = Vec::new();
        let mut w: usize = 0;
        while w < t.column_widths.len()
            invariant
                w <= t.column_widths@.len(),
                widths@ == t.column_widths@.take(w as int),
            decreases t.column_widths@.len() - w,
        {
            widths.push(t.column_widths[w]);
            assert(t.column_widths@.take(w + 1) =~= t.column_widths@.take(w as int).push(t.column_widths@[w as int]));
            w = w + 1;
        }
        assert(t.column_widths@.take(t.column_widths@.len() as int) =~= t.column_widths@);
        let mut cells: Vec<LoweredCell> = Vec::new();
        let mut r: usize = 0;
        assert(t.rows@.take(0) =~= Seq::<crate::model::TableRow>::empty());
        while r < t.rows.len()
            invariant
                r <= t.rows@.len(),
                self.wf(),
                self.default_base == old(self).default_base,
                self.diagnostics == old(self).diagnostics,
                grows(style_ids(old(self).styles@), style_ids(self.styles@)),
                keeps(old(self).styles@, self.styles@),
                spans@.len() == cell_sources(t.rows@).len(),
                spans@ == span_values(t.rows@),
                forall|k: int| 0 <= k < cells@.len() ==> (#[trigger] cells@[k]).row_span == spans@[k],
                cells@.len() == cell_sources(t.rows@.take(r as int)).len(),
                forall|k: int| 0 <= k < cells@.len() ==> #[trigger] cell_matches(cells@[k], t.rows@, cell_sources(t.rows@.take(r as int))[k]),
                dbase == opt_bytes(old(self).default_base),
                forall|k: int| 0 <= k < cells@.len() ==> #[trigger] styled_at(cells@[k], t.rows@, cell_sources(t.rows@.take(r as int))[k], dbase, self.styles@),
                self.hyperlinks == sat_add(old(self).hyperlinks, table_links(t.rows@.take(r as int))),
            decreases t.rows@.len() - r,
        {
            assert(t.rows@.take(r + 1).drop_last() =~= t.rows@.take(r as int));
            let row = &t.rows[r];
            let mut col: u32 = 0;
            let mut j: usize = 0;
            let ghost base = cells@;
            let ghost bs = cell_sources(t.rows@.take(r as int));
            assert(row.cells@.take(0) =~= Seq::<crate::model::TableCell>::empty());
            proof {
                lemma_cell_sources_mono(t.rows@, r + 1);
                assert(t.rows@.take(r + 1).last() == *row);
                assert(cell_sources(t.rows@.take(r + 1)) == bs + row_sources(r as int, row.cells@));
            }
            while j < row.cells.len()
                invariant
                    j <= row.cells@.len(),
                    r < t.rows@.len(),
                    *row == t.rows@[r as int],
                    self.wf(),
                    self.default_base == old(self).default_base,
                    self.diagnostics == old(self).diagnostics,
                    grows(style_ids(old(self).styles@), style_ids(self.styles@)),
                    keeps(old(self).styles@, self.styles@),
                    spans@.len() == cell_sources(t.rows@).len(),
                    spans@ == span_values(t.rows@),
                    forall|k: int| 0 <= k < cells@.len() ==> (#[trigger] cells@[k]).row_span == spans@[k],
                    bs.len() + row_sources(r as int, row.cells@).len() <= spans@.len(),
                    col as int == col_at(row.cells@, j as int),
                    base.len() == bs.len(),
                    forall|k: int| 0 <= k < base.len() ==> #[trigger] cell_matches(base[k], t.rows@, bs[k]),
                    cells@.len() == base.len() + row_sources(r as int, row.cells@.take(j as int)).len(),
                    forall|k: int| 0 <= k < base.len() ==> #[trigger] cells@[k] == base[k],
                    forall|k: int| 0 <= k < row_sources(r as int, row.cells@.take(j as int)).len() ==> #[trigger] cell_matches(
                        cells@[base.len() + k],
                        t.rows@,
                        row_sources(r as int, row.cells@.take(j as int))[k],
                    ),
                    dbase == opt_bytes(old(self).default_base),
                    forall|k: int| 0 <= k < base.len() ==> #[trigger] styled_at(base[k], t.rows@, bs[k], dbase, self.styles@),
                    forall|k: int| 0 <= k < row_sources(r as int, row.cells@.take(j as int)).len() ==> #[trigger] styled_at(
                        cells@[base.len() + k],
                        t.rows@,
                        row_sources(r as int, row.cells@.take(j as int))[k],
                        dbase,
                        self.styles@,
                    ),
                    self.hyperlinks == sat_add(old(self).hyperlinks, table_links(t.rows@.take(r as int)) + row_links(row.cells@.take(j as int))),
                decreases row.cells@.len() - j,
            {
                assert(row.cells@.take(j + 1).drop_last() =~= row.cells@.take(j as int));
                let c = &row.cells[j];
                let span = if c.grid_span > 1 { c.grid_span } else { 1 };
                let cont = match c.v_merge {
                    VMerge::Continue => true,
                    _ => false,
                };
                let ghost prev_cells = cells@;
                let ghost st0 = self.styles@;
                let ghost h0 = self.hyperlinks;
                if !cont {
                    let mut paras: Vec<LoweredParagraph> = Vec::new();
                    let mut q: usize = 0;
                    while q < c.paragraphs.len()
                        invariant
                            q <= c.paragraphs@.len(),
                            self.wf(),
                            self.default_base == old(self).default_base,
                            self.diagnostics == old(self).diagnostics,
                            grows(style_ids(old(self).styles@), style_ids(self.styles@)),
                            keeps(old(self).styles@, self.styles@),
                            grows(style_ids(st0), style_ids(self.styles@)),
                            keeps(st0, self.styles@),
                            dbase == opt_bytes(old(self).default_base),
                            para_shape(paras@) == cell_text_shape(c.paragraphs@.take(q as int)),
                            paras@.len() == q,
                            self.hyperlinks == sat_add(h0, paras_links(c.paragraphs@.take(q as int))),
                            forall|x: int| 0 <= x < q ==> (#[trigger] paras@[x]).source_index == 0 && para_lowered(
                                paras@[x],
                                c.paragraphs@[x],
                                dbase,
                                self.styles@,
                            ),
                        decreases c.paragraphs@.len() - q,
                    {
                        let ghost sb = self.styles@;
                        let ghost hb = self.hyperlinks;
                        let lp = self.lower_paragraph(&c.paragraphs[q], 0);
                        proof {
                            assert(c.paragraphs@.take(q + 1).drop_last() =~= c.paragraphs@.take(q as int));
                            lemma_sat_add(h0, paras_links(c.paragraphs@.take(q as int)), para_links(c.paragraphs@[q as int]));
                        }
                        let ghost before = paras@;
                        paras.push(lp);
                        proof {
                            assert forall|x: int| 0 <= x < q + 1 implies (#[trigger] paras@[x]).source_index == 0 && para_lowered(
                                paras@[x],
                                c.paragraphs@[x],
                                dbase,
                                self.styles@,
                            ) by {
                                if x < q {
                                    assert(paras@[x] == before[x]);
                                    lemma_para_lowered_grows(before[x], c.paragraphs@[x], dbase, sb, self.styles@);
                                }
                            }
                        }
                        assert(c.paragraphs@.take(q + 1) =~= c.paragraphs@.take(q as int).push(c.paragraphs@[q as int]));
                        assert(para_shape(paras@) =~= para_shape(before).push(lowered_texts(lp.runs@)));
                        assert(cell_text_shape(c.paragraphs@.take(q + 1)) =~= cell_text_shape(c.paragraphs@.take(q as int)).push(nonempty_texts(c.paragraphs@[q as int].runs@)));
                        q = q + 1;
                    }
                    assert(c.paragraphs@.take(c.paragraphs@.len() as int) =~= c.paragraphs@);
                    proof {
                        lemma_sat_add(
                            old(self).hyperlinks,
                            table_links(t.rows@.take(r as int)) + row_links(row.cells@.take(j as int)),
                            paras_links(c.paragraphs@),
                        );
                        let prev = row_sources(r as int, row.cells@.take(j as int));
                        assert forall|x: int| 0 <= x < base.len() implies #[trigger] styled_at(base[x], t.rows@, bs[x], dbase, self.styles@) by {
                            lemma_styled_grows(base[x], t.rows@, bs[x], dbase, st0, self.styles@);
                        }
                        assert forall|x: int| 0 <= x < prev.len() implies #[trigger] styled_at(cells@[base.len() + x], t.rows@, prev[x], dbase, self.styles@) by {
                            lemma_styled_grows(cells@[base.len() + x], t.rows@, prev[x], dbase, st0, self.styles@);
                        }
                    }
                    let k = cells.len();
                    proof {
                        lemma_row_sources_mono(r as int, row.cells@, j + 1);
                        assert(row.cells@.take(j + 1).last() == row.cells@[j as int]);
                        assert(!(row.cells@[j as int].v_merge is Continue));
                        assert(row_sources(r as int, row.cells@.take(j + 1)).len() == row_sources(r as int, row.cells@.take(j as int)).len() + 1);
                        assert(k == base.len() + row_sources(r as int, row.cells@.take(j as int)).len());
                    }
                    let rs = if k < spans.len() { spans[k] } else { 1 };
                    #[verifier::truncate]
                    let row_ix = r as u32;
                    let ghost before_push = cells@;
                    cells.push(LoweredCell { row: row_ix, col, row_span: rs, col_span: span, paragraphs: paras });
                    proof {
                        assert(k < spans@.len());
                        assert forall|q: int| 0 <= q < cells@.len() implies (#[trigger] cells@[q]).row_span == spans@[q] by {
                            if q < k {
                                assert(cells@[q] == before_push[q]);
                            }
                        }
                    }
                }
                proof {
                    let prev = row_sources(r as int, row.cells@.take(j as int));
                    let now = row_sources(r as int, row.cells@.take(j + 1));
                    if !cont {
                        assert(now == prev + seq![(r as int, j as int)]);
                        assert(now[prev.len() as int] == (r as int, j as int));
                        assert(cell_matches(cells@[(base.len() + prev.len()) as int], t.rows@, (r as int, j as int)));
                        assert(styled_at(cells@[(base.len() + prev.len()) as int], t.rows@, (r as int, j as int), dbase, self.styles@));
                    } else {
                        assert(now =~= prev);
                    }
                    assert forall|k: int| 0 <= k < now.len() implies #[trigger] cell_matches(cells@[base.len() + k], t.rows@, now[k]) by {
                        if k < prev.len() {
                            assert(now[k] == prev[k]);
                            assert(cells@[base.len() + k] == prev_cells[base.len() + k]);
                        }
                    }
                    assert forall|k: int| 0 <= k < now.len() implies #[trigger] styled_at(cells@[base.len() + k], t.rows@, now[k], dbase, self.styles@) by {
                        if k < prev.len() {
                            assert(now[k] == prev[k]);
                            assert(cells@[base.len() + k] == prev_cells[base.len() + k]);
                        }
                    }
                    assert forall|k: int| 0 <= k < base.len() implies #[trigger] cells@[k] == base[k] by {
                        assert(cells@[k] == prev_cells[k]);
                    }
                }
                col = col.saturating_add(span);
                j = j + 1;
            }
            assert(row.cells@.take(row.cells@.len() as int) =~= row.cells@);
            proof {
                let rows_r = t.rows@.take(r + 1);
                assert(table_links(rows_r) == table_links(t.rows@.take(r as int)) + row_links(row.cells@));
                assert(rows_r.last() == *row);
                assert(cell_sources(rows_r) == bs + row_sources(r as int, row.cells@));
                assert forall|k: int| 0 <= k < cells@.len() implies #[trigger] cell_matches(cells@[k], t.rows@, cell_sources(rows_r)[k]) by {
                    if k < base.len() {
                        assert(cell_sources(rows_r)[k] == bs[k]);
                        assert(cells@[k] == base[k]);
                    } else {
                        assert(cell_sources(rows_r)[k] == row_sources(r as int, row.cells@)[k - base.len()]);
                        assert(cells@[base.len() + (k - base.len())] == cells@[k]);
                    }
                }
                assert forall|k: int| 0 <= k < cells@.len() implies #[trigger] styled_at(cells@[k], t.rows@, cell_sources(rows_r)[k], dbase, self.styles@) by {
                    if k < base.len() {
                        assert(cell_sources(rows_r)[k] == bs[k]);
                        assert(cells@[k] == base[k]);
                    } else {
                        assert(cell_sources(rows_r)[k] == row_sources(r as int, row.cells@)[k - base.len()]);
                        assert(cells@[base.len() + (k - base.len())] == cells@[k]);
                    }
                }
            }
            r = r + 1;
        }
        assert(t.rows@.take(t.rows@.len() as int) =~= t.rows@);
        #[verifier::truncate]
        let nrows = t.rows.len() as u32;
        LoweredTable { rows: nrows, cols, column_widths: widths, cells }
    }
}

proof fn lemma_cell_sources_rows(rows: Seq<crate::model::TableRow>)
    ensures
        forall|k: int| 0 <= k < cell_sources(rows).len() ==> 0 <= #[trigger] cell_sources(rows)[k].0 < rows.len(),
    decreases rows.len(),
{
    if rows.len() > 0 {
        lemma_cell_sources_rows(rows.drop_last());
        lemma_row_sources_bounds(rows.len() - 1, rows.last().cells@);
        let a = cell_sources(rows.drop_last());
        assert forall|k: int| 0 <= k < cell_sources(rows).len() implies 0 <= #[trigger] cell_sources(rows)[k].0 < rows.len() by {
            if k < a.len() {
                assert(cell_sources(rows)[k] == a[k]);
            } else {
                assert(cell_sources(rows)[k] == row_sources(rows.len() - 1, rows.last().cells@)[k - a.len()]);
            }
        }
    }
}


/// A lowered tab stop, copied.
fn copy_tab(t: &LoweredTabStop) -> (r: LoweredTabStop)
    ensures
        tab_view(r) == tab_view(*t),
{
    LoweredTabStop {
        position: t.position,
        alignment: copy_opt(&t.alignment),
        alignment_character: copy_opt(&t.alignment_character),
        leader: copy_opt(&t.leader),
    }
}

/// A property value, copied.
fn copy_value(v: &PropValue) -> (r: PropValue)
    ensures
        value_view(r) == value_view(*v),
{
    match v {
        PropValue::Text(s) => PropValue::Text(s.clone()),
        PropValue::Length(l) => PropValue::Length(*l),
        PropValue::Bool(b) => PropValue::Bool(*b),
        PropValue::ColorRef(c) => PropValue::ColorRef(c.clone()),
        PropValue::TabStops(ts) => {
            let mut out: Vec<LoweredTabStop> = Vec::new();
            let mut i: usize = 0;
            while i < ts.len()
                invariant
                    i <= ts@.len(),
                    out@.map_values(|t: LoweredTabStop| tab_view(t)) == ts@.take(i as int).map_values(|t: LoweredTabStop| tab_view(t)),
                decreases ts@.len() - i,
            {
                let ghost before = out@;
                out.push(copy_tab(&ts[i]));
                assert(ts@.take(i + 1) =~= ts@.take(i as int).push(ts@[i as int]));
                assert(out@.map_values(|t: LoweredTabStop| tab_view(t)) =~= before.map_values(|t: LoweredTabStop| tab_view(t)).push(tab_view(ts@[i as int])));
                i = i + 1;
            }
            assert(ts@.take(ts@.len() as int) =~= ts@);
            PropValue::TabStops(out)
        },
    }
}

/// Style properties, copied.
fn copy_props(v: &Vec<StyleProp>) -> (r: Vec<StyleProp>)
    ensures
        props_view(r@) == props_view(v@),
{
    let mut out: Vec<StyleProp> = Vec::new();
    let mut i: usize = 0;
    while i < v.len()
        invariant
            i <= v@.len(),
            props_view(out@) == props_view(v@.take(i as int)),
        decreases v@.len() - i,
    {
        let p = StyleProp { path: v[i].path.clone(), value: copy_value(&v[i].value) };
        push_prop(&mut out, p);
        assert(v@.take(i + 1) =~= v@.take(i as int).push(v@[i as int]));
        assert(props_view(v@.take(i + 1)) =~= props_view(v@.take(i as int)).push(prop_view(v@[i as int])));
        i = i + 1;
    }
    assert(v@.take(v@.len() as int) =~= v@);
    out
}

/// A lowered style as a value: token, name, collection, parent token and
/// properties.
pub open spec fn style_view(s: LoweredStyle) -> (Seq<char>, Seq<char>, StyleCollection, Option<Seq<char>>, Seq<PropView>) {
    (s.id@, s.name@, s.collection, opt_chars(s.based_on), props_view(s.props@))
}

/// A lowered style, copied.
pub(crate) fn copy_style(s: &LoweredStyle) -> (r: LoweredStyle)
    ensures
        style_view(r) == style_view(*s),
{
    LoweredStyle {
        id: s.id.clone(),
        name: s.name.clone(),
        collection: s.collection,
        based_on: copy_opt(&s.based_on),
        props: copy_props(&s.props),
    }
}

/// `ps` gives, for each style, the index of its `basedOn` parent when that
/// parent is in the table.
pub open spec fn parents_of(styles: Seq<LoweredStyle>, ps: Seq<Option<usize>>) -> bool {
    &&& ps.len() == styles.len()
    &&& forall|i: int| 0 <= i < ps.len() ==> match #[trigger] ps[i] {
        Some(p) => p < styles.len() && styles[i].based_on is Some && style_ids(styles)[p as int] == opt_chars(styles[i].based_on)->0,
        None => styles[i].based_on is None || !style_ids(styles).contains(opt_chars(styles[i].based_on)->0),
    }
}

/// The parent index of each style (see [`parents_of`]).
fn parent_indices(styles: &Vec<LoweredStyle>) -> (ps: Vec<Option<usize>>)
    ensures
        parents_of(styles@, ps@),
{
    let mut ps: Vec<Option<usize>> = Vec::new();
    let mut i: usize = 0;
    while i < styles.len()
        invariant
            i <= styles@.len(),
            ps@.len() == i,
            forall|k: int| 0 <= k < i ==> match #[trigger] ps@[k] {
                Some(p) => p < styles@.len() && styles@[k].based_on is Some && style_ids(styles@)[p as int] == opt_chars(styles@[k].based_on)->0,
                None => styles@[k].based_on is None || !style_ids(styles@).contains(opt_chars(styles@[k].based_on)->0),
            },
        decreases styles@.len() - i,
    {
        let p = match &styles[i].based_on {
            Some(b) => style_index(styles, b.as_str()),
            None => None,
        };
        ps.push(p);
        i = i + 1;
    }
    ps
}

/// The state of the parent-first walk: the emitted flags, the emitted order
/// (distinct indices, all flagged), and the styles on the walk's stack
/// (flagged, not yet emitted).
pub open spec fn walk_inv(n: int, emitted: Seq<bool>, order: Seq<usize>, stack: Set<int>) -> bool {
    &&& emitted.len() == n
    &&& forall|k: int| 0 <= k < order.len() ==> (#[trigger] order[k]) < n && emitted[order[k] as int] && !stack.contains(order[k] as int)
    &&& forall|a: int, b: int| 0 <= a < b < order.len() ==> order[a] != order[b]
    &&& forall|x: int| 0 <= x < n && #[trigger] emitted[x] ==> order.contains(x as usize) || stack.contains(x)
    &&& forall|x: int| #[trigger] stack.contains(x) ==> 0 <= x < n && emitted[x]
}

/// `a` is a prefix of `b`.
pub open spec fn prefix_of<T>(a: Seq<T>, b: Seq<T>) -> bool {
    &&& a.len() <= b.len()
    &&& forall|i: int| 0 <= i < a.len() ==> a[i] == b[i]
}

/// The style `n` steps up the `basedOn` chain from `x`, if the chain is that
/// long.
pub open spec fn anc(ps: Seq<Option<usize>>, x: int, n: nat) -> Option<int>
    decreases n,
{
    if n == 0 {
        Some(x)
    } else {
        match ps[x] {
            Some(p) => anc(ps, p as int, (n - 1) as nat),
            None => None,
        }
    }
}

/// The `basedOn` chain from `i` ends within `f` steps.
pub open spec fn pchain(ps: Seq<Option<usize>>, i: int, f: int) -> bool
    decreases f,
{
    match ps[i] {
        Some(p) => if f > 0 { pchain(ps, p as int, f - 1) } else { false },
        None => true,
    }
}

/// Every index in `order` with a parent comes after that parent.
pub open spec fn parents_first(ps: Seq<Option<usize>>, order: Seq<usize>) -> bool {
    forall|k: int| 0 <= k < order.len() && (#[trigger] ps[order[k] as int]) is Some ==> exists|k2: int| 0 <= k2 < k && order[k2] == ps[order[k] as int]->0
}

proof fn lemma_anc_succ(ps: Seq<Option<usize>>, x: int, n: nat)
    ensures
        anc(ps, x, n + 1) == match anc(ps, x, n) {
            Some(y) => match ps[y] {
                Some(p) => Some(p as int),
                None => None,
            },
            None => None,
        },
    decreases n,
{
    match ps[x] {
        Some(p) => {
            assert(anc(ps, x, n + 1) == anc(ps, p as int, n));
            if n > 0 {
                assert(anc(ps, x, n) == anc(ps, p as int, (n - 1) as nat));
                lemma_anc_succ(ps, p as int, (n - 1) as nat);
                assert((n - 1) as nat + 1 == n);
            } else {
                assert(anc(ps, p as int, 0) == Some(p as int));
            }
        },
        None => {},
    }
}

proof fn lemma_cycle(ps: Seq<Option<usize>>, x: int, len: nat, f: int)
    requires
        len >= 1,
        anc(ps, x, len) == Some(x),
    ensures
        !pchain(ps, x, f),
    decreases f,
{
    match ps[x] {
        Some(p) => {
            if f > 0 {
                lemma_anc_succ(ps, x, len);
                assert(anc(ps, x, len + 1) == anc(ps, p as int, len));
                lemma_cycle(ps, p as int, len, f - 1);
            }
        },
        None => {
            assert(anc(ps, x, len) is None);
        },
    }
}

/// Emit style `i` after its parent chain (depth-bounded: a `basedOn` cycle
/// or a chain deeper than 32 stops the walk). `path` holds the styles on the
/// walk's stack, each `depth - j` steps below `i`; `good` says that every
/// chain ends within the bound, and then every emitted style follows its
/// parent.
fn emit(
    ps: &Vec<Option<usize>>,
    i: usize,
    emitted: &mut Vec<bool>,
    order: &mut Vec<usize>,
    depth: u8,
    Ghost(stack): Ghost<Set<int>>,
    Ghost(path): Ghost<Seq<int>>,
    Ghost(good): Ghost<bool>,
)
    requires
        i < ps@.len(),
        forall|j: int| 0 <= j < ps@.len() && (#[trigger] ps@[j]) is Some ==> ps@[j]->0 < ps@.len(),
        walk_inv(ps@.len() as int, old(emitted)@, old(order)@, stack),
        path.len() == depth as int,
        forall|x: int| #[trigger] stack.contains(x) ==> path.contains(x),
        forall|j: int| 0 <= j < path.len() ==> anc(ps@, #[trigger] path[j], (depth - j) as nat) == Some(i as int),
        good ==> depth <= 32 && pchain(ps@, i as int, 32 - depth),
        good ==> parents_first(ps@, old(order)@),
    ensures
        walk_inv(ps@.len() as int, final(emitted)@, final(order)@, stack),
        forall|x: int| 0 <= x < ps@.len() && old(emitted)@[x] ==> #[trigger] final(emitted)@[x],
        prefix_of(old(order)@, final(order)@),
        depth <= 32 ==> final(emitted)@[i as int],
        good ==> parents_first(ps@, final(order)@) && final(order)@.contains(i),
    decreases 33 - depth,
{
    if depth > 32 || emitted[i] {
        proof {
            if good && stack.contains(i as int) {
                let j = choose|j: int| 0 <= j < path.len() && path[j] == i as int;
                assert(anc(ps@, path[j], (depth - j) as nat) == Some(i as int));
                lemma_cycle(ps@, i as int, (depth - j) as nat, 32 - depth);
            }
        }
        return;
    }
    emitted.set(i, true);
    let ghost inner = stack.insert(i as int);
    let ghost inner_path = path.push(i as int);
    assert(walk_inv(ps@.len() as int, emitted@, order@, inner)) by {
        assert forall|k: int| 0 <= k < order@.len() implies (#[trigger] order@[k]) < ps@.len() && emitted@[order@[k] as int] && !inner.contains(order@[k] as int) by {
            assert(old(emitted)@[order@[k] as int]);
        }
        assert forall|x: int| 0 <= x < ps@.len() && #[trigger] emitted@[x] implies order@.contains(x as usize) || inner.contains(x) by {
            if x != i {
                assert(old(emitted)@[x]);
            }
        }
    }
    if let Some(p) = ps[i] {
        proof {
            assert forall|x: int| #[trigger] inner.contains(x) implies inner_path.contains(x) by {
                if x == i as int {
                    assert(inner_path[path.len() as int] == x);
                } else {
                    assert(path.contains(x));
                    let j = choose|j: int| 0 <= j < path.len() && path[j] == x;
                    assert(inner_path[j] == x);
                }
            }
            assert forall|j: int| 0 <= j < inner_path.len() implies anc(ps@, #[trigger] inner_path[j], ((depth + 1) - j) as nat) == Some(p as int) by {
                if j < path.len() {
                    assert(inner_path[j] == path[j]);
                    lemma_anc_succ(ps@, path[j], (depth - j) as nat);
                    assert(((depth + 1) - j) as nat == (depth - j) as nat + 1);
                } else {
                    assert(inner_path[j] == i as int);
                    assert(anc(ps@, p as int, 0) == Some(p as int));
                }
            }
        }
        emit(ps, p, emitted, order, depth + 1, Ghost(inner), Ghost(inner_path), Ghost(good));
    }
    let ghost mid = order@;
    assert(!mid.contains(i)) by {
        if mid.contains(i) {
            let k = choose|k: int| 0 <= k < mid.len() && mid[k] == i;
            assert(!inner.contains(mid[k] as int));
        }
    }
    order.push(i);
    assert forall|x: int| 0 <= x < ps@.len() && #[trigger] emitted@[x] implies order@.contains(x as usize) || stack.contains(x) by {
        if x == i {
            assert(order@[mid.len() as int] == i);
        } else if mid.contains(x as usize) {
            let k = choose|k: int| 0 <= k < mid.len() && mid[k] == x as usize;
            assert(order@[k] == x as usize);
        }
    }
    assert forall|k: int| 0 <= k < order@.len() implies (#[trigger] order@[k]) < ps@.len() && emitted@[order@[k] as int] && !stack.contains(order@[k] as int) by {
        if k < mid.len() {
            assert(order@[k] == mid[k]);
        }
    }
    proof {
        if good {
            assert(order@[mid.len() as int] == i);
            assert forall|k: int| 0 <= k < order@.len() && (#[trigger] ps@[order@[k] as int]) is Some implies exists|k2: int| 0 <= k2 < k && order@[k2] == ps@[order@[k] as int]->0 by {
                if k < mid.len() {
                    assert(order@[k] == mid[k]);
                    let k2 = choose|k2: int| 0 <= k2 < k && mid[k2] == ps@[mid[k] as int]->0;
                    assert(order@[k2] == mid[k2]);
                } else {
                    assert(order@[k] == i);
                    let pp = ps@[i as int]->0;
                    assert(mid.contains(pp));
                    let k2 = choose|k2: int| 0 <= k2 < mid.len() && mid[k2] == pp;
                    assert(order@[k2] == mid[k2]);
                }
            }
        }
    }
}

/// Every style index once; when every `basedOn` chain ends within the
/// bound, each parent comes before its children.
fn style_order(ps: &Vec<Option<usize>>) -> (order: Vec<usize>)
    requires
        forall|j: int| 0 <= j < ps@.len() && (#[trigger] ps@[j]) is Some ==> ps@[j]->0 < ps@.len(),
    ensures
        forall|k: int| 0 <= k < order@.len() ==> (#[trigger] order@[k]) < ps@.len(),
        forall|a: int, b: int| 0 <= a < b < order@.len() ==> order@[a] != order@[b],
        forall|x: usize| x < ps@.len() ==> #[trigger] order@.contains(x),
        (forall|x: int| 0 <= x < ps@.len() ==> #[trigger] pchain(ps@, x, 32)) ==> parents_first(ps@, order@),
{
    let ghost good = forall|x: int| 0 <= x < ps@.len() ==> #[trigger] pchain(ps@, x, 32);
    let mut emitted: Vec<bool> = Vec::new();
    let mut k: usize = 0;
    while k < ps.len()
        invariant
            k <= ps@.len(),
            emitted@.len() == k,
            forall|x: int| 0 <= x < k ==> !(#[trigger] emitted@[x]),
        decreases ps@.len() - k,
    {
        emitted.push(false);
        k = k + 1;
    }
    let mut order: Vec<usize> = Vec::new();
    let mut k: usize = 0;
    while k < ps.len()
        invariant
            k <= ps@.len(),
            forall|j: int| 0 <= j < ps@.len() && (#[trigger] ps@[j]) is Some ==> ps@[j]->0 < ps@.len(),
            walk_inv(ps@.len() as int, emitted@, order@, Set::empty()),
            forall|x: int| 0 <= x < k ==> #[trigger] emitted@[x],
            good == (forall|x: int| 0 <= x < ps@.len() ==> #[trigger] pchain(ps@, x, 32)),
            good ==> parents_first(ps@, order@),
        decreases ps@.len() - k,
    {
        proof {
            if good {
                assert(pchain(ps@, k as int, 32));
            }
        }
        emit(ps, k, &mut emitted, &mut order, 0, Ghost(Set::empty()), Ghost(Seq::empty()), Ghost(good));
        k = k + 1;
    }
    assert forall|x: usize| x < ps@.len() implies #[trigger] order@.contains(x) by {
        assert(emitted@[x as int]);
    }
    order
}

/// Two styles are the same value.
pub open spec fn same_style(a: LoweredStyle, b: LoweredStyle) -> bool {
    style_view(a) == style_view(b)
}

/// Some style of `ss` is the same value as `x`.
pub open spec fn has_same(ss: Seq<LoweredStyle>, x: LoweredStyle) -> bool {
    exists|j: int| 0 <= j < ss.len() && #[trigger] same_style(ss[j], x)
}

/// `out` holds the styles of `styles`, each once, in some order.
pub open spec fn arranges(out: Seq<LoweredStyle>, styles: Seq<LoweredStyle>) -> bool {
    &&& forall|k: int| 0 <= k < out.len() ==> #[trigger] has_same(styles, out[k])
    &&& forall|j: int| 0 <= j < styles.len() ==> #[trigger] has_same(out, styles[j])
    &&& distinct(style_ids(out))
}

/// The facts of an index arrangement of a style table.
pub open spec fn arranged_by(out: Seq<LoweredStyle>, ss: Seq<LoweredStyle>, order: Seq<usize>) -> bool {
    &&& out.len() == order.len()
    &&& ss.len() <= usize::MAX
    &&& forall|q: int| 0 <= q < order.len() ==> (#[trigger] order[q]) < ss.len()
    &&& forall|a: int, b: int| 0 <= a < b < order.len() ==> order[a] != order[b]
    &&& forall|x: usize| x < ss.len() ==> #[trigger] order.contains(x)
    &&& forall|q: int| 0 <= q < out.len() ==> #[trigger] style_view(out[q]) == style_view(ss[order[q] as int])
}

proof fn lemma_arranged_from(out: Seq<LoweredStyle>, ss: Seq<LoweredStyle>, order: Seq<usize>)
    requires
        arranged_by(out, ss, order),
    ensures
        forall|q: int| 0 <= q < out.len() ==> #[trigger] has_same(ss, out[q]),
{
    assert forall|q: int| 0 <= q < out.len() implies #[trigger] has_same(ss, out[q]) by {
        assert(same_style(ss[order[q] as int], out[q]));
    }
}

proof fn lemma_arranged_onto(out: Seq<LoweredStyle>, ss: Seq<LoweredStyle>, order: Seq<usize>)
    requires
        arranged_by(out, ss, order),
    ensures
        forall|j: int| 0 <= j < ss.len() ==> #[trigger] has_same(out, ss[j]),
{
    assert forall|j: int| 0 <= j < ss.len() implies #[trigger] has_same(out, ss[j]) by {
        let x = j as usize;
        assert(order.contains(x));
        let q = choose|q: int| 0 <= q < order.len() && order[q] == x;
        assert(order[q] as int == j);
        assert(style_view(out[q]) == style_view(ss[order[q] as int]));
        assert(same_style(out[q], ss[j]));
    }
}

proof fn lemma_arranged_distinct(out: Seq<LoweredStyle>, ss: Seq<LoweredStyle>, order: Seq<usize>)
    requires
        distinct(style_ids(ss)),
        arranged_by(out, ss, order),
    ensures
        distinct(style_ids(out)),
{
    assert forall|a: int, b: int| 0 <= a < b < style_ids(out).len() implies style_ids(out)[a] != style_ids(out)[b] by {
        assert(style_view(out[a]) == style_view(ss[order[a] as int]));
        assert(style_view(out[b]) == style_view(ss[order[b] as int]));
        assert(style_ids(ss)[order[a] as int] == out[a].id@);
        assert(style_ids(ss)[order[b] as int] == out[b].id@);
        assert(order[a] != order[b]);
        if (order[a] as int) > (order[b] as int) {
            assert(style_ids(ss)[order[b] as int] != style_ids(ss)[order[a] as int]);
        }
    }
}

/// The index of a style's parent in the table: the style whose token is
/// its `basedOn`, when the table has one.
pub open spec fn parent_index(ss: Seq<LoweredStyle>, i: int) -> Option<int> {
    match ss[i].based_on {
        Some(b) => if style_ids(ss).contains(b@) {
            Some(choose|j: int| 0 <= j < ss.len() && style_ids(ss)[j] == b@)
        } else {
            None
        },
        None => None,
    }
}

/// The `basedOn` chain from style `i` ends within `f` steps.
pub open spec fn chain_within(ss: Seq<LoweredStyle>, i: int, f: int) -> bool
    decreases f,
{
    match parent_index(ss, i) {
        Some(p) => if f > 0 { chain_within(ss, p, f - 1) } else { false },
        None => true,
    }
}

/// Every `basedOn` chain of the table ends within 32 steps (no cycle, no
/// deeper chain).
pub open spec fn chains_short(ss: Seq<LoweredStyle>) -> bool {
    forall|i: int| 0 <= i < ss.len() ==> #[trigger] chain_within(ss, i, 32)
}

/// Every style's parent comes before it.
pub open spec fn parent_first(ss: Seq<LoweredStyle>) -> bool {
    forall|k: int| 0 <= k < ss.len() && (#[trigger] parent_index(ss, k)) is Some ==> parent_index(ss, k)->0 < k
}

/// The parent index of a style placed by `order` is the place of its
/// parent's index.
pub open spec fn parent_placed(out: Seq<LoweredStyle>, ps: Seq<Option<usize>>, order: Seq<usize>, k: int) -> bool {
    match ps[order[k] as int] {
        Some(p) => exists|q: int| 0 <= q < order.len() && order[q] == p && parent_index(out, k) == Some(q),
        None => parent_index(out, k) is None,
    }
}

proof fn lemma_parent_placed(out: Seq<LoweredStyle>, ss: Seq<LoweredStyle>, order: Seq<usize>, ps: Seq<Option<usize>>, k: int)
    requires
        arranged_by(out, ss, order),
        parents_of(ss, ps),
        distinct(style_ids(ss)),
        distinct(style_ids(out)),
        0 <= k < out.len(),
    ensures
        parent_placed(out, ps, order, k),
{
    let i = order[k] as int;
    assert(style_view(out[k]) == style_view(ss[i]));
    match ps[i] {
        Some(p) => {
            let b = opt_chars(ss[i].based_on)->0;
            assert(order.contains(p));
            let q = choose|q: int| 0 <= q < order.len() && order[q] == p;
            assert(style_view(out[q]) == style_view(ss[p as int]));
            assert(style_ids(out)[q] == b);
            assert(out[k].based_on is Some);
            assert(style_ids(out).contains(b));
            let j = choose|j: int| 0 <= j < out.len() && style_ids(out)[j] == b;
            if j != q {
                if j < q {
                    assert(style_ids(out)[j] != style_ids(out)[q]);
                } else {
                    assert(style_ids(out)[q] != style_ids(out)[j]);
                }
            }
            assert(parent_index(out, k) == Some(q));
        },
        None => {
            if out[k].based_on is Some {
                let b = opt_chars(out[k].based_on)->0;
                if style_ids(out).contains(b) {
                    let j = choose|j: int| 0 <= j < style_ids(out).len() && style_ids(out)[j] == b;
                    assert(style_view(out[j]) == style_view(ss[order[j] as int]));
                    assert(style_ids(ss)[order[j] as int] == b);
                    assert(style_ids(ss).contains(b));
                }
            }
        },
    }
}

proof fn lemma_chain_placed(out: Seq<LoweredStyle>, ss: Seq<LoweredStyle>, order: Seq<usize>, ps: Seq<Option<usize>>, k: int, f: int)
    requires
        arranged_by(out, ss, order),
        parents_of(ss, ps),
        distinct(style_ids(ss)),
        distinct(style_ids(out)),
        0 <= k < out.len(),
        chain_within(out, k, f),
    ensures
        pchain(ps, order[k] as int, f),
    decreases f,
{
    lemma_parent_placed(out, ss, order, ps, k);
    match ps[order[k] as int] {
        Some(p) => {
            let q = choose|q: int| 0 <= q < order.len() && order[q] == p && parent_index(out, k) == Some(q);
            if f > 0 {
                lemma_chain_placed(out, ss, order, ps, q, f - 1);
            }
        },
        None => {},
    }
}

proof fn lemma_parent_first(out: Seq<LoweredStyle>, ss: Seq<LoweredStyle>, order: Seq<usize>, ps: Seq<Option<usize>>)
    requires
        arranged_by(out, ss, order),
        parents_of(ss, ps),
        distinct(style_ids(ss)),
        distinct(style_ids(out)),
        (forall|x: int| 0 <= x < ps.len() ==> #[trigger] pchain(ps, x, 32)) ==> parents_first(ps, order),
        chains_short(out),
    ensures
        parent_first(out),
{
    assert forall|x: int| 0 <= x < ps.len() implies #[trigger] pchain(ps, x, 32) by {
        assert(order.contains(x as usize));
        let k = choose|k: int| 0 <= k < order.len() && order[k] == x as usize;
        assert(chain_within(out, k, 32));
        lemma_chain_placed(out, ss, order, ps, k, 32);
    }
    assert forall|k: int| 0 <= k < out.len() && (#[trigger] parent_index(out, k)) is Some implies parent_index(out, k)->0 < k by {
        lemma_parent_placed(out, ss, order, ps, k);
        let p = ps[order[k] as int]->0;
        let q = choose|q: int| 0 <= q < order.len() && order[q] == p && parent_index(out, k) == Some(q);
        assert(ps[order[k] as int] is Some);
        let k2 = choose|k2: int| 0 <= k2 < k && order[k2] == ps[order[k] as int]->0;
        if k2 != q {
            if k2 < q {
                assert(order[k2] != order[q]);
            } else {
                assert(order[q] != order[k2]);
            }
        }
    }
}

impl Lowering {
    /// The styles with every `basedOn` parent before its children.
    pub fn ordered_styles(&self) -> (out: Vec<LoweredStyle>)
        requires
            self.wf(),
        ensures
            arranges(out@, self.styles@),
            chains_short(out@) ==> parent_first(out@),
    {
        let n = self.styles.len();
        let ps = parent_indices(&self.styles);
        let order = style_order(&ps);
        let mut out: Vec<LoweredStyle> = Vec::new();
        let mut k: usize = 0;
        while k < order.len()
            invariant
                k <= order@.len(),
                ps@.len() == self.styles@.len(),
                forall|q: int| 0 <= q < order@.len() ==> (#[trigger] order@[q]) < ps@.len(),
                out@.len() == k,
                forall|q: int| 0 <= q < k ==> #[trigger] style_view(out@[q]) == style_view(self.styles@[order@[q] as int]),
            decreases order@.len() - k,
        {
            out.push(copy_style(&self.styles[order[k]]));
            k = k + 1;
        }
        proof {
            assert(arranged_by(out@, self.styles@, order@));
            lemma_arranged_from(out@, self.styles@, order@);
            lemma_arranged_onto(out@, self.styles@, order@);
            lemma_arranged_distinct(out@, self.styles@, order@);
            if chains_short(out@) {
                lemma_parent_first(out@, self.styles@, order@, ps@);
            }
        }
        out
    }
}


/// The token bytes of a lowered style.
pub open spec fn id_bytes(s: LoweredStyle) -> Seq<u8> {
    ubytes(s.id@)
}

/// Some style of the table has token bytes `t`.
pub open spec fn has_token(styles: Seq<LoweredStyle>, t: Seq<u8>) -> bool {
    exists|j: int| 0 <= j < styles.len() && #[trigger] id_bytes(styles[j]) == t
}

proof fn lemma_has_token_grows(a: Seq<LoweredStyle>, b: Seq<LoweredStyle>, t: Seq<u8>)
    requires
        grows(style_ids(a), style_ids(b)),
        has_token(a, t),
    ensures
        has_token(b, t),
{
    let j = choose|j: int| 0 <= j < a.len() && #[trigger] id_bytes(a[j]) == t;
    assert(style_ids(a)[j] == style_ids(b)[j]);
    assert(id_bytes(b[j]) == t);
}

proof fn lemma_has_token_contains(a: Seq<LoweredStyle>, id: Seq<char>)
    requires
        style_ids(a).contains(id),
    ensures
        has_token(a, ubytes(id)),
{
    let j = choose|j: int| 0 <= j < style_ids(a).len() && style_ids(a)[j] == id;
    assert(id_bytes(a[j]) == ubytes(id));
}

/// Every style of `cat` whose token is not of the synthesized shape is in
/// `out`, with exactly its value.
pub open spec fn holds_catalog(cat: Seq<(Seq<char>, Seq<char>, StyleCollection, Option<Seq<char>>, Seq<PropView>)>, out: Seq<LoweredStyle>) -> bool {
    forall|k: int| 0 <= k < cat.len() && !synth_token(#[trigger] cat[k].0) ==> exists|j: int| 0 <= j < out.len() && style_view(out[j]) == cat[k]
}

proof fn lemma_holds_catalog(after: Seq<LoweredStyle>, mid: Seq<LoweredStyle>, out: Seq<LoweredStyle>)
    requires
        keeps(after, mid),
        grows(style_ids(after), style_ids(mid)),
        arranges(out, mid),
    ensures
        holds_catalog(styles_v(after), out),
{
    let cat = styles_v(after);
    assert forall|k: int| 0 <= k < cat.len() && !synth_token(#[trigger] cat[k].0) implies exists|j: int| 0 <= j < out.len() && style_view(out[j]) == cat[k] by {
        assert(cat[k] == style_view(after[k]));
        assert(style_ids(after)[k] == style_ids(mid)[k]);
        assert(style_view(mid[k]) == cat[k] || synth_token(mid[k].id@));
        assert(style_view(mid[k]) == cat[k]);
        assert(has_same(out, mid[k]));
        let j = choose|j: int| 0 <= j < out.len() && #[trigger] same_style(out[j], mid[k]);
        assert(style_view(out[j]) == cat[k]);
    }
}

proof fn lemma_has_token_arranged(out: Seq<LoweredStyle>, ss: Seq<LoweredStyle>, t: Seq<u8>)
    requires
        arranges(out, ss),
        has_token(ss, t),
    ensures
        has_token(out, t),
{
    let j = choose|j: int| 0 <= j < ss.len() && #[trigger] id_bytes(ss[j]) == t;
    assert(has_same(out, ss[j]));
    let k = choose|k: int| 0 <= k < out.len() && #[trigger] same_style(out[k], ss[j]);
    assert(id_bytes(out[k]) == t);
}

/// The token of the native style a catalog style becomes: paragraph and
/// character styles do, table and numbering styles do not.
pub open spec fn catalog_token(s: Style) -> Option<Seq<u8>> {
    match s.kind {
        StyleKind::Paragraph => Some(ref_token(PARA_PREFIX, s.style_id@)),
        StyleKind::Character => Some(ref_token(CHAR_PREFIX, s.style_id@)),
        _ => None,
    }
}

/// A diagnostic as a value: severity, message, tier.
pub type DiagV = (Seq<char>, Seq<char>, u8);

/// Diagnostics as values.
pub open spec fn diags_view(v: Seq<Diagnostic>) -> Seq<DiagV> {
    v.map_values(|d: Diagnostic| (d.severity@, d.message@, d.tier))
}

/// The diagnostic that reports a skipped (table or numbering) style.
pub open spec fn skip_diag(s: Style) -> DiagV {
    (
        "info"@,
        "style '"@ + s.style_id@ + (if s.kind == StyleKind::Table { "' (Table)"@ } else { "' (Numbering)"@ })
            + " is not a Tier-0 construct and was skipped"@,
        3,
    )
}

/// The diagnostics of the catalog styles that are skipped (table and
/// numbering styles), in order.
pub open spec fn skip_diags(styles: Seq<Style>) -> Seq<DiagV>
    decreases styles.len(),
{
    if styles.len() == 0 {
        Seq::empty()
    } else {
        skip_diags(styles.drop_last()) + if catalog_token(styles.last()) is None {
            seq![skip_diag(styles.last())]
        } else {
            Seq::empty()
        }
    }
}

/// The document-defaults base style token.
pub open spec fn default_token() -> Seq<char> {
    PARA_PREFIX@ + "Default"@
}

/// The base paragraph style the document defaults lower to.
pub open spec fn defaults_style(d: crate::model::Defaults) -> (Seq<char>, Seq<char>, StyleCollection, Option<Seq<char>>, Seq<PropView>) {
    (default_token(), "docx defaults"@, StyleCollection::Paragraph, None, defaults_props(d))
}

/// The style table once the document defaults and then the style catalog
/// are lowered, in that order, onto an empty table (see
/// [`Lowering::install_doc_defaults`] and [`catalog_fold`]).
pub open spec fn catalog_stage(doc: DocxDocument) -> Seq<(Seq<char>, Seq<char>, StyleCollection, Option<Seq<char>>, Seq<PropView>)> {
    let d = doc.styles.doc_defaults;
    if defaults_props(d).len() > 0 {
        catalog_fold(seq![defaults_style(d)], doc.styles.styles@, Some(default_token()))
    } else {
        catalog_fold(Seq::empty(), doc.styles.styles@, None)
    }
}

/// The properties of the document defaults: paragraph then run.
pub open spec fn defaults_props(d: crate::model::Defaults) -> Seq<PropView> {
    para_props_spec(d.para) + run_props_spec(d.run)
}

impl Lowering {
    /// Create the `docx-Default` base paragraph style from the document
    /// defaults when they carry any property; every un-based paragraph style
    /// and un-styled paragraph then inherits from it.
    pub fn install_doc_defaults(&mut self, d: &crate::model::Defaults)
        requires
            old(self).wf(),
        ensures
            final(self).hyperlinks == old(self).hyperlinks,
            final(self).wf(),
            final(self).diagnostics == old(self).diagnostics,
            grows(style_ids(old(self).styles@), style_ids(final(self).styles@)),
            defaults_props(*d).len() == 0 ==> final(self).default_base == old(self).default_base,
            defaults_props(*d).len() > 0 ==> opt_chars(final(self).default_base) == Some(default_token())
                && style_ids(final(self).styles@).contains(default_token()),
            defaults_props(*d).len() == 0 ==> final(self).styles == old(self).styles,
            defaults_props(*d).len() > 0 ==> styles_v(final(self).styles@) == record_spec(
                styles_v(old(self).styles@),
                defaults_style(*d),
            ),
    {
        let mut props = para_props(&d.para);
        let mut run = self.run_props(&d.run);
        let ghost pv = props_view(props@);
        let ghost rv = props_view(run@);
        props.append(&mut run);
        assert(props_view(props@) =~= pv + rv);
        if props.len() == 0 {
            return;
        }
        let mut id = owned(PARA_PREFIX);
        append(&mut id, "Default");
        let st = LoweredStyle {
            id: id.clone(),
            name: owned("docx defaults"),
            collection: StyleCollection::Paragraph,
            based_on: None,
            props,
        };
        assert(style_view(st) == defaults_style(*d));
        self.record_style(st);
        self.default_base = Some(id);
    }

    /// Lower the Word style catalog: paragraph and character styles become
    /// native styles (a paragraph style without a parent inherits the
    /// document defaults); table and numbering styles are reported.
    pub fn lower_style_catalog(&mut self, styles: &Vec<Style>)
        requires
            old(self).wf(),
        ensures
            final(self).hyperlinks == old(self).hyperlinks,
            final(self).wf(),
            grows(style_ids(old(self).styles@), style_ids(final(self).styles@)),
            final(self).default_base == old(self).default_base,
            forall|i: int| 0 <= i < styles@.len() && (#[trigger] catalog_token(styles@[i])) is Some ==> has_token(
                final(self).styles@,
                catalog_token(styles@[i])->0,
            ),
            diags_view(final(self).diagnostics@) == diags_view(old(self).diagnostics@) + skip_diags(styles@),
            styles_v(final(self).styles@) == catalog_fold(styles_v(old(self).styles@), styles@, opt_chars(old(self).default_base)),
            grows(swatch_ids(old(self).swatches@), swatch_ids(final(self).swatches@)),
            swatch_views(final(self).swatches@) == catalog_swatches(swatch_views(old(self).swatches@), styles@),
            forall|i: int| 0 <= i < styles@.len() && catalog_token(styles@[i]) is Some ==> (#[trigger] styles@[i].run.color matches Some(
                c,
            ) ==> swatch_ids(final(self).swatches@).contains(swatch_token(c@))),
    {
        let mut i: usize = 0;
        assert(styles@.take(0) =~= Seq::<Style>::empty());
        let ghost base = opt_chars(self.default_base);
        while i < styles.len()
            invariant
                i <= styles@.len(),
                self.wf(),
                self.hyperlinks == old(self).hyperlinks,
                grows(style_ids(old(self).styles@), style_ids(self.styles@)),
                self.default_base == old(self).default_base,
                forall|k: int| 0 <= k < i && (#[trigger] catalog_token(styles@[k])) is Some ==> has_token(
                    self.styles@,
                    catalog_token(styles@[k])->0,
                ),
                diags_view(self.diagnostics@) == diags_view(old(self).diagnostics@) + skip_diags(styles@.take(i as int)),
                base == opt_chars(old(self).default_base),
                styles_v(self.styles@) == catalog_fold(styles_v(old(self).styles@), styles@.take(i as int), base),
                grows(swatch_ids(old(self).swatches@), swatch_ids(self.swatches@)),
                swatch_views(self.swatches@) == catalog_swatches(swatch_views(old(self).swatches@), styles@.take(i as int)),
                forall|k: int| 0 <= k < i && catalog_token(styles@[k]) is Some ==> (#[trigger] styles@[k].run.color matches Some(
                    c,
                ) ==> swatch_ids(self.swatches@).contains(swatch_token(c@))),
            decreases styles@.len() - i,
        {
            let s = &styles[i];
            assert(styles@.take(i + 1).drop_last() =~= styles@.take(i as int));
            assert(styles@.take(i + 1).last() == *s);
            let ghost before = self.styles@;
            let ghost diags0 = self.diagnostics@;
            let ghost sw0 = swatch_ids(self.swatches@);
            let name = match &s.name {
                Some(n) => n.clone(),
                None => s.style_id.clone(),
            };
            match s.kind {
                StyleKind::Paragraph => {
                    let mut props = para_props(&s.para);
                    let mut run = self.run_props(&s.run);
                    props.append(&mut run);
                    let explicit = match &s.based_on {
                        Some(b) => Some(crate::bindings::style_token(PARA_PREFIX, b.as_str())),
                        None => None,
                    };
                    proof {
                        if let Some(e) = &explicit {
                            vstd::utf8::encode_utf8_decode_utf8(e@);
                        }
                    }
                    let based_on = self.para_base(explicit);
                    let id = crate::bindings::style_token(PARA_PREFIX, s.style_id.as_str());
                    let ghost idv = id@;
                    proof {
                        vstd::utf8::encode_utf8_decode_utf8(idv);
                    }
                    let st = LoweredStyle { id, name, collection: StyleCollection::Paragraph, based_on, props };
                    assert(catalog_style_view(*s, base) == Some(style_view(st)));
                    self.record_style(st);
                    proof { lemma_has_token_contains(self.styles@, idv); }
                },
                StyleKind::Character => {
                    let props = self.run_props(&s.run);
                    let based_on = match &s.based_on {
                        Some(b) => Some(crate::bindings::style_token(CHAR_PREFIX, b.as_str())),
                        None => None,
                    };
                    proof {
                        if let Some(e) = &based_on {
                            vstd::utf8::encode_utf8_decode_utf8(e@);
                        }
                    }
                    let id = crate::bindings::style_token(CHAR_PREFIX, s.style_id.as_str());
                    let ghost idv = id@;
                    proof {
                        vstd::utf8::encode_utf8_decode_utf8(idv);
                    }
                    let st = LoweredStyle { id, name, collection: StyleCollection::Character, based_on, props };
                    assert(catalog_style_view(*s, base) == Some(style_view(st)));
                    self.record_style(st);
                    proof { lemma_has_token_contains(self.styles@, idv); }
                },
                StyleKind::Table | StyleKind::Numbering => {
                    let mut msg = owned("style '");
                    append(&mut msg, s.style_id.as_str());
                    let kind = match s.kind {
                        StyleKind::Table => "' (Table)",
                        _ => "' (Numbering)",
                    };
                    append(&mut msg, kind);
                    append(&mut msg, " is not a Tier-0 construct and was skipped");
                    let d = Diagnostic::info(msg, 3);
                    assert((d.severity@, d.message@, d.tier) == skip_diag(*s));
                    self.diagnostics.push(d);
                    assert(diags_view(self.diagnostics@) =~= diags_view(diags0).push(skip_diag(*s)));
                },
            }
            proof {
                assert forall|k: int| 0 <= k < i + 1 && catalog_token(styles@[k]) is Some implies (#[trigger] styles@[k].run.color matches Some(
                    c,
                ) ==> swatch_ids(self.swatches@).contains(swatch_token(c@))) by {
                    if k < i {
                        if let Some(c) = styles@[k].run.color {
                            lemma_grows_contains(sw0, swatch_ids(self.swatches@), swatch_token(c@));
                        }
                    }
                }
                assert forall|k: int| 0 <= k < i + 1 && (#[trigger] catalog_token(styles@[k])) is Some implies has_token(
                    self.styles@,
                    catalog_token(styles@[k])->0,
                ) by {
                    if k < i {
                        lemma_has_token_grows(before, self.styles@, catalog_token(styles@[k])->0);
                    }
                }
            }
            i = i + 1;
        }
        assert(styles@.take(styles@.len() as int) =~= styles@);
    }
}

/// A body block and its lowering: a paragraph keeps its source index, the
/// texts of its runs with text, and its style and run styles (see
/// [`para_lowered`], `base` the document-defaults base and `styles` the
/// style table); a table keeps its grid and its cells, whose paragraphs are
/// lowered as body paragraphs are.
pub open spec fn block_lowered(b: LoweredBlock, src: Block, i: int, base: Option<Seq<u8>>, styles: Seq<LoweredStyle>) -> bool {
    match (b, src) {
        (LoweredBlock::Paragraph(lp), Block::Paragraph(p)) => lp.source_index == i as u32 && lowered_texts(lp.runs@)
            == nonempty_texts(p.runs@) && para_lowered(lp, p, base, styles),
        (LoweredBlock::Table(lt), Block::Table(t)) => lt.rows == t.rows@.len() as u32 && lt.cols as int == cols_spec(t)
            && lt.column_widths@ == t.column_widths@ && cells_match(lt.cells@, t.rows@) && cells_styled(
            lt.cells@,
            t.rows@,
            base,
            styles,
        ),
        _ => false,
    }
}

/// The document-defaults base style's token bytes, when the defaults carry
/// a property.
pub open spec fn defaults_base(doc: DocxDocument) -> Option<Seq<u8>> {
    if defaults_props(doc.styles.doc_defaults).len() > 0 {
        Some(ubytes(default_token()))
    } else {
        None
    }
}

proof fn lemma_block_lowered_grows(b: LoweredBlock, src: Block, i: int, base: Option<Seq<u8>>, a: Seq<LoweredStyle>, c: Seq<LoweredStyle>)
    requires
        block_lowered(b, src, i, base, a),
        grows(style_ids(a), style_ids(c)),
    ensures
        block_lowered(b, src, i, base, c),
{
    match (b, src) {
        (LoweredBlock::Paragraph(lp), Block::Paragraph(p)) => {
            lemma_para_lowered_grows(lp, p, base, a, c);
        },
        (LoweredBlock::Table(lt), Block::Table(t)) => {
            assert forall|k: int| 0 <= k < lt.cells@.len() implies #[trigger] styled_at(lt.cells@[k], t.rows@, cell_sources(t.rows@)[k], base, c) by {
                lemma_styled_grows(lt.cells@[k], t.rows@, cell_sources(t.rows@)[k], base, a, c);
            }
        },
        _ => {},
    }
}

/// A token of a table is a token of any arrangement of it.
proof fn lemma_contains_arranged(out: Seq<LoweredStyle>, ss: Seq<LoweredStyle>, x: Seq<char>)
    requires
        arranges(out, ss),
        style_ids(ss).contains(x),
    ensures
        style_ids(out).contains(x),
{
    let j = choose|j: int| 0 <= j < style_ids(ss).len() && style_ids(ss)[j] == x;
    assert(has_same(out, ss[j]));
    let k = choose|k: int| 0 <= k < out.len() && #[trigger] same_style(out[k], ss[j]);
    assert(style_ids(out)[k] == x);
}

proof fn lemma_para_lowered_arranged(lp: LoweredParagraph, p: Paragraph, base: Option<Seq<u8>>, out: Seq<LoweredStyle>, ss: Seq<LoweredStyle>)
    requires
        para_lowered(lp, p, base, ss),
        arranges(out, ss),
    ensures
        para_lowered(lp, p, base, out),
{
    if para_direct(p) {
        lemma_contains_arranged(out, ss, opt_chars(lp.para_style_id)->0);
    }
    assert forall|k: int| 0 <= k < lp.runs@.len() implies run_lowered(#[trigger] lp.runs@[k], kept_runs(p.runs@)[k], out) by {
        if run_direct(kept_runs(p.runs@)[k]) {
            lemma_contains_arranged(out, ss, opt_chars(lp.runs@[k].char_style_id)->0);
        }
    }
}

proof fn lemma_block_lowered_arranged(b: LoweredBlock, src: Block, i: int, base: Option<Seq<u8>>, out: Seq<LoweredStyle>, ss: Seq<LoweredStyle>)
    requires
        block_lowered(b, src, i, base, ss),
        arranges(out, ss),
    ensures
        block_lowered(b, src, i, base, out),
{
    match (b, src) {
        (LoweredBlock::Paragraph(lp), Block::Paragraph(p)) => {
            lemma_para_lowered_arranged(lp, p, base, out, ss);
        },
        (LoweredBlock::Table(lt), Block::Table(t)) => {
            assert forall|k: int| 0 <= k < lt.cells@.len() implies #[trigger] styled_at(lt.cells@[k], t.rows@, cell_sources(t.rows@)[k], base, out) by {
                let c = lt.cells@[k];
                let src = t.rows@[cell_sources(t.rows@)[k].0].cells@[cell_sources(t.rows@)[k].1];
                assert(styled_at(c, t.rows@, cell_sources(t.rows@)[k], base, ss));
                assert forall|q: int| 0 <= q < c.paragraphs@.len() implies (#[trigger] c.paragraphs@[q]).source_index == 0 && para_lowered(
                    c.paragraphs@[q],
                    src.paragraphs@[q],
                    base,
                    out,
                ) by {
                    lemma_para_lowered_arranged(c.paragraphs@[q], src.paragraphs@[q], base, out, ss);
                }
            }
        },
        _ => {},
    }
}

/// The diagnostic that counts the `n` hyperlink runs styled.
pub open spec fn link_note(d: Diagnostic, n: int) -> bool {
    &&& d.severity@ == "info"@
    &&& d.tier == 3
    &&& ubytes(d.message@) == dec_int(n) + sbytes(LINK_NOTE)
}

/// The first section, if any.
pub open spec fn first_section(doc: DocxDocument) -> Option<Section> {
    if doc.sections@.len() > 0 {
        Some(doc.sections@[0])
    } else {
        None
    }
}

/// What lowering a document gives: one block per body block, each keeping
/// its source (see [`block_lowered`]); the first section's geometry; distinct
/// style and swatch tokens; every paragraph and character style of the
/// catalog, and the document-defaults base style when the defaults carry a
/// property, each with the value the catalog stage gives it (see
/// [`catalog_stage`]) unless its token has the synthesized shape (a style
/// synthesized later may take such a token); when every `basedOn` chain
/// ends within 32 steps, each style
/// after its parent; and a diagnostic for each skipped catalog style, then
/// at most the hyperlink count.
pub open spec fn lowers(doc: DocxDocument, r: LoweredDoc) -> bool {
    &&& r.story.blocks@.len() == doc.body@.len()
    &&& forall|i: int| 0 <= i < doc.body@.len() ==> block_lowered(#[trigger] r.story.blocks@[i], doc.body@[i], i, defaults_base(doc), r.styles@)
    &&& section_view(r.section) == section_spec(first_section(doc))
    &&& distinct(style_ids(r.styles@))
    &&& distinct(swatch_ids(r.swatches@))
    &&& forall|i: int| 0 <= i < doc.styles.styles@.len() && (#[trigger] catalog_token(doc.styles.styles@[i])) is Some ==> has_token(
        r.styles@,
        catalog_token(doc.styles.styles@[i])->0,
    )
    &&& defaults_props(doc.styles.doc_defaults).len() > 0 ==> has_token(r.styles@, ubytes(default_token()))
    &&& holds_catalog(catalog_stage(doc), r.styles@)
    &&& chains_short(r.styles@) ==> parent_first(r.styles@)
    &&& diags_view(r.diagnostics@).take(skip_diags(doc.styles.styles@).len() as int) == skip_diags(doc.styles.styles@)
    &&& r.diagnostics@.len() == skip_diags(doc.styles.styles@).len() + if body_links(doc.body@) > 0 { 1int } else { 0int }
    &&& body_links(doc.body@) > 0 ==> link_note(r.diagnostics@.last(), sat_add(0, body_links(doc.body@)) as int)
}

/// Lower a whole Word document: the document defaults and the style
/// catalog become native styles (parents before children), the body one
/// story of paragraphs and tables in order, and the first section the page
/// geometry.
pub fn lower(doc: &DocxDocument) -> (r: LoweredDoc)
    ensures
        lowers(*doc, r),
{
    let mut ctx = Lowering::new();
    ctx.install_doc_defaults(&doc.styles.doc_defaults);
    let ghost after_defaults = ctx.styles@;
    assert(diags_view(ctx.diagnostics@) =~= Seq::<DiagV>::empty());
    proof {
        if defaults_props(doc.styles.doc_defaults).len() > 0 {
            lemma_style_from(Seq::empty(), default_token(), 0);
            assert(styles_v(after_defaults) =~= seq![defaults_style(doc.styles.doc_defaults)]);
        } else {
            assert(styles_v(after_defaults) =~= Seq::empty());
        }
    }
    ctx.lower_style_catalog(&doc.styles.styles);
    let ghost after_catalog = ctx.styles@;
    proof {
        lemma_keeps_refl(after_catalog);
    }
    assert(diags_view(ctx.diagnostics@) =~= skip_diags(doc.styles.styles@));
    assert(doc.body@.take(0) =~= Seq::<Block>::empty());
    let mut blocks: Vec<LoweredBlock> = Vec::new();
    let mut idx: usize = 0;
    while idx < doc.body.len()
        invariant
            idx <= doc.body@.len(),
            ctx.wf(),
            grows(style_ids(after_catalog), style_ids(ctx.styles@)),
            keeps(after_catalog, ctx.styles@),
            styles_v(after_catalog) == catalog_stage(*doc),
            blocks@.len() == idx,
            opt_bytes(ctx.default_base) == defaults_base(*doc),
            diags_view(ctx.diagnostics@) == skip_diags(doc.styles.styles@),
            forall|i: int| 0 <= i < idx ==> block_lowered(#[trigger] blocks@[i], doc.body@[i], i, defaults_base(*doc), ctx.styles@),
            ctx.hyperlinks == sat_add(0, body_links(doc.body@.take(idx as int))),
        decreases doc.body@.len() - idx,
    {
        #[verifier::truncate]
        let source = idx as u32;
        proof {
            assert(doc.body@.take(idx + 1).drop_last() =~= doc.body@.take(idx as int));
            assert(doc.body@.take(idx + 1).last() == doc.body@[idx as int]);
            lemma_sat_add(0, body_links(doc.body@.take(idx as int)), match doc.body@[idx as int] {
                Block::Paragraph(p) => para_links(p),
                Block::Table(t) => table_links(t.rows@),
            });
        }
        let ghost styles0 = ctx.styles@;
        let ghost blocks0 = blocks@;
        match &doc.body[idx] {
            Block::Paragraph(p) => {
                let lp = ctx.lower_paragraph(p, source);
                blocks.push(LoweredBlock::Paragraph(lp));
            },
            Block::Table(t) => {
                let lt = ctx.lower_table(t);
                blocks.push(LoweredBlock::Table(lt));
            },
        }
        proof {
            assert forall|i: int| 0 <= i < idx + 1 implies block_lowered(#[trigger] blocks@[i], doc.body@[i], i, defaults_base(*doc), ctx.styles@) by {
                if i < idx {
                    assert(blocks@[i] == blocks0[i]);
                    lemma_block_lowered_grows(blocks0[i], doc.body@[i], i, defaults_base(*doc), styles0, ctx.styles@);
                }
            }
        }
        idx = idx + 1;
    }
    assert(doc.body@.take(doc.body@.len() as int) =~= doc.body@);
    if ctx.hyperlinks > 0 {
        let mut msg = int_string(ctx.hyperlinks as i64);
        append(&mut msg, LINK_NOTE);
        let ghost d0 = ctx.diagnostics@;
        let d = Diagnostic::info(msg, 3);
        assert(link_note(d, ctx.hyperlinks as int));
        ctx.diagnostics.push(d);
        assert(diags_view(ctx.diagnostics@) =~= diags_view(d0).push((d.severity@, d.message@, d.tier)));
    }
    proof {
        let n = skip_diags(doc.styles.styles@).len() as int;
        assert(diags_view(ctx.diagnostics@).take(n) =~= skip_diags(doc.styles.styles@));
    }
    let section = if doc.sections.len() > 0 {
        lower_section(Some(&doc.sections[0]))
    } else {
        lower_section(None)
    };
    let styles = ctx.ordered_styles();
    proof {
        assert forall|i: int| 0 <= i < doc.styles.styles@.len() && (#[trigger] catalog_token(doc.styles.styles@[i])) is Some implies has_token(
            styles@,
            catalog_token(doc.styles.styles@[i])->0,
        ) by {
            lemma_has_token_grows(after_catalog, ctx.styles@, catalog_token(doc.styles.styles@[i])->0);
            lemma_has_token_arranged(styles@, ctx.styles@, catalog_token(doc.styles.styles@[i])->0);
        }
        if defaults_props(doc.styles.doc_defaults).len() > 0 {
            lemma_has_token_contains(after_defaults, default_token());
            assert(grows(style_ids(after_defaults), style_ids(ctx.styles@)));
            lemma_has_token_grows(after_defaults, ctx.styles@, ubytes(default_token()));
            lemma_has_token_arranged(styles@, ctx.styles@, ubytes(default_token()));
        }
        assert forall|i: int| 0 <= i < doc.body@.len() implies block_lowered(#[trigger] blocks@[i], doc.body@[i], i, defaults_base(*doc), styles@) by {
            lemma_block_lowered_arranged(blocks@[i], doc.body@[i], i, defaults_base(*doc), styles@, ctx.styles@);
        }
        lemma_holds_catalog(after_catalog, ctx.styles@, styles@);
    }
    LoweredDoc { swatches: ctx.swatches, styles, story: LoweredStory { blocks }, section, diagnostics: ctx.diagnostics }
}


proof fn lemma_run_bindings_len(runs: Seq<Run>)
    ensures
        crate::bindings::run_bindings_of(runs).len() == nonempty_texts(runs).len(),
    decreases runs.len(),
{
    if runs.len() > 0 {
        lemma_run_bindings_len(runs.drop_last());
    }
}

proof fn lemma_para_bindings_len(ps: Seq<Paragraph>)
    ensures
        crate::bindings::para_bindings_of(ps).len() == cell_text_shape(ps).len(),
        forall|p: int| 0 <= p < ps.len() ==> (#[trigger] crate::bindings::para_bindings_of(ps)[p]).len() == cell_text_shape(ps)[p].len(),
{
    assert forall|p: int| 0 <= p < ps.len() implies (#[trigger] crate::bindings::para_bindings_of(ps)[p]).len() == cell_text_shape(ps)[p].len() by {
        lemma_run_bindings_len(ps[p].runs@);
    }
}

/// The binding of a table cell matches its source cell.
pub open spec fn cell_bound(c: crate::bindings::CellView, rows: Seq<crate::model::TableRow>, src: (int, int)) -> bool {
    &&& c.0 == src.0 as u32
    &&& c.1 == src.1 as u32
    &&& c.2 == crate::bindings::para_bindings_of(rows[src.0].cells@[src.1].paragraphs@)
}

proof fn lemma_row_cells(row: int, cells: Seq<crate::model::TableCell>)
    ensures
        crate::bindings::row_cells_of(row, cells).len() == row_sources(row, cells).len(),
        forall|k: int| 0 <= k < row_sources(row, cells).len() ==> {
            let src = #[trigger] row_sources(row, cells)[k];
            &&& crate::bindings::row_cells_of(row, cells)[k].0 == src.0 as u32
            &&& crate::bindings::row_cells_of(row, cells)[k].1 == src.1 as u32
            &&& crate::bindings::row_cells_of(row, cells)[k].2 == crate::bindings::para_bindings_of(cells[src.1].paragraphs@)
        },
    decreases cells.len(),
{
    if cells.len() > 0 {
        lemma_row_cells(row, cells.drop_last());
        lemma_row_sources_bounds(row, cells.drop_last());
        let a = row_sources(row, cells.drop_last());
        let ac = crate::bindings::row_cells_of(row, cells.drop_last());
        assert forall|k: int| 0 <= k < row_sources(row, cells).len() implies {
            let src = #[trigger] row_sources(row, cells)[k];
            &&& crate::bindings::row_cells_of(row, cells)[k].0 == src.0 as u32
            &&& crate::bindings::row_cells_of(row, cells)[k].1 == src.1 as u32
            &&& crate::bindings::row_cells_of(row, cells)[k].2 == crate::bindings::para_bindings_of(cells[src.1].paragraphs@)
        } by {
            if k < a.len() {
                assert(row_sources(row, cells)[k] == a[k]);
                assert(crate::bindings::row_cells_of(row, cells)[k] == ac[k]);
                assert(source_in_row(row, cells.drop_last(), a[k]));
                assert(cells.drop_last()[a[k].1] == cells[a[k].1]);
            }
        }
    }
}

proof fn lemma_table_cells(rows: Seq<crate::model::TableRow>)
    ensures
        crate::bindings::table_cells_of(rows).len() == cell_sources(rows).len(),
        forall|k: int| 0 <= k < cell_sources(rows).len() ==> cell_bound(
            #[trigger] crate::bindings::table_cells_of(rows)[k],
            rows,
            cell_sources(rows)[k],
        ),
    decreases rows.len(),
{
    if rows.len() > 0 {
        let last = rows.len() - 1;
        lemma_table_cells(rows.drop_last());
        lemma_row_cells(last, rows.last().cells@);
        lemma_cell_sources_rows(rows.drop_last());
        let a = cell_sources(rows.drop_last());
        let ac = crate::bindings::table_cells_of(rows.drop_last());
        assert forall|k: int| 0 <= k < cell_sources(rows).len() implies cell_bound(
            #[trigger] crate::bindings::table_cells_of(rows)[k],
            rows,
            cell_sources(rows)[k],
        ) by {
            if k < a.len() {
                assert(cell_sources(rows)[k] == a[k]);
                assert(crate::bindings::table_cells_of(rows)[k] == ac[k]);
                assert(cell_bound(ac[k], rows.drop_last(), a[k]));
                assert(rows.drop_last()[a[k].0] == rows[a[k].0]);
            } else {
                let j = k - a.len();
                lemma_row_sources_bounds(last, rows.last().cells@);
                let src = row_sources(last, rows.last().cells@)[j];
                assert(source_in_row(last, rows.last().cells@, src));
                assert(cell_sources(rows)[k] == src);
                assert(crate::bindings::table_cells_of(rows)[k] == crate::bindings::row_cells_of(last, rows.last().cells@)[j]);
                assert(rows[src.0] == rows.last());
            }
        }
    }
}

/// The bindings of a block address what lowering it gives: for a paragraph
/// one run binding per lowered run; for a table one cell binding per lowered
/// cell, with one paragraph binding per lowered paragraph and one run binding
/// per lowered run.
pub open spec fn binding_matches(b: crate::bindings::BlockView, l: LoweredBlock) -> bool {
    match (b, l) {
        (crate::bindings::BlockView::Paragraph(_, runs), LoweredBlock::Paragraph(lp)) => runs.len() == lp.runs@.len(),
        (crate::bindings::BlockView::Table(_, cells), LoweredBlock::Table(lt)) => {
            &&& cells.len() == lt.cells@.len()
            &&& forall|k: int| 0 <= k < cells.len() ==> (#[trigger] cells[k]).2.len() == lt.cells@[k].paragraphs@.len()
                && forall|p: int| 0 <= p < cells[k].2.len() ==> (#[trigger] cells[k].2[p]).len() == lt.cells@[k].paragraphs@[p].runs@.len()
        },
        _ => false,
    }
}

/// The bindings built from a document address exactly what lowering the
/// same document gives, block by block (the coordinates save-back resolves
/// through never drift from the lowered story).
pub proof fn law_bindings_match_lowering(doc: DocxDocument, r: LoweredDoc, i: int)
    requires
        lowers(doc, r),
        0 <= i < doc.body@.len(),
    ensures
        binding_matches(crate::bindings::block_binding_of(doc.body@, i), r.story.blocks@[i]),
{
    assert(block_lowered(r.story.blocks@[i], doc.body@[i], i, defaults_base(doc), r.styles@));
    match doc.body@[i] {
        Block::Paragraph(p) => {
            lemma_run_bindings_len(p.runs@);
        },
        Block::Table(t) => {
            lemma_table_cells(t.rows@);
            let lt = r.story.blocks@[i]->Table_0;
            let cells = crate::bindings::table_cells_of(t.rows@);
            assert forall|k: int| 0 <= k < cells.len() implies (#[trigger] cells[k]).2.len() == lt.cells@[k].paragraphs@.len()
                && forall|p: int| 0 <= p < cells[k].2.len() ==> (#[trigger] cells[k].2[p]).len() == lt.cells@[k].paragraphs@[p].runs@.len() by {
                let src = cell_sources(t.rows@)[k];
                assert(cell_bound(cells[k], t.rows@, src));
                assert(cell_matches(lt.cells@[k], t.rows@, src));
                let ps = t.rows@[src.0].cells@[src.1].paragraphs@;
                lemma_para_bindings_len(ps);
                assert(para_shape(lt.cells@[k].paragraphs@) == cell_text_shape(ps));
                assert forall|p: int| 0 <= p < cells[k].2.len() implies (#[trigger] cells[k].2[p]).len() == lt.cells@[k].paragraphs@[p].runs@.len() by {
                    assert(para_shape(lt.cells@[k].paragraphs@)[p] == lowered_texts(lt.cells@[k].paragraphs@[p].runs@));
                }
            }
        },
    }
}

} // verus!
