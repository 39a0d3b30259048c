//! How the library's readers and writers fit together: what the renderer
//! writes for a property, the importer reads back as the same value; what the
//! lowering writes as style properties, the edit diff reads back as the same
//! direct formatting; and the fixed words each writer uses.

use vstd::prelude::*;
use crate::bytes::{sbytes, ubytes};
use crate::diff::{no_props, invert_spec, invert_step, rp_view, swatch_hex_spec, RunPropsV, SwatchV};
use crate::lower::{justification_word, para_props_spec, run_props_spec, swatch_token, PropV, PropView};
use crate::model::{Justification, ParaProps, RunProps};
use crate::rpr::opt_bytes;
use crate::import::{aval, ppr_step_v, rpr_step_v, ParaPropsV};
use crate::model::VertAlign;
use crate::rpr::{jc_piece, rpr_spec, toggle_spec, underline_piece, vert_piece};
use crate::values::{on_spec, vert_align_spec};
use crate::xml::AttrView;

verus! {

/// Characters whose UTF-8 bytes are those of a string literal are that
/// literal's characters.
proof fn lemma_chars_of_bytes(c: Seq<char>, s: &str)
    ensures
        ubytes(c) == sbytes(s) ==> c == s@,
{
    broadcast use vstd::utf8::encode_utf8_decode_utf8;
    if ubytes(c) == sbytes(s) {
        assert(vstd::utf8::decode_utf8(vstd::utf8::encode_utf8(c)) == c);
        assert(vstd::utf8::decode_utf8(vstd::utf8::encode_utf8(s@)) == s@);
    }
}

/// The middle of `a + x + b` is `x`: a written element determines its value.
proof fn lemma_middle(a: Seq<u8>, x: Seq<u8>, y: Seq<u8>, b: Seq<u8>)
    requires
        a + x + b == a + y + b,
    ensures
        x == y,
{
    let s = a + x + b;
    assert((a + x + b).len() == a.len() + x.len() + b.len());
    assert((a + y + b).len() == a.len() + y.len() + b.len());
    assert(x.len() == y.len());
    assert(x =~= s.subrange(a.len() as int, (a.len() + x.len()) as int));
    assert(y =~= (a + y + b).subrange(a.len() as int, (a.len() + y.len()) as int));
}

/// The run-property element names the importer tells apart, as bytes.
proof fn lemma_rpr_names()
    ensures
        sbytes("rFonts").len() == 6,
        sbytes("b").len() == 1,
        sbytes("i").len() == 1,
        sbytes("u").len() == 1,
        sbytes("caps").len() == 4,
        sbytes("smallCaps").len() == 9,
        sbytes("strike").len() == 6,
        sbytes("color").len() == 5,
        sbytes("sz").len() == 2,
        sbytes("vertAlign").len() == 9,
        sbytes("b") != sbytes("i"),
        sbytes("b") != sbytes("u"),
        sbytes("i") != sbytes("u"),
        sbytes("rFonts") != sbytes("strike"),
        sbytes("smallCaps") != sbytes("vertAlign"),
{
    broadcast use vstd::string::is_ascii_spec_bytes;
    reveal_strlit("rFonts");
    reveal_strlit("b");
    reveal_strlit("i");
    reveal_strlit("u");
    reveal_strlit("caps");
    reveal_strlit("smallCaps");
    reveal_strlit("strike");
    reveal_strlit("color");
    reveal_strlit("sz");
    reveal_strlit("vertAlign");
    assert(vstd::string::is_ascii("rFonts"));
    assert(vstd::string::is_ascii("b"));
    assert(vstd::string::is_ascii("i"));
    assert(vstd::string::is_ascii("u"));
    assert(vstd::string::is_ascii("caps"));
    assert(vstd::string::is_ascii("smallCaps"));
    assert(vstd::string::is_ascii("strike"));
    assert(vstd::string::is_ascii("color"));
    assert(vstd::string::is_ascii("sz"));
    assert(vstd::string::is_ascii("vertAlign"));
    assert(sbytes("b")[0] != sbytes("i")[0]);
    assert(sbytes("b")[0] != sbytes("u")[0]);
    assert(sbytes("i")[0] != sbytes("u")[0]);
    assert(sbytes("rFonts")[0] != sbytes("strike")[0]);
    assert(sbytes("smallCaps")[0] != sbytes("vertAlign")[0]);
}

/// The importer reads exactly the words `superscript`, `subscript` and
/// `baseline` as vertical alignments, each as the alignment it names.
pub proof fn law_vert_align_words(v: Seq<char>)
    ensures
        vert_align_spec(v) == Some(VertAlign::Superscript) <==> v == "superscript"@,
        vert_align_spec(v) == Some(VertAlign::Subscript) <==> v == "subscript"@,
        vert_align_spec(v) == Some(VertAlign::Baseline) <==> v == "baseline"@,
{
    reveal_strlit("superscript");
    reveal_strlit("subscript");
    reveal_strlit("baseline");
    assert("superscript"@.len() == 11);
    assert("subscript"@.len() == 9);
    assert("baseline"@.len() == 8);
}

/// The `<w:vertAlign>` element the renderer writes for an alignment, read
/// back by the importer (its `w:val` word, as the attribute reader gives it),
/// sets the run's alignment to that same alignment.
pub proof fn law_vert_align_read_back(va: VertAlign, c: Seq<char>, av: Seq<AttrView>, o: RunPropsV)
    requires
        vert_piece(Some(va)) == sbytes("<w:vertAlign w:val=\"") + ubytes(c) + sbytes("\"/>"),
        aval(av, "val") == Some(c),
    ensures
        rpr_step_v(o, sbytes("vertAlign"), av, true).vert_align == Some(va),
{
    reveal_strlit("superscript");
    reveal_strlit("subscript");
    reveal_strlit("baseline");
    let w = match va {
        VertAlign::Baseline => "baseline",
        VertAlign::Superscript => "superscript",
        VertAlign::Subscript => "subscript",
    };
    lemma_middle(sbytes("<w:vertAlign w:val=\""), crate::rpr::vert_word(va), ubytes(c), sbytes("\"/>"));
    lemma_chars_of_bytes(c, w);
    assert(c == w@);
    lemma_rpr_names();
}

/// Reading back one more property (or none) after a list of them.
proof fn lemma_invert_add(ps: Seq<PropView>, q: Seq<PropView>, sw: Seq<SwatchV>)
    requires
        q.len() <= 1,
    ensures
        invert_spec(ps + q, sw) == if q.len() == 0 {
            invert_spec(ps, sw)
        } else {
            invert_step(invert_spec(ps, sw), q[0], sw)
        },
{
    if q.len() == 0 {
        assert(ps + q =~= ps);
    } else {
        assert((ps + q).drop_last() =~= ps);
        assert((ps + q).last() == q[0]);
    }
}

/// The style property paths and words the lowering writes for run
/// properties, as characters.
proof fn lemma_run_words()
    ensures
        "characterFontFamily"@.len() == 19,
        "characterFontStyle"@.len() == 18,
        "characterPosition"@.len() == 17,
        "characterCase"@.len() == 13,
        "characterFontSize"@.len() == 17,
        "characterBaselineShift"@.len() == 22,
        "characterFillColor"@.len() == 18,
        "characterUnderline"@.len() == 18,
        "characterStrikethru"@.len() == 19,
        "Bold Italic"@.len() == 11,
        "Bold"@.len() == 4,
        "Italic"@.len() == 6,
        "Regular"@.len() == 7,
        "Superscript"@.len() == 11,
        "Subscript"@.len() == 9,
        "SmallCaps"@.len() == 9,
        "AllCaps"@.len() == 7,
{
    reveal_strlit("characterFontFamily");
    reveal_strlit("characterFontStyle");
    reveal_strlit("characterPosition");
    reveal_strlit("characterCase");
    reveal_strlit("characterFontSize");
    reveal_strlit("characterBaselineShift");
    reveal_strlit("characterFillColor");
    reveal_strlit("characterUnderline");
    reveal_strlit("characterStrikethru");
    reveal_strlit("Bold Italic");
    reveal_strlit("Bold");
    reveal_strlit("Italic");
    reveal_strlit("Regular");
    reveal_strlit("Superscript");
    reveal_strlit("Subscript");
    reveal_strlit("SmallCaps");
    reveal_strlit("AllCaps");
}

/// Reading back the style properties the lowering writes for a run's direct
/// formatting gives that formatting again: font, underline, strike-through,
/// size and baseline shift as they were; superscript and subscript as they
/// were (baseline is the default and writes nothing); bold and italic as set
/// or not (both, when either was given); small caps, else all caps, when on;
/// and the color as the swatch its token names.
#[verifier::rlimit(100)]
#[verifier::spinoff_prover]
pub proof fn law_run_props_read_back(r: RunProps, sw: Seq<SwatchV>)
    ensures
        ({
            let x = invert_spec(run_props_spec(r), sw);
            &&& x.font == opt_bytes(r.font)
            &&& x.underline == r.underline
            &&& x.strike == r.strike
            &&& x.size_half_pts == r.size_half_pts
            &&& x.baseline_half_pts == r.baseline_half_pts
            &&& x.vert_align == (if r.vert_align == Some(VertAlign::Baseline) { None } else { r.vert_align })
            &&& (r.bold is Some || r.italic is Some) ==> x.bold == Some(r.bold == Some(true)) && x.italic == Some(r.italic == Some(true))
            &&& !(r.bold is Some || r.italic is Some) ==> x.bold is None && x.italic is None
            &&& x.small_caps == (if r.small_caps == Some(true) { Some(true) } else { None })
            &&& x.caps == (if r.small_caps != Some(true) && r.caps == Some(true) { Some(true) } else { None })
            &&& x.color == (match r.color {
                Some(h) => swatch_hex_spec(sw, swatch_token(h@)),
                None => None,
            })
        }),
{
    lemma_run_words();
    let p1 = crate::lower::prop_if(r.font is Some, "characterFontFamily"@, PropV::Text(crate::lower::opt_chars(r.font)->0));
    let p2 = crate::lower::prop_if(r.bold is Some || r.italic is Some, "characterFontStyle"@, PropV::Text(crate::lower::font_style_word(
        r.bold == Some(true),
        r.italic == Some(true),
    )));
    let p3 = crate::lower::prop_if(r.size_half_pts is Some, "characterFontSize"@, PropV::Length(r.size_half_pts->0 as int * 10));
    let p4 = crate::lower::prop_if(r.color is Some, "characterFillColor"@, PropV::ColorRef(swatch_token(crate::lower::opt_chars(r.color)->0)));
    let p5 = crate::lower::prop_if(r.underline is Some, "characterUnderline"@, PropV::Bool(r.underline->0));
    let p6 = crate::lower::prop_if(r.strike is Some, "characterStrikethru"@, PropV::Bool(r.strike->0));
    let p7 = crate::lower::position_prop(r.vert_align);
    let p8 = crate::lower::case_prop(r);
    let p9 = crate::lower::prop_if(r.baseline_half_pts is Some, "characterBaselineShift"@, PropV::Length(r.baseline_half_pts->0 as int * 10));
    let e = Seq::<PropView>::empty();
    assert(run_props_spec(r) == e + p1 + p2 + p3 + p4 + p5 + p6 + p7 + p8 + p9) by {
        assert(e + p1 =~= p1);
    }
    lemma_invert_add(e, p1, sw);
    lemma_invert_add(e + p1, p2, sw);
    lemma_invert_add(e + p1 + p2, p3, sw);
    lemma_invert_add(e + p1 + p2 + p3, p4, sw);
    lemma_invert_add(e + p1 + p2 + p3 + p4, p5, sw);
    lemma_invert_add(e + p1 + p2 + p3 + p4 + p5, p6, sw);
    lemma_invert_add(e + p1 + p2 + p3 + p4 + p5 + p6, p7, sw);
    lemma_invert_add(e + p1 + p2 + p3 + p4 + p5 + p6 + p7, p8, sw);
    lemma_invert_add(e + p1 + p2 + p3 + p4 + p5 + p6 + p7 + p8, p9, sw);
    assert(invert_spec(e, sw) == crate::diff::no_props());
    if r.size_half_pts is Some {
        let n = r.size_half_pts->0 as int;
        assert(crate::diff::half_points(n * 10) == n);
    }
    if r.baseline_half_pts is Some {
        let n = r.baseline_half_pts->0 as int;
        assert(crate::diff::half_points(n * 10) == n);
    }
}

/// For direct formatting in the form the lowering keeps (bold and italic
/// given together, caps and small caps only ever on and not both, no
/// explicit baseline alignment, no color), lowering and reading back is the
/// identity.
pub proof fn law_run_props_round_trip(r: RunProps, sw: Seq<SwatchV>)
    requires
        r.bold is Some <==> r.italic is Some,
        r.caps != Some(false),
        r.small_caps != Some(false),
        !(r.caps == Some(true) && r.small_caps == Some(true)),
        r.vert_align != Some(VertAlign::Baseline),
        r.color is None,
    ensures
        invert_spec(run_props_spec(r), sw) == rp_view(r),
{
    law_run_props_read_back(r, sw);
    let x = invert_spec(run_props_spec(r), sw);
    assert(x.bold == r.bold && x.italic == r.italic);
    assert(x.small_caps == (if r.small_caps == Some(true) { Some(true) } else { None }));
    assert(r.small_caps is None || r.small_caps == Some(true));
    assert(x.small_caps == r.small_caps);
    if r.caps == Some(true) {
        assert(r.small_caps != Some(true));
    }
    assert(x.caps == (if r.small_caps != Some(true) && r.caps == Some(true) { Some(true) } else { None }));
    assert(r.caps is None || r.caps == Some(true));
    assert(x.caps == r.caps);
    assert(x == rp_view(r));
}

/// The justification word the lowering writes for each alignment: left and
/// start as `LeftAlign`, center as `CenterAlign`, right and end as
/// `RightAlign`, both as `LeftJustified`, distribute as `FullyJustified`; it
/// is the first property of the paragraph's lowered formatting.
pub proof fn law_justification_words(p: ParaProps)
    ensures
        p.justification is Some ==> para_props_spec(p)[0].0 == "paragraphJustification"@,
        p.justification == Some(Justification::Left) || p.justification == Some(Justification::Start) ==> para_props_spec(p)[0].1
            == PropV::Text("LeftAlign"@),
        p.justification == Some(Justification::Center) ==> para_props_spec(p)[0].1 == PropV::Text("CenterAlign"@),
        p.justification == Some(Justification::Right) || p.justification == Some(Justification::End) ==> para_props_spec(p)[0].1
            == PropV::Text("RightAlign"@),
        p.justification == Some(Justification::Both) ==> para_props_spec(p)[0].1 == PropV::Text("LeftJustified"@),
        p.justification == Some(Justification::Distribute) ==> para_props_spec(p)[0].1 == PropV::Text("FullyJustified"@),
{
    if p.justification is Some {
        let j = crate::lower::prop_if(true, "paragraphJustification"@, PropV::Text(justification_word(p.justification->0)));
        assert(para_props_spec(p)[0] == j[0]);
    }
}

/// Alignments that lay out differently lower to different words: two
/// alignments share a word only when they are the same side (left and start,
/// right and end) or the same alignment.
pub proof fn law_justification_words_distinct(a: Justification, b: Justification)
    ensures
        justification_word(a) == justification_word(b) <==> (a == b || (a == Justification::Left && b == Justification::Start) || (
        a == Justification::Start && b == Justification::Left) || (a == Justification::Right && b == Justification::End) || (a
            == Justification::End && b == Justification::Right)),
{
    reveal_strlit("LeftAlign");
    reveal_strlit("CenterAlign");
    reveal_strlit("RightAlign");
    reveal_strlit("LeftJustified");
    reveal_strlit("FullyJustified");
    assert("LeftAlign"@.len() == 9);
    assert("CenterAlign"@.len() == 11);
    assert("RightAlign"@.len() == 10);
    assert("LeftJustified"@.len() == 13);
    assert("FullyJustified"@.len() == 14);
}

/// The attribute text `rest` of a written element (what follows its name),
/// as the attribute reader gives it: no `w:val` for a bare `/>`, and the
/// characters of the value for ` w:val="…"/>`.
pub open spec fn val_attr(rest: Seq<u8>, av: Seq<AttrView>) -> bool {
    ||| rest == sbytes("/>") && aval(av, "val") is None
    ||| exists|c: Seq<char>| rest == sbytes(" w:val=\"") + ubytes(c) + sbytes("\"/>") && aval(av, "val") == Some(c)
}

/// `p + x == p + y` gives `x == y`.
proof fn lemma_tail(p: Seq<u8>, x: Seq<u8>, y: Seq<u8>)
    requires
        p + x == p + y,
    ensures
        x == y,
{
    assert((p + x).len() == p.len() + x.len());
    assert((p + y).len() == p.len() + y.len());
    assert(x =~= (p + x).subrange(p.len() as int, (p + x).len() as int));
    assert(y =~= (p + y).subrange(p.len() as int, (p + y).len() as int));
}

/// An element written with the value `w` in `w:val` reads back as `w`; one
/// written bare reads back with no value.
proof fn lemma_val_attr(rest: Seq<u8>, av: Seq<AttrView>, w: &str)
    requires
        val_attr(rest, av),
        rest == sbytes(" w:val=\"") + sbytes(w) + sbytes("\"/>") || rest == sbytes("/>"),
    ensures
        rest == sbytes("/>") ==> aval(av, "val") is None,
        rest != sbytes("/>") ==> aval(av, "val") == Some(w@),
{
    broadcast use vstd::string::is_ascii_spec_bytes;
    reveal_strlit("/>");
    reveal_strlit(" w:val=\"");
    reveal_strlit("\"/>");
    assert(vstd::string::is_ascii("/>"));
    assert(vstd::string::is_ascii(" w:val=\""));
    assert(vstd::string::is_ascii("\"/>"));
    assert(sbytes("/>").len() == 2);
    assert(sbytes(" w:val=\"").len() == 8);
    if rest == sbytes("/>") {
        if !(aval(av, "val") is None) {
            let c = choose|c: Seq<char>| rest == sbytes(" w:val=\"") + ubytes(c) + sbytes("\"/>") && aval(av, "val") == Some(c);
            assert((sbytes(" w:val=\"") + ubytes(c) + sbytes("\"/>")).len() >= 8);
        }
    } else {
        assert((sbytes(" w:val=\"") + sbytes(w) + sbytes("\"/>")).len() >= 8);
        assert(rest != sbytes("/>") ==> !(rest == sbytes("/>") && aval(av, "val") is None));
        let c = choose|c: Seq<char>| rest == sbytes(" w:val=\"") + ubytes(c) + sbytes("\"/>") && aval(av, "val") == Some(c);
        lemma_middle(sbytes(" w:val=\""), ubytes(c), sbytes(w), sbytes("\"/>"));
        lemma_chars_of_bytes(c, w);
    }
}

/// A literal `<w:NAME w:val="W"/>` (or `<w:NAME/>`) is the pieces it is
/// made of.
proof fn lemma_elem_lit(whole: &str, name: &str, w: &str)
    requires
        whole@ == "<w:"@ + name@ + " w:val=\""@ + w@ + "\"/>"@,
        vstd::string::is_ascii(whole),
        vstd::string::is_ascii("<w:"),
        vstd::string::is_ascii(name),
        vstd::string::is_ascii(" w:val=\""),
        vstd::string::is_ascii(w),
        vstd::string::is_ascii("\"/>"),
    ensures
        sbytes(whole) == sbytes("<w:") + sbytes(name) + (sbytes(" w:val=\"") + sbytes(w) + sbytes("\"/>")),
{
    broadcast use vstd::string::is_ascii_spec_bytes;
    assert(sbytes(whole) =~= sbytes("<w:") + sbytes(name) + (sbytes(" w:val=\"") + sbytes(w) + sbytes("\"/>")));
}

/// The run-property toggles the renderer writes (`b`, `i`, `caps`,
/// `smallCaps`, `strike`), read back by the importer from the element's
/// attribute text, give the toggle's value: `<w:NAME/>` on,
/// `<w:NAME w:val="false"/>` off.
pub proof fn law_toggles_read_back(v: bool, rest: Seq<u8>, av: Seq<AttrView>, o: RunPropsV)
    requires
        val_attr(rest, av),
    ensures
        toggle_spec(sbytes("b"), Some(v)) == sbytes("<w:") + sbytes("b") + rest ==> rpr_step_v(o, sbytes("b"), av, true).bold == Some(v),
        toggle_spec(sbytes("i"), Some(v)) == sbytes("<w:") + sbytes("i") + rest ==> rpr_step_v(o, sbytes("i"), av, true).italic == Some(v),
        toggle_spec(sbytes("caps"), Some(v)) == sbytes("<w:") + sbytes("caps") + rest ==> rpr_step_v(o, sbytes("caps"), av, true).caps == Some(v),
        toggle_spec(sbytes("smallCaps"), Some(v)) == sbytes("<w:") + sbytes("smallCaps") + rest ==> rpr_step_v(o, sbytes("smallCaps"), av, true).small_caps
            == Some(v),
        toggle_spec(sbytes("strike"), Some(v)) == sbytes("<w:") + sbytes("strike") + rest ==> rpr_step_v(o, sbytes("strike"), av, true).strike
            == Some(v),
{
    lemma_rpr_names();
    lemma_toggle_read(v, rest, av, "b");
    lemma_toggle_read(v, rest, av, "i");
    lemma_toggle_read(v, rest, av, "caps");
    lemma_toggle_read(v, rest, av, "smallCaps");
    lemma_toggle_read(v, rest, av, "strike");
}

proof fn lemma_toggle_read(v: bool, rest: Seq<u8>, av: Seq<AttrView>, n: &str)
    requires
        val_attr(rest, av),
    ensures
        toggle_spec(sbytes(n), Some(v)) == sbytes("<w:") + sbytes(n) + rest ==> on_spec(aval(av, "val")) == v,
{
    if toggle_spec(sbytes(n), Some(v)) == sbytes("<w:") + sbytes(n) + rest {
        broadcast use vstd::string::is_ascii_spec_bytes;
        reveal_strlit(" w:val=\"false\"/>");
        reveal_strlit(" w:val=\"");
        reveal_strlit("false");
        reveal_strlit("\"/>");
        assert(vstd::string::is_ascii(" w:val=\"false\"/>"));
        assert(vstd::string::is_ascii(" w:val=\""));
        assert(vstd::string::is_ascii("false"));
        assert(vstd::string::is_ascii("\"/>"));
        let pre = sbytes("<w:") + sbytes(n);
        if v {
            assert(toggle_spec(sbytes(n), Some(v)) == pre + sbytes("/>"));
            lemma_tail(pre, rest, sbytes("/>"));
            lemma_val_attr(rest, av, "false");
        } else {
            assert(sbytes(" w:val=\"false\"/>") =~= sbytes(" w:val=\"") + sbytes("false") + sbytes("\"/>"));
            assert(toggle_spec(sbytes(n), Some(v)) == pre + sbytes(" w:val=\"false\"/>"));
            lemma_tail(pre, rest, sbytes(" w:val=\"false\"/>"));
            reveal_strlit("/>");
            assert(vstd::string::is_ascii("/>"));
            assert(sbytes("/>").len() == 2);
            assert(rest.len() == 16);
            lemma_val_attr(rest, av, "false");
            assert(aval(av, "val") == Some("false"@));
            reveal_strlit("true");
            reveal_strlit("on");
            reveal_strlit("1");
            assert("false"@.len() == 5 && "true"@.len() == 4 && "on"@.len() == 2 && "1"@.len() == 1);
        }
    }
}

/// The `<w:u>` element the renderer writes for an underline, read back by the
/// importer from its attribute text, gives that underline: `single` on,
/// `none` off.
pub proof fn law_underline_read_back(v: bool, rest: Seq<u8>, av: Seq<AttrView>, o: RunPropsV, full: bool)
    requires
        underline_piece(Some(v)) == sbytes("<w:") + sbytes("u") + rest,
        val_attr(rest, av),
    ensures
        rpr_step_v(o, sbytes("u"), av, full).underline == Some(v),
{
    lemma_rpr_names();
    broadcast use vstd::string::is_ascii_spec_bytes;
    reveal_strlit("<w:u w:val=\"single\"/>");
    reveal_strlit("<w:u w:val=\"none\"/>");
    reveal_strlit("<w:");
    reveal_strlit("u");
    reveal_strlit(" w:val=\"");
    reveal_strlit("single");
    reveal_strlit("none");
    reveal_strlit("\"/>");
    reveal_strlit("/>");
    assert(vstd::string::is_ascii("<w:u w:val=\"single\"/>"));
    assert(vstd::string::is_ascii("<w:u w:val=\"none\"/>"));
    assert(vstd::string::is_ascii("<w:"));
    assert(vstd::string::is_ascii("u"));
    assert(vstd::string::is_ascii(" w:val=\""));
    assert(vstd::string::is_ascii("single"));
    assert(vstd::string::is_ascii("none"));
    assert(vstd::string::is_ascii("\"/>"));
    assert(vstd::string::is_ascii("/>"));
    let pre = sbytes("<w:") + sbytes("u");
    let w = if v { "single" } else { "none" };
    let whole = if v { "<w:u w:val=\"single\"/>" } else { "<w:u w:val=\"none\"/>" };
    assert(whole@ =~= "<w:"@ + "u"@ + " w:val=\""@ + w@ + "\"/>"@);
    lemma_elem_lit(whole, "u", w);
    lemma_tail(pre, rest, sbytes(" w:val=\"") + sbytes(w) + sbytes("\"/>"));
    assert(rest.len() > 2);
    lemma_val_attr(rest, av, w);
    assert("single"@.len() == 6 && "none"@.len() == 4);
}

/// The `<w:jc>` element the renderer writes for an alignment, read back by
/// the importer from its attribute text, gives that alignment (start as
/// left, end as right: the words Word writes for them).
pub proof fn law_jc_read_back(j: Justification, rest: Seq<u8>, av: Seq<AttrView>, p: ParaPropsV, keeps: bool)
    requires
        jc_piece(Some(j)) == sbytes("<w:") + sbytes("jc") + rest,
        val_attr(rest, av),
    ensures
        ppr_step_v(p, sbytes("jc"), av, keeps).justification == Some(
            match j {
                Justification::Start => Justification::Left,
                Justification::End => Justification::Right,
                _ => j,
            },
        ),
{
    broadcast use vstd::string::is_ascii_spec_bytes;
    reveal_strlit("<w:jc w:val=\"");
    reveal_strlit("<w:");
    reveal_strlit("jc");
    reveal_strlit(" w:val=\"");
    reveal_strlit("\"/>");
    reveal_strlit("/>");
    reveal_strlit("left");
    reveal_strlit("start");
    reveal_strlit("center");
    reveal_strlit("right");
    reveal_strlit("end");
    reveal_strlit("both");
    reveal_strlit("distribute");
    reveal_strlit("thaiDistribute");
    assert(vstd::string::is_ascii("<w:jc w:val=\""));
    assert(vstd::string::is_ascii("<w:"));
    assert(vstd::string::is_ascii("jc"));
    assert(vstd::string::is_ascii(" w:val=\""));
    assert(vstd::string::is_ascii("\"/>"));
    assert(vstd::string::is_ascii("/>"));
    let w = match j {
        Justification::Left | Justification::Start => "left",
        Justification::Center => "center",
        Justification::Right | Justification::End => "right",
        Justification::Both => "both",
        Justification::Distribute => "distribute",
    };
    assert(crate::rpr::jc_word(j) == sbytes(w));
    let pre = sbytes("<w:") + sbytes("jc");
    assert(sbytes("<w:jc w:val=\"") =~= pre + sbytes(" w:val=\""));
    assert(jc_piece(Some(j)) =~= pre + (sbytes(" w:val=\"") + sbytes(w) + sbytes("\"/>")));
    lemma_tail(pre, rest, sbytes(" w:val=\"") + sbytes(w) + sbytes("\"/>"));
    assert(rest.len() > 2);
    lemma_val_attr(rest, av, w);
    assert("left"@.len() == 4 && "start"@.len() == 5 && "center"@.len() == 6 && "right"@.len() == 5 && "end"@.len() == 3);
    assert("both"@.len() == 4 && "distribute"@.len() == 10 && "thaiDistribute"@.len() == 14);
}

/// A child element as written: its name and the attribute text after it.
pub type Child = (Seq<u8>, Seq<u8>);

/// The bytes of child elements in order, each `<w:` + name + attribute
/// text.
pub open spec fn children_bytes(es: Seq<Child>) -> Seq<u8>
    decreases es.len(),
{
    if es.len() == 0 {
        Seq::empty()
    } else {
        children_bytes(es.drop_last()) + sbytes("<w:") + es.last().0 + es.last().1
    }
}

/// The importer's run properties after reading the child elements in order,
/// each with the attributes the reader gives for it.
pub open spec fn read_children(o: RunPropsV, es: Seq<Child>, avs: Seq<Seq<AttrView>>) -> RunPropsV
    decreases es.len(),
{
    if es.len() == 0 || avs.len() != es.len() {
        o
    } else {
        rpr_step_v(read_children(o, es.drop_last(), avs.drop_last()), es.last().0, avs.last(), true)
    }
}

/// Each child's attributes are what the reader gives for its attribute text.
pub open spec fn attrs_read(es: Seq<Child>, avs: Seq<Seq<AttrView>>) -> bool {
    avs.len() == es.len() && forall|k: int| 0 <= k < es.len() ==> val_attr(#[trigger] es[k].1, avs[k])
}

/// The child a toggle is written as, if any.
pub open spec fn toggle_child(n: &str, v: Option<bool>) -> Seq<Child> {
    match v {
        Some(true) => seq![(sbytes(n), sbytes("/>"))],
        Some(false) => seq![(sbytes(n), sbytes(" w:val=\"false\"/>"))],
        None => Seq::empty(),
    }
}

/// The child a `w:val` element is written as, if any.
pub open spec fn val_child(n: &str, w: Option<Seq<u8>>) -> Seq<Child> {
    match w {
        Some(x) => seq![(sbytes(n), sbytes(" w:val=\"") + x + sbytes("\"/>"))],
        None => Seq::empty(),
    }
}

proof fn lemma_children_add(es: Seq<Child>, q: Seq<Child>)
    requires
        q.len() <= 1,
    ensures
        children_bytes(es + q) == children_bytes(es) + children_bytes(q),
{
    if q.len() == 0 {
        assert(es + q =~= es);
        assert(children_bytes(es) + children_bytes(q) =~= children_bytes(es));
    } else {
        assert((es + q).drop_last() =~= es);
        assert(q.drop_last() =~= Seq::<Child>::empty());
        assert(children_bytes(Seq::<Child>::empty()) == Seq::<u8>::empty());
        assert(q.last() == q[0]);
        assert(children_bytes(q) =~= sbytes("<w:") + q[0].0 + q[0].1);
        assert(children_bytes(es + q) =~= children_bytes(es) + children_bytes(q));
    }
}

proof fn lemma_read_add(o: RunPropsV, es: Seq<Child>, q: Seq<Child>, avs: Seq<Seq<AttrView>>)
    requires
        q.len() <= 1,
        avs.len() == es.len() + q.len(),
    ensures
        read_children(o, es + q, avs) == if q.len() == 0 {
            read_children(o, es, avs)
        } else {
            rpr_step_v(read_children(o, es, avs.drop_last()), q[0].0, avs.last(), true)
        },
{
    if q.len() == 0 {
        assert(es + q =~= es);
    } else {
        assert((es + q).drop_last() =~= es);
    }
}

/// The `<w:rPr>` the renderer writes for run properties is a sequence of
/// child elements which, read back by the importer (each with the
/// attributes the reader gives for its attribute text), give those
/// properties again: the toggles, the underline and the vertical alignment
/// as they were. (Fonts, colors, sizes and baseline shifts are left out of
/// this statement.)
pub proof fn law_rpr_read_back(p: RunProps)
    requires
        p.font is None,
        p.color is None,
        p.size_half_pts is None,
        p.baseline_half_pts is None,
    ensures
        exists|es: Seq<Child>|
            {
                &&& rpr_spec(p, None) == sbytes("<w:rPr>") + children_bytes(es) + sbytes("</w:rPr>")
                &&& forall|avs: Seq<Seq<AttrView>>| #[trigger] attrs_read(es, avs) ==> read_children(no_props(), es, avs) == rp_view(p)
            },
{
    lemma_rpr_names();
    lemma_pieces(p);
    let es = rpr_children(p);
    assert forall|avs: Seq<Seq<AttrView>>| #[trigger] attrs_read(es, avs) implies read_children(no_props(), es, avs) == rp_view(p) by {
        lemma_read_pieces(p, avs);
    }
}

/// The children the renderer writes for run properties (without fonts,
/// colors, sizes or baseline shifts), in order.
pub open spec fn rpr_children(p: RunProps) -> Seq<Child> {
    toggle_child("b", p.bold) + toggle_child("i", p.italic) + toggle_child("caps", p.caps) + toggle_child("smallCaps", p.small_caps)
        + toggle_child("strike", p.strike) + val_child("u", match p.underline {
        Some(true) => Some(sbytes("single")),
        Some(false) => Some(sbytes("none")),
        None => None,
    }) + val_child("vertAlign", match p.vert_align {
        Some(va) => Some(crate::rpr::vert_word(va)),
        None => None,
    })
}

/// The literals the underline and alignment elements are made of.
proof fn lemma_piece_lits()
    ensures
        sbytes("<w:u w:val=\"single\"/>") == sbytes("<w:") + sbytes("u") + (sbytes(" w:val=\"") + sbytes("single") + sbytes("\"/>")),
        sbytes("<w:u w:val=\"none\"/>") == sbytes("<w:") + sbytes("u") + (sbytes(" w:val=\"") + sbytes("none") + sbytes("\"/>")),
        sbytes("<w:vertAlign w:val=\"") == sbytes("<w:") + sbytes("vertAlign") + sbytes(" w:val=\""),
        sbytes(" w:val=\"false\"/>") == sbytes(" w:val=\"") + sbytes("false") + sbytes("\"/>"),
{
    broadcast use vstd::string::is_ascii_spec_bytes;
    reveal_strlit("<w:u w:val=\"single\"/>");
    reveal_strlit("<w:u w:val=\"none\"/>");
    reveal_strlit("<w:vertAlign w:val=\"");
    reveal_strlit(" w:val=\"false\"/>");
    reveal_strlit("<w:");
    reveal_strlit("u");
    reveal_strlit("vertAlign");
    reveal_strlit(" w:val=\"");
    reveal_strlit("single");
    reveal_strlit("none");
    reveal_strlit("false");
    reveal_strlit("\"/>");
    assert(vstd::string::is_ascii("<w:u w:val=\"single\"/>"));
    assert(vstd::string::is_ascii("<w:u w:val=\"none\"/>"));
    assert(vstd::string::is_ascii("<w:vertAlign w:val=\""));
    assert(vstd::string::is_ascii(" w:val=\"false\"/>"));
    assert(vstd::string::is_ascii("<w:"));
    assert(vstd::string::is_ascii("u"));
    assert(vstd::string::is_ascii("vertAlign"));
    assert(vstd::string::is_ascii(" w:val=\""));
    assert(vstd::string::is_ascii("single"));
    assert(vstd::string::is_ascii("none"));
    assert(vstd::string::is_ascii("false"));
    assert(vstd::string::is_ascii("\"/>"));
    assert(sbytes("<w:u w:val=\"single\"/>") =~= sbytes("<w:") + sbytes("u") + (sbytes(" w:val=\"") + sbytes("single") + sbytes("\"/>")));
    assert(sbytes("<w:u w:val=\"none\"/>") =~= sbytes("<w:") + sbytes("u") + (sbytes(" w:val=\"") + sbytes("none") + sbytes("\"/>")));
    assert(sbytes("<w:vertAlign w:val=\"") =~= sbytes("<w:") + sbytes("vertAlign") + sbytes(" w:val=\""));
    assert(sbytes(" w:val=\"false\"/>") =~= sbytes(" w:val=\"") + sbytes("false") + sbytes("\"/>"));
}

/// A toggle's child is written as the toggle's element.
proof fn lemma_child_toggle(n: &str, v: Option<bool>)
    ensures
        children_bytes(toggle_child(n, v)) == toggle_spec(sbytes(n), v),
{
    lemma_piece_lits();
    let c = toggle_child(n, v);
    assert(children_bytes(Seq::<Child>::empty()) == Seq::<u8>::empty());
    if c.len() > 0 {
        assert(c.drop_last() =~= Seq::<Child>::empty());
        assert(children_bytes(c) =~= toggle_spec(sbytes(n), v));
    }
}

/// The underline's child is written as the underline element.
proof fn lemma_child_u(v: Option<bool>)
    ensures
        children_bytes(val_child("u", match v {
            Some(true) => Some(sbytes("single")),
            Some(false) => Some(sbytes("none")),
            None => None,
        })) == underline_piece(v),
{
    lemma_piece_lits();
    let c = val_child("u", match v {
        Some(true) => Some(sbytes("single")),
        Some(false) => Some(sbytes("none")),
        None => None,
    });
    assert(children_bytes(Seq::<Child>::empty()) == Seq::<u8>::empty());
    if c.len() > 0 {
        assert(c.drop_last() =~= Seq::<Child>::empty());
        assert(children_bytes(c) =~= underline_piece(v));
    }
}

/// The alignment's child is written as the alignment element.
proof fn lemma_child_vert(v: Option<VertAlign>)
    ensures
        children_bytes(val_child("vertAlign", match v {
            Some(va) => Some(crate::rpr::vert_word(va)),
            None => None,
        })) == vert_piece(v),
{
    lemma_piece_lits();
    let c = val_child("vertAlign", match v {
        Some(va) => Some(crate::rpr::vert_word(va)),
        None => None,
    });
    assert(children_bytes(Seq::<Child>::empty()) == Seq::<u8>::empty());
    if c.len() > 0 {
        assert(c.drop_last() =~= Seq::<Child>::empty());
        assert(children_bytes(c) =~= vert_piece(v));
    }
}

/// The rendered `<w:rPr>` is its children's bytes between the open and close
/// tags.
#[verifier::rlimit(100)]
#[verifier::spinoff_prover]
proof fn lemma_pieces(p: RunProps)
    requires
        p.font is None,
        p.color is None,
        p.size_half_pts is None,
        p.baseline_half_pts is None,
    ensures
        rpr_spec(p, None) == sbytes("<w:rPr>") + children_bytes(rpr_children(p)) + sbytes("</w:rPr>"),
{
    let e = Seq::<Child>::empty();
    let c1 = toggle_child("b", p.bold);
    let c2 = toggle_child("i", p.italic);
    let c3 = toggle_child("caps", p.caps);
    let c4 = toggle_child("smallCaps", p.small_caps);
    let c5 = toggle_child("strike", p.strike);
    let c6 = val_child("u", match p.underline {
        Some(true) => Some(sbytes("single")),
        Some(false) => Some(sbytes("none")),
        None => None,
    });
    let c7 = val_child("vertAlign", match p.vert_align {
        Some(va) => Some(crate::rpr::vert_word(va)),
        None => None,
    });
    assert(rpr_children(p) == e + c1 + c2 + c3 + c4 + c5 + c6 + c7) by {
        assert(e + c1 =~= c1);
    }
    assert(children_bytes(e) == Seq::<u8>::empty());
    lemma_children_add(e, c1);
    lemma_children_add(e + c1, c2);
    lemma_children_add(e + c1 + c2, c3);
    lemma_children_add(e + c1 + c2 + c3, c4);
    lemma_children_add(e + c1 + c2 + c3 + c4, c5);
    lemma_children_add(e + c1 + c2 + c3 + c4 + c5, c6);
    lemma_children_add(e + c1 + c2 + c3 + c4 + c5 + c6, c7);
    lemma_child_toggle("b", p.bold);
    lemma_child_toggle("i", p.italic);
    lemma_child_toggle("caps", p.caps);
    lemma_child_toggle("smallCaps", p.small_caps);
    lemma_child_toggle("strike", p.strike);
    lemma_child_u(p.underline);
    lemma_child_vert(p.vert_align);
    let t1 = toggle_spec(sbytes("b"), p.bold);
    let t2 = toggle_spec(sbytes("i"), p.italic);
    let t3 = toggle_spec(sbytes("caps"), p.caps);
    let t4 = toggle_spec(sbytes("smallCaps"), p.small_caps);
    let t5 = toggle_spec(sbytes("strike"), p.strike);
    let t6 = underline_piece(p.underline);
    let t7 = vert_piece(p.vert_align);
    assert(children_bytes(rpr_children(p)) =~= t1 + t2 + t3 + t4 + t5 + t6 + t7);
    lemma_rpr_spec_parts(p);
}

/// The rendered `<w:rPr>` without fonts, colors, sizes or baseline shifts.
proof fn lemma_rpr_spec_parts(p: RunProps)
    requires
        p.font is None,
        p.color is None,
        p.size_half_pts is None,
        p.baseline_half_pts is None,
    ensures
        rpr_spec(p, None) == sbytes("<w:rPr>") + (toggle_spec(sbytes("b"), p.bold) + toggle_spec(sbytes("i"), p.italic) + toggle_spec(
            sbytes("caps"),
            p.caps,
        ) + toggle_spec(sbytes("smallCaps"), p.small_caps) + toggle_spec(sbytes("strike"), p.strike) + underline_piece(p.underline)
            + vert_piece(p.vert_align)) + sbytes("</w:rPr>"),
{
    reveal(rpr_spec);
    let t1 = toggle_spec(sbytes("b"), p.bold);
    let t2 = toggle_spec(sbytes("i"), p.italic);
    let t3 = toggle_spec(sbytes("caps"), p.caps);
    let t4 = toggle_spec(sbytes("smallCaps"), p.small_caps);
    let t5 = toggle_spec(sbytes("strike"), p.strike);
    let t6 = underline_piece(p.underline);
    let t7 = vert_piece(p.vert_align);
    assert(crate::rpr::val_elem(sbytes("<w:rStyle w:val=\""), None) == Seq::<u8>::empty());
    assert(crate::rpr::val_elem(sbytes("<w:rFonts w:ascii=\""), opt_bytes(p.font)) == Seq::<u8>::empty());
    assert(crate::rpr::val_elem(sbytes("<w:color w:val=\""), opt_bytes(p.color)) == Seq::<u8>::empty());
    assert(crate::rpr::position_piece(p.baseline_half_pts) == Seq::<u8>::empty());
    assert(crate::rpr::size_piece(p.size_half_pts) == Seq::<u8>::empty());
    assert(rpr_spec(p, None) =~= sbytes("<w:rPr>") + (t1 + t2 + t3 + t4 + t5 + t6 + t7) + sbytes("</w:rPr>"));
}

/// Reading one more child (or none) after a prefix of the children.
proof fn lemma_read_next(o: RunPropsV, pre: Seq<Child>, q: Seq<Child>, avs: Seq<Seq<AttrView>>)
    requires
        q.len() <= 1,
        avs.len() >= pre.len() + q.len(),
    ensures
        read_children(o, pre + q, avs.take((pre.len() + q.len()) as int)) == if q.len() == 0 {
            read_children(o, pre, avs.take(pre.len() as int))
        } else {
            rpr_step_v(read_children(o, pre, avs.take(pre.len() as int)), q[0].0, avs[pre.len() as int], true)
        },
{
    let t = avs.take((pre.len() + q.len()) as int);
    lemma_read_add(o, pre, q, t);
    if q.len() == 0 {
        assert(t =~= avs.take(pre.len() as int));
    } else {
        assert(t.drop_last() =~= avs.take(pre.len() as int));
        assert(t.last() == avs[pre.len() as int]);
    }
}

/// Reading back the rendered children gives the properties.
#[verifier::rlimit(100)]
#[verifier::spinoff_prover]
proof fn lemma_read_pieces(p: RunProps, avs: Seq<Seq<AttrView>>)
    requires
        p.font is None,
        p.color is None,
        p.size_half_pts is None,
        p.baseline_half_pts is None,
        attrs_read(rpr_children(p), avs),
    ensures
        read_children(no_props(), rpr_children(p), avs) == rp_view(p),
{
    let es = rpr_children(p);
    let o = no_props();
    let e = Seq::<Child>::empty();
    let c1 = toggle_child("b", p.bold);
    let c2 = toggle_child("i", p.italic);
    let c3 = toggle_child("caps", p.caps);
    let c4 = toggle_child("smallCaps", p.small_caps);
    let c5 = toggle_child("strike", p.strike);
    let c6 = val_child("u", match p.underline {
        Some(true) => Some(sbytes("single")),
        Some(false) => Some(sbytes("none")),
        None => None,
    });
    let c7 = val_child("vertAlign", match p.vert_align {
        Some(va) => Some(crate::rpr::vert_word(va)),
        None => None,
    });
    let s1 = e + c1;
    let s2 = s1 + c2;
    let s3 = s2 + c3;
    let s4 = s3 + c4;
    let s5 = s4 + c5;
    let s6 = s5 + c6;
    let s7 = s6 + c7;
    assert(es == s7) by {
        assert(e + c1 =~= c1);
    }
    assert(avs.take(avs.len() as int) =~= avs);
    assert(read_children(o, e, avs.take(0)) == o);
    if c1.len() > 0 { assert(es[0] == c1[0]); }
    lemma_read_bold(o, e, p.bold, avs);
    if c2.len() > 0 { assert(es[s1.len() as int] == c2[0]); }
    lemma_read_italic(o, s1, p.italic, avs);
    if c3.len() > 0 { assert(es[s2.len() as int] == c3[0]); }
    lemma_read_caps(o, s2, p.caps, avs);
    if c4.len() > 0 { assert(es[s3.len() as int] == c4[0]); }
    lemma_read_small_caps(o, s3, p.small_caps, avs);
    if c5.len() > 0 { assert(es[s4.len() as int] == c5[0]); }
    lemma_read_strike(o, s4, p.strike, avs);
    if c6.len() > 0 { assert(es[s5.len() as int] == c6[0]); }
    lemma_read_u(o, s5, p.underline, avs);
    if c7.len() > 0 { assert(es[s6.len() as int] == c7[0]); }
    lemma_read_vert(o, s6, p.vert_align, avs);
}

proof fn lemma_read_bold(o: RunPropsV, pre: Seq<Child>, v: Option<bool>, avs: Seq<Seq<AttrView>>)
    requires
        avs.len() >= pre.len() + toggle_child("b", v).len(),
        v is Some ==> val_attr(toggle_child("b", v)[0].1, avs[pre.len() as int]),
    ensures
        read_children(o, pre + toggle_child("b", v), avs.take((pre.len() + toggle_child("b", v).len()) as int)) == if v is Some {
            RunPropsV { bold: v, ..read_children(o, pre, avs.take(pre.len() as int)) }
        } else {
            read_children(o, pre, avs.take(pre.len() as int))
        },
{
    lemma_rpr_names();
    lemma_read_next(o, pre, toggle_child("b", v), avs);
    if v is Some {
        lemma_toggle_read(v->0, toggle_child("b", v)[0].1, avs[pre.len() as int], "b");
    }
}

proof fn lemma_read_italic(o: RunPropsV, pre: Seq<Child>, v: Option<bool>, avs: Seq<Seq<AttrView>>)
    requires
        avs.len() >= pre.len() + toggle_child("i", v).len(),
        v is Some ==> val_attr(toggle_child("i", v)[0].1, avs[pre.len() as int]),
    ensures
        read_children(o, pre + toggle_child("i", v), avs.take((pre.len() + toggle_child("i", v).len()) as int)) == if v is Some {
            RunPropsV { italic: v, ..read_children(o, pre, avs.take(pre.len() as int)) }
        } else {
            read_children(o, pre, avs.take(pre.len() as int))
        },
{
    lemma_rpr_names();
    lemma_read_next(o, pre, toggle_child("i", v), avs);
    if v is Some {
        lemma_toggle_read(v->0, toggle_child("i", v)[0].1, avs[pre.len() as int], "i");
    }
}

proof fn lemma_read_caps(o: RunPropsV, pre: Seq<Child>, v: Option<bool>, avs: Seq<Seq<AttrView>>)
    requires
        avs.len() >= pre.len() + toggle_child("caps", v).len(),
        v is Some ==> val_attr(toggle_child("caps", v)[0].1, avs[pre.len() as int]),
    ensures
        read_children(o, pre + toggle_child("caps", v), avs.take((pre.len() + toggle_child("caps", v).len()) as int)) == if v is Some {
            RunPropsV { caps: v, ..read_children(o, pre, avs.take(pre.len() as int)) }
        } else {
            read_children(o, pre, avs.take(pre.len() as int))
        },
{
    lemma_rpr_names();
    lemma_read_next(o, pre, toggle_child("caps", v), avs);
    if v is Some {
        lemma_toggle_read(v->0, toggle_child("caps", v)[0].1, avs[pre.len() as int], "caps");
    }
}

proof fn lemma_read_small_caps(o: RunPropsV, pre: Seq<Child>, v: Option<bool>, avs: Seq<Seq<AttrView>>)
    requires
        avs.len() >= pre.len() + toggle_child("smallCaps", v).len(),
        v is Some ==> val_attr(toggle_child("smallCaps", v)[0].1, avs[pre.len() as int]),
    ensures
        read_children(o, pre + toggle_child("smallCaps", v), avs.take((pre.len() + toggle_child("smallCaps", v).len()) as int)) == if v is Some {
            RunPropsV { small_caps: v, ..read_children(o, pre, avs.take(pre.len() as int)) }
        } else {
            read_children(o, pre, avs.take(pre.len() as int))
        },
{
    lemma_rpr_names();
    lemma_read_next(o, pre, toggle_child("smallCaps", v), avs);
    if v is Some {
        lemma_toggle_read(v->0, toggle_child("smallCaps", v)[0].1, avs[pre.len() as int], "smallCaps");
    }
}

proof fn lemma_read_strike(o: RunPropsV, pre: Seq<Child>, v: Option<bool>, avs: Seq<Seq<AttrView>>)
    requires
        avs.len() >= pre.len() + toggle_child("strike", v).len(),
        v is Some ==> val_attr(toggle_child("strike", v)[0].1, avs[pre.len() as int]),
    ensures
        read_children(o, pre + toggle_child("strike", v), avs.take((pre.len() + toggle_child("strike", v).len()) as int)) == if v is Some {
            RunPropsV { strike: v, ..read_children(o, pre, avs.take(pre.len() as int)) }
        } else {
            read_children(o, pre, avs.take(pre.len() as int))
        },
{
    lemma_rpr_names();
    lemma_read_next(o, pre, toggle_child("strike", v), avs);
    if v is Some {
        lemma_toggle_read(v->0, toggle_child("strike", v)[0].1, avs[pre.len() as int], "strike");
    }
}

proof fn lemma_read_u(o: RunPropsV, pre: Seq<Child>, v: Option<bool>, avs: Seq<Seq<AttrView>>)
    requires
        avs.len() >= pre.len() + val_child("u", match v {
            Some(true) => Some(sbytes("single")),
            Some(false) => Some(sbytes("none")),
            None => None,
        }).len(),
        v is Some ==> val_attr(val_child("u", match v {
            Some(true) => Some(sbytes("single")),
            Some(false) => Some(sbytes("none")),
            None => None,
        })[0].1, avs[pre.len() as int]),
    ensures
        ({
            let c = val_child("u", match v {
                Some(true) => Some(sbytes("single")),
                Some(false) => Some(sbytes("none")),
                None => None,
            });
            read_children(o, pre + c, avs.take((pre.len() + c.len()) as int)) == if v is Some {
                RunPropsV { underline: v, ..read_children(o, pre, avs.take(pre.len() as int)) }
            } else {
                read_children(o, pre, avs.take(pre.len() as int))
            }
        }),
{
    lemma_rpr_names();
    let c = val_child("u", match v {
        Some(true) => Some(sbytes("single")),
        Some(false) => Some(sbytes("none")),
        None => None,
    });
    lemma_read_next(o, pre, c, avs);
    if v is Some {
        let w = if v->0 { "single" } else { "none" };
        lemma_attr_lens();
        assert(c[0].1.len() > 2);
        lemma_val_attr(c[0].1, avs[pre.len() as int], w);
        reveal_strlit("single");
        reveal_strlit("none");
        assert("single"@.len() == 6 && "none"@.len() == 4);
    }
}

proof fn lemma_read_vert(o: RunPropsV, pre: Seq<Child>, v: Option<VertAlign>, avs: Seq<Seq<AttrView>>)
    requires
        avs.len() >= pre.len() + val_child("vertAlign", match v {
            Some(va) => Some(crate::rpr::vert_word(va)),
            None => None,
        }).len(),
        v is Some ==> val_attr(val_child("vertAlign", match v {
            Some(va) => Some(crate::rpr::vert_word(va)),
            None => None,
        })[0].1, avs[pre.len() as int]),
    ensures
        ({
            let c = val_child("vertAlign", match v {
                Some(va) => Some(crate::rpr::vert_word(va)),
                None => None,
            });
            read_children(o, pre + c, avs.take((pre.len() + c.len()) as int)) == if v is Some {
                RunPropsV { vert_align: v, ..read_children(o, pre, avs.take(pre.len() as int)) }
            } else {
                read_children(o, pre, avs.take(pre.len() as int))
            }
        }),
{
    lemma_rpr_names();
    let c = val_child("vertAlign", match v {
        Some(va) => Some(crate::rpr::vert_word(va)),
        None => None,
    });
    lemma_read_next(o, pre, c, avs);
    if v is Some {
        let w = match v->0 {
            VertAlign::Baseline => "baseline",
            VertAlign::Superscript => "superscript",
            VertAlign::Subscript => "subscript",
        };
        lemma_attr_lens();
        assert(c[0].1.len() > 2);
        lemma_val_attr(c[0].1, avs[pre.len() as int], w);
        law_vert_align_words(w@);
    }
}

/// The lengths of the attribute-text literals.
proof fn lemma_attr_lens()
    ensures
        sbytes(" w:val=\"").len() == 8,
        sbytes("/>").len() == 2,
        sbytes("\"/>").len() == 3,
{
    broadcast use vstd::string::is_ascii_spec_bytes;
    reveal_strlit(" w:val=\"");
    reveal_strlit("/>");
    reveal_strlit("\"/>");
    assert(vstd::string::is_ascii(" w:val=\""));
    assert(vstd::string::is_ascii("/>"));
    assert(vstd::string::is_ascii("\"/>"));
}

/// The style property each paragraph measure lowers to: left and right
/// indents as `paragraphLeftIndent` / `paragraphRightIndent`, spacing
/// before and after as `paragraphSpaceBefore` / `paragraphSpaceAfter`, each
/// with its length in twips.
pub proof fn law_para_measure_paths(p: ParaProps)
    ensures
        p.left_indent matches Some(l) ==> para_props_spec(p).contains(("paragraphLeftIndent"@, PropV::Length(l as int))),
        p.right_indent matches Some(l) ==> para_props_spec(p).contains(("paragraphRightIndent"@, PropV::Length(l as int))),
        p.space_before matches Some(l) ==> para_props_spec(p).contains(("paragraphSpaceBefore"@, PropV::Length(l as int))),
        p.space_after matches Some(l) ==> para_props_spec(p).contains(("paragraphSpaceAfter"@, PropV::Length(l as int))),
{
    let q1 = crate::lower::prop_if(p.justification is Some, "paragraphJustification"@, PropV::Text(justification_word(p.justification->0)));
    let q2 = crate::lower::prop_if(p.left_indent is Some, "paragraphLeftIndent"@, PropV::Length(p.left_indent->0 as int));
    let q3 = crate::lower::prop_if(p.right_indent is Some, "paragraphRightIndent"@, PropV::Length(p.right_indent->0 as int));
    let q4 = crate::lower::first_line_prop(p);
    let q5 = crate::lower::prop_if(p.space_before is Some, "paragraphSpaceBefore"@, PropV::Length(p.space_before->0 as int));
    let q6 = crate::lower::prop_if(p.space_after is Some, "paragraphSpaceAfter"@, PropV::Length(p.space_after->0 as int));
    let q7 = crate::lower::prop_if(p.keep_next == Some(true), "paragraphKeepWithNext"@, PropV::Length(20));
    let q8 = crate::lower::prop_if(p.keep_lines is Some, "paragraphKeepLinesTogether"@, PropV::Bool(p.keep_lines->0));
    let q9 = crate::lower::prop_if(p.tabs@.len() > 0, "paragraphTabStops"@, PropV::TabStops(p.tabs@.map_values(|t: crate::model::TabStop| crate::lower::tab_of(t))));
    let s = para_props_spec(p);
    assert(s == q1 + q2 + q3 + q4 + q5 + q6 + q7 + q8 + q9);
    if p.left_indent is Some {
        assert(s[q1.len() as int] == q2[0]);
    }
    if p.right_indent is Some {
        assert(s[(q1.len() + q2.len()) as int] == q3[0]);
    }
    if p.space_before is Some {
        assert(s[(q1.len() + q2.len() + q3.len() + q4.len()) as int] == q5[0]);
    }
    if p.space_after is Some {
        assert(s[(q1.len() + q2.len() + q3.len() + q4.len() + q5.len()) as int] == q6[0]);
    }
}

} // verus!
