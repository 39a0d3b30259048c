//! `.docx` → model. Reads the package, resolves the main document and styles
//! parts through the `_rels` graph, and walks their XML tokens into the
//! semantic model. A scanner, not a validator: a missing or unreadable styles
//! part yields an empty catalog, content it does not model is passed over, and
//! only an unreadable container, a missing main part, or a main part the reader
//! rejects (or nests too deeply) is an error.

use vstd::prelude::*;
use crate::bytes::{sbytes, ubytes, utf8_str};
use crate::diff::{no_props, rp_view, RunPropsV};
use crate::error::OoxmlError;
use crate::model::{
    Block, Defaults, DocxDocument, Justification, ParaProps, Paragraph, Run, RunProps, RunSource, Section, Style,
    StyleCatalog, StyleKind, TabStop, Table, TableCell, TableRow, VMerge,
};
use crate::opc::{part_of, read_spec, OpcPackage, PartView};
use crate::rels::{part_dir, rels_name_of, rel_views, rels_of, rels_part_name, resolve_of, resolve_target, part_dir_of, RelView, Relationships};
use crate::text::{append, owned};
use crate::values::{
    color_hex, color_spec, half_points, hps, justification_spec, map_justification, on, on_spec, signed_measure, signed_twips,
    tab_alignment, tab_alignment_spec, underline_on, underline_spec, unsigned_measure, unsigned_twips, vert_align, vert_align_spec,
};
use crate::xml::{
    attr_val, attr_views, attrs_of, find_attr, local_name, local_of, resolve_entity, scan_xml, tag_attrs, tviews, xml_scan, AttrItem,
    AttrView, TokKind, TokView, XmlToken,
};

verus! {

/// Deepest element nesting the importer accepts.
pub const MAX_ELEMENT_DEPTH: usize = 256;

/// The first element depth beyond [`MAX_ELEMENT_DEPTH`] that the tokens reach,
/// scanning from nesting depth `d` (an end tag never takes it below zero).
pub open spec fn depth_excess(d: nat, toks: Seq<TokView>) -> Option<nat>
    decreases toks.len(),
{
    if toks.len() == 0 {
        None
    } else if toks[0].0 == TokKind::Start {
        if d + 1 > MAX_ELEMENT_DEPTH {
            Some(d + 1)
        } else {
            depth_excess(d + 1, toks.drop_first())
        }
    } else if toks[0].0 == TokKind::End {
        depth_excess(if d > 0 { (d - 1) as nat } else { 0 }, toks.drop_first())
    } else {
        depth_excess(d, toks.drop_first())
    }
}

/// Check that no element nests deeper than [`MAX_ELEMENT_DEPTH`]: the depth
/// first reached beyond it, if any.
pub fn depth_within_limit(toks: &Vec<XmlToken>) -> (r: Option<usize>)
    ensures
        depth_excess(0, tviews(toks@)) == match r {
            Some(d) => Some(d as nat),
            None => None,
        },
{
    let ghost tv = tviews(toks@);
    let mut depth: usize = 0;
    let mut k: usize = 0;
    assert(tv.subrange(0, tv.len() as int) =~= tv);
    while k < toks.len()
        invariant
            k <= toks@.len(),
            tv == tviews(toks@),
            depth <= MAX_ELEMENT_DEPTH,
            depth_excess(0, tv) == depth_excess(depth as nat, tv.subrange(k as int, tv.len() as int)),
        decreases toks@.len() - k,
    {
        let ghost rest = tv.subrange(k as int, tv.len() as int);
        assert(rest[0] == toks@[k as int]@);
        assert(rest.drop_first() =~= tv.subrange(k + 1, tv.len() as int));
        if toks[k].kind == TokKind::Start {
            depth = depth + 1;
            if depth > MAX_ELEMENT_DEPTH {
                return Some(depth);
            }
        } else if toks[k].kind == TokKind::End {
            if depth > 0 {
                depth = depth - 1;
            }
        }
        k = k + 1;
    }
    None
}

/// The first relationship (in document order) whose type ends with `suffix`.
pub open spec fn find_type(rels: Seq<RelView>, suffix: Seq<u8>) -> Option<RelView>
    decreases rels.len(),
{
    if rels.len() == 0 {
        None
    } else {
        let t = ubytes(rels[0].1);
        if suffix.len() <= t.len() && t.subrange(t.len() - suffix.len(), t.len() as int) == suffix {
            Some(rels[0])
        } else {
            find_type(rels.drop_first(), suffix)
        }
    }
}

/// The main document part: the root relationships' `officeDocument` target,
/// resolved from the package root.
pub open spec fn main_part_spec(ps: Seq<PartView>) -> Option<Seq<u8>> {
    match part_of(ps, "_rels/.rels"@) {
        Some(b) => match find_type(rels_of(b), sbytes("/officeDocument")) {
            Some(rel) => Some(resolve_of(Seq::empty(), ubytes(rel.2))),
            None => None,
        },
        None => None,
    }
}

/// The main part name the importer uses: the resolved one, else the
/// conventional `word/document.xml`.
pub open spec fn main_name_spec(ps: Seq<PartView>) -> Seq<u8> {
    match main_part_spec(ps) {
        Some(n) => n,
        None => sbytes("word/document.xml"),
    }
}

/// The styles part: the main part's `styles` relationship target, resolved
/// against the main part's directory.
pub open spec fn styles_part_spec(ps: Seq<PartView>, main: Seq<u8>) -> Option<Seq<u8>> {
    match part_of(ps, vstd::utf8::decode_utf8(rels_name_of(main))) {
        Some(b) => match find_type(rels_of(b), sbytes("/styles")) {
            Some(rel) => Some(resolve_of(part_dir_of(main), ubytes(rel.2))),
            None => None,
        },
        None => None,
    }
}

/// The first relationship whose type ends with `suffix` (see [`find_type`]).
fn first_of_type(rels: &Relationships, suffix: &str) -> (r: Option<String>)
    ensures
        match find_type(crate::rels::rel_views(rels.items@), sbytes(suffix)) {
            Some(rel) => r matches Some(t) && t@ == rel.2,
            None => r is None,
        },
{
    let ghost rv = crate::rels::rel_views(rels.items@);
    let mut i: usize = 0;
    assert(rv.subrange(0, rv.len() as int) =~= rv);
    while i < rels.items.len()
        invariant
            i <= rels.items@.len(),
            rv == crate::rels::rel_views(rels.items@),
            find_type(rv, sbytes(suffix)) == find_type(rv.subrange(i as int, rv.len() as int), sbytes(suffix)),
        decreases rels.items@.len() - i,
    {
        let ghost rest = rv.subrange(i as int, rv.len() as int);
        assert(rest[0] == rels.items@[i as int]@);
        assert(rest.drop_first() =~= rv.subrange(i + 1, rv.len() as int));
        if crate::bytes::ends_with(rels.items[i].rel_type.as_str().as_bytes(), suffix.as_bytes()) {
            return Some(rels.items[i].target.clone());
        }
        i = i + 1;
    }
    assert(rv.subrange(i as int, rv.len() as int) =~= Seq::<RelView>::empty());
    None
}

/// The main document part name (via `_rels/.rels` `officeDocument`).
fn main_document_part(pkg: &OpcPackage) -> (r: Option<String>)
    ensures
        main_part_spec(pkg@) == match r {
            Some(n) => Some(ubytes(n@)),
            None => None,
        },
{
    let root_rels = match pkg.part("_rels/.rels") {
        Some(b) => b,
        None => {
            return None;
        },
    };
    let rels = Relationships::parse(root_rels);
    match first_of_type(&rels, "/officeDocument") {
        Some(target) => {
            let r = resolve_target("", target.as_str());
            proof {
                reveal_strlit("");
            }
            Some(r)
        },
        None => None,
    }
}

/// The styles part name (via the main document's `.rels`).
fn styles_part(pkg: &OpcPackage, main_part: &str) -> (r: Option<String>)
    ensures
        styles_part_spec(pkg@, sbytes(main_part)) == match r {
            Some(n) => Some(ubytes(n@)),
            None => None,
        },
{
    let rels_name = rels_part_name(main_part);
    proof {
        vstd::utf8::encode_utf8_decode_utf8(rels_name@);
    }
    let rels_bytes = match pkg.part(rels_name.as_str()) {
        Some(b) => b,
        None => {
            return None;
        },
    };
    let rels = Relationships::parse(rels_bytes);
    match first_of_type(&rels, "/styles") {
        Some(target) => Some(resolve_target(part_dir(main_part), target.as_str())),
        None => None,
    }
}

/// The value of attribute `key` (matched by local name), when present and
/// readable (see [`attr_val`]).
pub open spec fn aval(av: Seq<AttrView>, key: &str) -> Option<Seq<char>> {
    match attr_val(av, sbytes(key), true) {
        Some(Some(v)) => Some(v),
        _ => None,
    }
}

/// A `String` option as characters.
pub open spec fn ochars(v: Option<String>) -> Option<Seq<char>> {
    match v {
        Some(s) => Some(s@),
        None => None,
    }
}

/// The first of two optional attribute values that is present.
pub open spec fn either(a: Option<Seq<char>>, b: Option<Seq<char>>) -> Option<Seq<char>> {
    match a {
        Some(v) => Some(v),
        None => b,
    }
}

/// A signed measure from an optional value.
pub open spec fn smeasure(v: Option<Seq<char>>) -> Option<i32> {
    match v {
        Some(x) => signed_measure(x),
        None => None,
    }
}

/// The value of attribute `key` (see [`aval`]).
fn attr_value(attrs: &Vec<AttrItem>, key: &str) -> (r: Option<String>)
    ensures
        ochars(r) == aval(attr_views(attrs@), key),
{
    match find_attr(attrs, key, true) {
        Some(Some(v)) => Some(v),
        _ => None,
    }
}

/// Does `name` hold exactly the bytes of `lit`?
fn is(name: &[u8], lit: &str) -> (r: bool)
    ensures
        r == (name@ == sbytes(lit)),
{
    crate::bytes::bytes_eq(name, lit.as_bytes())
}

/// Is the open element at index `k` of the stack named `lit`?
fn at(stack: &Vec<Vec<u8>>, k: usize, lit: &str) -> (r: bool)
    ensures
        r == (k < stack@.len() && stack@[k as int]@ == sbytes(lit)),
{
    k < stack.len() && is(&stack[k], lit)
}

/// One paragraph-property child element (`w:pPr/*`) applied to `p`:
/// `jc` sets the justification (when it has a value); `ind` sets the left
/// (or start), right (or end), first-line and hanging indents; `spacing` the
/// space before and after; `keepNext`/`keepLines` (when `with_keeps`) turn
/// on. Any other element leaves `p` as it is.
pub open spec fn ppr_child(p: ParaProps, name: Seq<u8>, av: Seq<AttrView>, with_keeps: bool) -> ParaProps {
    if name == sbytes("jc") {
        match aval(av, "val") {
            Some(v) => ParaProps { justification: justification_spec(v), ..p },
            None => p,
        }
    } else if name == sbytes("ind") {
        ParaProps {
            left_indent: smeasure(either(aval(av, "left"), aval(av, "start"))),
            right_indent: smeasure(either(aval(av, "right"), aval(av, "end"))),
            first_line_indent: match aval(av, "firstLine") {
                Some(v) => unsigned_measure(v),
                None => None,
            },
            hanging_indent: smeasure(aval(av, "hanging")),
            ..p
        }
    } else if name == sbytes("spacing") {
        ParaProps { space_before: smeasure(aval(av, "before")), space_after: smeasure(aval(av, "after")), ..p }
    } else if with_keeps && name == sbytes("keepNext") {
        ParaProps { keep_next: Some(true), ..p }
    } else if with_keeps && name == sbytes("keepLines") {
        ParaProps { keep_lines: Some(true), ..p }
    } else {
        p
    }
}

/// Apply one paragraph-property child element (see [`ppr_child`]).
fn apply_ppr_child(p: &mut ParaProps, name: &[u8], attrs: &Vec<AttrItem>, with_keeps: bool)
    ensures
        *final(p) == (ppr_child(*old(p), name@, attr_views(attrs@), with_keeps)),
{
    if is(name, "jc") {
        if let Some(v) = attr_value(attrs, "val") {
            p.justification = map_justification(v.as_str());
        }
    } else if is(name, "ind") {
        let left = match attr_value(attrs, "left") {
            Some(v) => Some(v),
            None => attr_value(attrs, "start"),
        };
        p.left_indent = match left {
            Some(v) => signed_twips(v.as_str()),
            None => None,
        };
        let right = match attr_value(attrs, "right") {
            Some(v) => Some(v),
            None => attr_value(attrs, "end"),
        };
        p.right_indent = match right {
            Some(v) => signed_twips(v.as_str()),
            None => None,
        };
        p.first_line_indent = match attr_value(attrs, "firstLine") {
            Some(v) => unsigned_twips(v.as_str()),
            None => None,
        };
        p.hanging_indent = match attr_value(attrs, "hanging") {
            Some(v) => signed_twips(v.as_str()),
            None => None,
        };
    } else if is(name, "spacing") {
        p.space_before = match attr_value(attrs, "before") {
            Some(v) => signed_twips(v.as_str()),
            None => None,
        };
        p.space_after = match attr_value(attrs, "after") {
            Some(v) => signed_twips(v.as_str()),
            None => None,
        };
    } else if with_keeps && is(name, "keepNext") {
        p.keep_next = Some(true);
    } else if with_keeps && is(name, "keepLines") {
        p.keep_lines = Some(true);
    }
}

/// One `w:tabs/w:tab` stop applied to `old`, giving `new`: a stop with an
/// alignment (not `clear`) and a readable position is appended, with no
/// leader; nothing else changes.
pub open spec fn tab_child(old: ParaProps, new: ParaProps, av: Seq<AttrView>) -> bool {
    let align = match aval(av, "val") {
        Some(v) => tab_alignment_spec(v),
        None => None,
    };
    &&& new == ParaProps { tabs: new.tabs, ..old }
    &&& match (align, smeasure(aval(av, "pos"))) {
        (Some(a), Some(pos)) => new.tabs@.len() == old.tabs@.len() + 1 && new.tabs@.drop_last() == old.tabs@
            && new.tabs@.last().position == pos && ochars(new.tabs@.last().alignment) == Some(a)
            && new.tabs@.last().leader is None,
        _ => new.tabs@ == old.tabs@,
    }
}

/// Apply one `w:tabs/w:tab` stop (see [`tab_child`]).
fn apply_tab(p: &mut ParaProps, attrs: &Vec<AttrItem>)
    ensures
        tab_child(*old(p), *final(p), attr_views(attrs@)),
{
    let ghost av = attr_views(attrs@);
    let align = match attr_value(attrs, "val") {
        Some(v) => tab_alignment(v.as_str()),
        None => None,
    };
    assert(ochars(align) == match aval(av, "val") {
        Some(v) => tab_alignment_spec(v),
        None => None,
    });
    if let Some(alignment) = align {
        let pos = match attr_value(attrs, "pos") {
            Some(v) => signed_twips(v.as_str()),
            None => None,
        };
        assert(pos == smeasure(aval(av, "pos")));
        if let Some(position) = pos {
            let ghost before = p.tabs@;
            p.tabs.push(TabStop { position, alignment: Some(alignment), leader: None });
            assert(p.tabs@.drop_last() =~= before);
        }
    }
}

/// One run-property child element (`w:rPr/*`) applied to `old`, giving
/// `new`: `rFonts` sets the font from `ascii` (when present); `b`, `i` and,
/// when `full`, `caps`, `smallCaps`, `strike` set their toggle (see
/// [`on_spec`]); `color` the normalized color (see [`color_spec`]); `sz` the
/// size in half-points; `u` the underline (see [`underline_spec`]); and,
/// when `full`, `vertAlign` the vertical alignment (when it has a value).
/// Any other element leaves the properties as they are.
pub open spec fn rpr_child(old: RunProps, new: RunProps, name: Seq<u8>, av: Seq<AttrView>, full: bool) -> bool {
    if name == sbytes("rFonts") {
        match aval(av, "ascii") {
            Some(f) => new == RunProps { font: new.font, ..old } && ochars(new.font) == Some(f),
            None => new == old,
        }
    } else if name == sbytes("b") {
        new == RunProps { bold: Some(on_spec(aval(av, "val"))), ..old }
    } else if name == sbytes("i") {
        new == RunProps { italic: Some(on_spec(aval(av, "val"))), ..old }
    } else if full && name == sbytes("caps") {
        new == RunProps { caps: Some(on_spec(aval(av, "val"))), ..old }
    } else if full && name == sbytes("smallCaps") {
        new == RunProps { small_caps: Some(on_spec(aval(av, "val"))), ..old }
    } else if full && name == sbytes("strike") {
        new == RunProps { strike: Some(on_spec(aval(av, "val"))), ..old }
    } else if name == sbytes("color") {
        new == RunProps { color: new.color, ..old } && color_spec(aval(av, "val")) == match new.color {
            Some(c) => Some(ubytes(c@)),
            None => None,
        }
    } else if name == sbytes("sz") {
        new == RunProps {
            size_half_pts: match aval(av, "val") {
                Some(v) => half_points(v),
                None => None,
            },
            ..old
        }
    } else if name == sbytes("u") {
        new == RunProps { underline: Some(underline_spec(aval(av, "val"))), ..old }
    } else if full && name == sbytes("vertAlign") {
        match aval(av, "val") {
            Some(v) => new == RunProps { vert_align: vert_align_spec(v), ..old },
            None => new == old,
        }
    } else {
        new == old
    }
}

/// One run-property child element applied to formatting values (see
/// [`rpr_child`], of which this is the value form).
pub open spec fn rpr_step_v(o: RunPropsV, name: Seq<u8>, av: Seq<AttrView>, full: bool) -> RunPropsV {
    if name == sbytes("rFonts") {
        match aval(av, "ascii") {
            Some(f) => RunPropsV { font: Some(ubytes(f)), ..o },
            None => o,
        }
    } else if name == sbytes("b") {
        RunPropsV { bold: Some(on_spec(aval(av, "val"))), ..o }
    } else if name == sbytes("i") {
        RunPropsV { italic: Some(on_spec(aval(av, "val"))), ..o }
    } else if full && name == sbytes("caps") {
        RunPropsV { caps: Some(on_spec(aval(av, "val"))), ..o }
    } else if full && name == sbytes("smallCaps") {
        RunPropsV { small_caps: Some(on_spec(aval(av, "val"))), ..o }
    } else if full && name == sbytes("strike") {
        RunPropsV { strike: Some(on_spec(aval(av, "val"))), ..o }
    } else if name == sbytes("color") {
        RunPropsV { color: color_spec(aval(av, "val")), ..o }
    } else if name == sbytes("sz") {
        RunPropsV {
            size_half_pts: match aval(av, "val") {
                Some(v) => half_points(v),
                None => None,
            },
            ..o
        }
    } else if name == sbytes("u") {
        RunPropsV { underline: Some(underline_spec(aval(av, "val"))), ..o }
    } else if full && name == sbytes("vertAlign") {
        match aval(av, "val") {
            Some(v) => RunPropsV { vert_align: vert_align_spec(v), ..o },
            None => o,
        }
    } else {
        o
    }
}

/// The value form of one run-property child is what [`rpr_child`] gives.
proof fn lemma_rpr_child_v(o: RunProps, n: RunProps, name: Seq<u8>, av: Seq<AttrView>, full: bool)
    requires
        rpr_child(o, n, name, av, full),
    ensures
        rp_view(n) == rpr_step_v(rp_view(o), name, av, full),
{
}

/// Apply one run-property child element (see [`rpr_child`]). `full`
/// selects the complete set; otherwise only the document-default subset
/// (font, bold, italic, color, size, underline) is read.
fn apply_rpr_child(props: &mut RunProps, name: &[u8], attrs: &Vec<AttrItem>, full: bool)
    ensures
        rpr_child(*old(props), *final(props), name@, attr_views(attrs@), full),
{
    if is(name, "rFonts") {
        match attr_value(attrs, "ascii") {
            Some(f) => {
                props.font = Some(f);
            },
            None => {},
        }
    } else if is(name, "b") {
        props.bold = Some(on(&attr_value(attrs, "val")));
    } else if is(name, "i") {
        props.italic = Some(on(&attr_value(attrs, "val")));
    } else if full && is(name, "caps") {
        props.caps = Some(on(&attr_value(attrs, "val")));
    } else if full && is(name, "smallCaps") {
        props.small_caps = Some(on(&attr_value(attrs, "val")));
    } else if full && is(name, "strike") {
        props.strike = Some(on(&attr_value(attrs, "val")));
    } else if is(name, "color") {
        props.color = color_hex(&attr_value(attrs, "val"));
    } else if is(name, "sz") {
        props.size_half_pts = match attr_value(attrs, "val") {
            Some(v) => hps(v.as_str()),
            None => None,
        };
    } else if is(name, "u") {
        props.underline = Some(underline_on(&attr_value(attrs, "val")));
    } else if full && is(name, "vertAlign") {
        if let Some(v) = attr_value(attrs, "val") {
            props.vert_align = vert_align(v.as_str());
        }
    }
}

/// The text (as UTF-8) that a character-data or reference token inside
/// `w:t` adds: the token's bytes when they are well-formed UTF-8, a
/// reference's replacement when it has one, else nothing.
pub open spec fn token_text(src: Seq<u8>, t: (TokKind, Seq<u8>, nat, nat)) -> Seq<u8> {
    if t.0 == TokKind::Text {
        if t.2 <= t.3 <= src.len() && vstd::utf8::valid_utf8(src.subrange(t.2 as int, t.3 as int)) {
            src.subrange(t.2 as int, t.3 as int)
        } else {
            Seq::empty()
        }
    } else if t.0 == TokKind::Ref {
        match crate::xml::entity_spec(t.1) {
            Some(c) => ubytes(c),
            None => Seq::empty(),
        }
    } else {
        Seq::empty()
    }
}

/// Append the text of a character-data or reference token inside `w:t`
/// (see [`token_text`]).
fn append_text(text: &mut String, src: &[u8], t: &XmlToken)
    ensures
        ubytes(final(text)@) == ubytes(old(text)@) + token_text(src@, t@),
{
    if t.kind == TokKind::Text {
        if t.start <= t.end && t.end <= src.len() {
            if let Some(s) = utf8_str(&src[t.start..t.end]) {
                append(text, s);
            }
        }
    } else if t.kind == TokKind::Ref {
        if let Some(s) = resolve_entity(&t.name) {
            append(text, s.as_str());
        }
    }
}

/// How many paragraph blocks precede block `i`.
pub open spec fn paras_before(body: Seq<Block>, i: int) -> nat
    decreases i,
{
    if i <= 0 {
        0
    } else {
        paras_before(body, i - 1) + if body[i - 1] is Paragraph {
            1nat
        } else {
            0nat
        }
    }
}

/// Body paragraphs carry their ordinal among the body's paragraphs.
pub open spec fn body_ordinals_ok(body: Seq<Block>) -> bool {
    forall|i: int| 0 <= i < body.len() ==> (#[trigger] body[i] matches Block::Paragraph(p) ==> p.source_para_ord
        == paras_before(body, i) as u32)
}

/// How many of the first `k` runs are direct runs.
pub open spec fn direct_before(runs: Seq<Run>, k: int) -> nat
    decreases k,
{
    if k <= 0 {
        0
    } else {
        direct_before(runs, k - 1) + if runs[k - 1].source matches Some(RunSource::DirectRun(_)) {
            1nat
        } else {
            0nat
        }
    }
}

/// Direct runs carry their ordinal among the paragraph's direct runs.
pub open spec fn run_ordinals_ok(runs: Seq<Run>) -> bool {
    forall|k: int| 0 <= k < runs.len() ==> (#[trigger] runs[k].source matches Some(RunSource::DirectRun(n)) ==> n
        == direct_before(runs, k) as u32)
}

proof fn lemma_paras_before_prefix(body: Seq<Block>, b: Block, i: int)
    requires
        0 <= i <= body.len(),
    ensures
        paras_before(body.push(b), i) == paras_before(body, i),
    decreases i,
{
    if i > 0 {
        lemma_paras_before_prefix(body, b, i - 1);
        assert(body.push(b)[i - 1] == body[i - 1]);
    }
}

/// Pushing a block keeps the ordinals of the earlier paragraphs; a pushed
/// paragraph must carry the count of paragraphs before it.
proof fn lemma_body_push(before: Seq<Block>, after: Seq<Block>)
    requires
        body_ordinals_ok(before),
        after.len() == before.len() + 1,
        after.drop_last() == before,
        after.last() matches Block::Paragraph(p) ==> p.source_para_ord == paras_before(before, before.len() as int) as u32,
    ensures
        body_ordinals_ok(after),
        paras_before(after, after.len() as int) == paras_before(before, before.len() as int) + if after.last() is Paragraph {
            1nat
        } else {
            0nat
        },
{
    let b = after.last();
    assert(after =~= before.push(b));
    assert forall|i: int| 0 <= i < after.len() implies (#[trigger] after[i] matches Block::Paragraph(p) ==> p.source_para_ord
        == paras_before(after, i) as u32) by {
        lemma_paras_before_prefix(before, b, i);
        if i < before.len() {
            assert(after[i] == before[i]);
        }
    }
    lemma_paras_before_prefix(before, b, before.len() as int);
}

proof fn lemma_direct_before_prefix(runs: Seq<Run>, r: Run, k: int)
    requires
        0 <= k <= runs.len(),
    ensures
        direct_before(runs.push(r), k) == direct_before(runs, k),
    decreases k,
{
    if k > 0 {
        lemma_direct_before_prefix(runs, r, k - 1);
        assert(runs.push(r)[k - 1] == runs[k - 1]);
    }
}

/// Pushing a run keeps the ordinals of the earlier runs; a pushed direct run
/// must carry the count of direct runs before it.
proof fn lemma_direct_push(before: Seq<Run>, r: Run)
    requires
        run_ordinals_ok(before),
        r.source matches Some(RunSource::DirectRun(n)) ==> n == direct_before(before, before.len() as int) as u32,
    ensures
        run_ordinals_ok(before.push(r)),
        direct_before(before.push(r), before.len() + 1int) == direct_before(before, before.len() as int) + if r.source matches Some(
            RunSource::DirectRun(_),
        ) {
            1nat
        } else {
            0nat
        },
{
    let after = before.push(r);
    assert forall|k: int| 0 <= k < after.len() implies (#[trigger] after[k].source matches Some(RunSource::DirectRun(n)) ==> n
        == direct_before(after, k) as u32) by {
        lemma_direct_before_prefix(before, r, k);
        if k < before.len() {
            assert(after[k] == before[k]);
        }
    }
    lemma_direct_before_prefix(before, r, before.len() as int);
}

/// A run as the body walk sees it: its text (as UTF-8), its character
/// style id, the target of the hyperlink it sits in, its direct
/// formatting, and its source (which direct or hyperlink `<w:r>` it is).
pub type RunV = (Seq<u8>, Option<Seq<char>>, Option<Seq<char>>, RunPropsV, Option<RunSource>);

/// A paragraph as the body walk sees it: its paragraph style id, its runs
/// and its direct properties.
pub type PShape = (Option<Seq<char>>, Seq<RunV>, ParaPropsV);

/// Direct paragraph properties as values (tab stops as position, alignment
/// and leader).
#[verifier::ext_equal]
pub struct ParaPropsV {
    pub justification: Option<Justification>,
    pub left_indent: Option<i32>,
    pub right_indent: Option<i32>,
    pub first_line_indent: Option<i32>,
    pub hanging_indent: Option<i32>,
    pub space_before: Option<i32>,
    pub space_after: Option<i32>,
    pub keep_next: Option<bool>,
    pub keep_lines: Option<bool>,
    pub tabs: Seq<(i32, Option<Seq<char>>, Option<Seq<char>>)>,
}

/// A tab stop as a value.
pub open spec fn tab_v(t: TabStop) -> (i32, Option<Seq<char>>, Option<Seq<char>>) {
    (t.position, ochars(t.alignment), ochars(t.leader))
}

/// Paragraph properties as values.
pub open spec fn pp_view(p: ParaProps) -> ParaPropsV {
    ParaPropsV {
        justification: p.justification,
        left_indent: p.left_indent,
        right_indent: p.right_indent,
        first_line_indent: p.first_line_indent,
        hanging_indent: p.hanging_indent,
        space_before: p.space_before,
        space_after: p.space_after,
        keep_next: p.keep_next,
        keep_lines: p.keep_lines,
        tabs: p.tabs@.map_values(|t: TabStop| tab_v(t)),
    }
}

/// No direct paragraph property.
pub open spec fn no_para_props() -> ParaPropsV {
    ParaPropsV {
        justification: None,
        left_indent: None,
        right_indent: None,
        first_line_indent: None,
        hanging_indent: None,
        space_before: None,
        space_after: None,
        keep_next: None,
        keep_lines: None,
        tabs: Seq::empty(),
    }
}

/// One paragraph-property child applied to values (see [`ppr_child`], of
/// which this is the value form).
pub open spec fn ppr_step_v(p: ParaPropsV, name: Seq<u8>, av: Seq<AttrView>, with_keeps: bool) -> ParaPropsV {
    if name == sbytes("jc") {
        match aval(av, "val") {
            Some(v) => ParaPropsV { justification: justification_spec(v), ..p },
            None => p,
        }
    } else if name == sbytes("ind") {
        ParaPropsV {
            left_indent: smeasure(either(aval(av, "left"), aval(av, "start"))),
            right_indent: smeasure(either(aval(av, "right"), aval(av, "end"))),
            first_line_indent: match aval(av, "firstLine") {
                Some(v) => unsigned_measure(v),
                None => None,
            },
            hanging_indent: smeasure(aval(av, "hanging")),
            ..p
        }
    } else if name == sbytes("spacing") {
        ParaPropsV { space_before: smeasure(aval(av, "before")), space_after: smeasure(aval(av, "after")), ..p }
    } else if with_keeps && name == sbytes("keepNext") {
        ParaPropsV { keep_next: Some(true), ..p }
    } else if with_keeps && name == sbytes("keepLines") {
        ParaPropsV { keep_lines: Some(true), ..p }
    } else {
        p
    }
}

/// One `w:tabs/w:tab` stop applied to values (see [`tab_child`]): a stop
/// with an alignment and a readable position is appended, with no leader.
pub open spec fn tab_step_v(p: ParaPropsV, av: Seq<AttrView>) -> ParaPropsV {
    let align = match aval(av, "val") {
        Some(v) => tab_alignment_spec(v),
        None => None,
    };
    match (align, smeasure(aval(av, "pos"))) {
        (Some(a), Some(pos)) => ParaPropsV { tabs: p.tabs.push((pos, Some(a), None)), ..p },
        _ => p,
    }
}

proof fn lemma_ppr_child_v(p: ParaProps, name: Seq<u8>, av: Seq<AttrView>, with_keeps: bool)
    ensures
        pp_view(ppr_child(p, name, av, with_keeps)) == ppr_step_v(pp_view(p), name, av, with_keeps),
{
    assert(pp_view(ppr_child(p, name, av, with_keeps)) =~= ppr_step_v(pp_view(p), name, av, with_keeps));
}

proof fn lemma_tab_child_v(o: ParaProps, n: ParaProps, av: Seq<AttrView>)
    requires
        tab_child(o, n, av),
    ensures
        pp_view(n) == tab_step_v(pp_view(o), av),
{
    let align = match aval(av, "val") {
        Some(v) => tab_alignment_spec(v),
        None => None,
    };
    match (align, smeasure(aval(av, "pos"))) {
        (Some(a), Some(pos)) => {
            assert(n.tabs@ =~= o.tabs@.push(n.tabs@.last()));
            assert(n.tabs@.map_values(|t: TabStop| tab_v(t)) =~= o.tabs@.map_values(|t: TabStop| tab_v(t)).push((pos, Some(a), None)));
        },
        _ => {},
    }
    assert(pp_view(n) =~= tab_step_v(pp_view(o), av));
}

/// A table cell as the body walk sees it: its paragraphs, its grid span
/// and its vertical-merge role.
pub type CShape = (Seq<PShape>, u32, VMerge);

/// A table row's cells.
pub type RShape = Seq<CShape>;

/// A body block as the body walk sees it (a table: its rows and its grid
/// column widths).
pub enum BShape {
    Para(PShape),
    Tab(Seq<RShape>, Seq<i32>),
}

/// The number of direct runs (by their source) among a paragraph's runs.
pub open spec fn direct_count(runs: Seq<RunV>) -> nat
    decreases runs.len(),
{
    if runs.len() == 0 {
        0
    } else {
        direct_count(runs.drop_last()) + if runs.last().4 matches Some(RunSource::DirectRun(_)) {
            1nat
        } else {
            0nat
        }
    }
}

proof fn lemma_direct_count(runs: Seq<Run>, k: int)
    requires
        0 <= k <= runs.len(),
    ensures
        direct_before(runs, k) == direct_count(runs.take(k).map_values(|r: Run| runv(r))),
    decreases k,
{
    if k > 0 {
        lemma_direct_count(runs, k - 1);
        assert(runs.take(k).map_values(|r: Run| runv(r)).drop_last() =~= runs.take(k - 1).map_values(|r: Run| runv(r)));
        assert(runs.take(k).map_values(|r: Run| runv(r)).last() == runv(runs[k - 1]));
    } else {
        assert(runs.take(0).map_values(|r: Run| runv(r)) =~= Seq::<RunV>::empty());
    }
}

/// One more, wrapping at `u32::MAX`.
pub open spec fn wadd1(x: u32) -> u32 {
    if x == u32::MAX {
        0
    } else {
        (x + 1) as u32
    }
}

/// One less, wrapping at zero.
pub open spec fn wsub1(x: u32) -> u32 {
    if x == 0 {
        u32::MAX
    } else {
        (x - 1) as u32
    }
}

/// A run as the body walk sees it.
pub open spec fn runv(r: Run) -> RunV {
    (ubytes(r.text@), ochars(r.style_id), ochars(r.hyperlink), rp_view(r.props), r.source)
}

/// A paragraph as the body walk sees it.
pub open spec fn pshape(p: Paragraph) -> PShape {
    (ochars(p.style_id), p.runs@.map_values(|r: Run| runv(r)), pp_view(p.props))
}

/// A cell as the body walk sees it.
pub open spec fn cshape(c: TableCell) -> CShape {
    (c.paragraphs@.map_values(|p: Paragraph| pshape(p)), c.grid_span, c.v_merge)
}

/// A row's cells as the body walk sees them.
pub open spec fn rshape(r: TableRow) -> RShape {
    r.cells@.map_values(|c: TableCell| cshape(c))
}

/// A table's rows as the body walk sees them.
pub open spec fn tshape(t: Table) -> Seq<RShape> {
    t.rows@.map_values(|r: TableRow| rshape(r))
}

/// A body block as the body walk sees it.
pub open spec fn bshape(b: Block) -> BShape {
    match b {
        Block::Paragraph(p) => BShape::Para(pshape(p)),
        Block::Table(t) => BShape::Tab(tshape(t), t.column_widths@),
    }
}

/// The body's blocks as the body walk sees them.
pub open spec fn body_shape(v: Seq<Block>) -> Seq<BShape> {
    v.map_values(|b: Block| bshape(b))
}

/// The target of the first relationship with id `id`, if any.
pub open spec fn rel_target(rels: Seq<RelView>, id: Seq<char>, k: int) -> Option<Seq<char>>
    decreases rels.len() - k,
{
    if k < 0 || k >= rels.len() {
        None
    } else if rels[k].0 == id {
        Some(rels[k].2)
    } else {
        rel_target(rels, id, k + 1)
    }
}

/// What a `w:hyperlink` with attributes `av` points to: the target of the
/// relationship its `r:id` names (the id itself when none does), else `#`
/// and its anchor, else nothing.
pub open spec fn link_target(rels: Seq<RelView>, av: Seq<AttrView>) -> Seq<char> {
    match aval(av, "id") {
        Some(id) => match rel_target(rels, id, 0) {
            Some(t) => t,
            None => id,
        },
        None => match aval(av, "anchor") {
            Some(a) => "#"@ + a,
            None => Seq::empty(),
        },
    }
}

/// The relationships of the main part `main` (none when its `.rels` part is
/// missing).
pub open spec fn main_rels(ps: Seq<PartView>, main: Seq<char>) -> Seq<RelView> {
    match part_of(ps, vstd::utf8::decode_utf8(rels_name_of(ubytes(main)))) {
        Some(b) => rels_of(b),
        None => Seq::empty(),
    }
}

proof fn lemma_rel_target(items: Seq<crate::rels::Relationship>, id: Seq<char>, k: int)
    requires
        0 <= k,
    ensures
        rel_target(rel_views(items), id, k) matches Some(t) ==> exists|i: int|
            k <= i < items.len() && items[i].id@ == id && items[i].target@ == t && forall|j: int| k <= j < i ==> items[j].id@ != id,
        rel_target(rel_views(items), id, k) is None ==> forall|i: int| k <= i < items.len() ==> items[i].id@ != id,
    decreases items.len() - k,
{
    if k < items.len() {
        assert(rel_views(items)[k] == items[k]@);
        if items[k].id@ != id {
            lemma_rel_target(items, id, k + 1);
        }
    }
}

/// What a `w:hyperlink` with attributes `attrs` points to (see
/// [`link_target`]).
fn hyperlink_target(attrs: &Vec<AttrItem>, rels: &Relationships) -> (r: String)
    ensures
        r@ == link_target(rel_views(rels.items@), attr_views(attrs@)),
{
    match attr_value(attrs, "id") {
        Some(id) => {
            proof {
                lemma_rel_target(rels.items@, id@, 0);
            }
            match rels.by_id(id.as_str()) {
                Some(rel) => {
                    proof {
                        if rel_target(rel_views(rels.items@), id@, 0) is None {
                            let i = choose|i: int| 0 <= i < rels.items@.len() && rels.items@[i] == *rel && rels.items@[i].id@ == id@;
                            assert(rels.items@[i].id@ == id@);
                        } else {
                            let t = rel_target(rel_views(rels.items@), id@, 0)->0;
                            let i = choose|i: int| 0 <= i < rels.items@.len() && rels.items@[i].id@ == id@ && rels.items@[i].target@ == t
                                && forall|j: int| 0 <= j < i ==> rels.items@[j].id@ != id@;
                            let i2 = choose|i2: int| 0 <= i2 < rels.items@.len() && rels.items@[i2] == *rel && rels.items@[i2].id@ == id@
                                && forall|j: int| 0 <= j < i2 ==> rels.items@[j].id@ != id@;
                            if i < i2 {
                                assert(rels.items@[i].id@ != id@);
                            } else if i2 < i {
                                assert(rels.items@[i2].id@ != id@);
                            }
                        }
                    }
                    rel.target.clone()
                },
                None => id,
            }
        },
        None => match attr_value(attrs, "anchor") {
            Some(a) => {
                let mut s = owned("#");
                append(&mut s, a.as_str());
                s
            },
            None => {
                let s = String::new();
                assert(s@ =~= Seq::<char>::empty());
                s
            },
        },
    }
}

/// The relationships of the main part (none when its `.rels` part is
/// missing).
fn main_relationships(pkg: &OpcPackage, main_part: &str) -> (r: Relationships)
    ensures
        rel_views(r.items@) == main_rels(pkg@, main_part@),
{
    let rels_name = rels_part_name(main_part);
    proof {
        vstd::utf8::encode_utf8_decode_utf8(rels_name@);
    }
    match pkg.part(rels_name.as_str()) {
        Some(b) => Relationships::parse(b),
        None => {
            let r = Relationships::default();
            assert(rel_views(r.items@) =~= Seq::<RelView>::empty());
            r
        },
    }
}

/// The body walk's state as values: the open elements' local names, the
/// blocks so far, and what is open — a paragraph (children at
/// `para_depth`), a hyperlink (its target), a run (children at
/// `run_depth`) and whether its `w:t` is, a table, row and cell, a section
/// (its properties so far); and the sections read so far.
#[verifier::ext_equal]
pub struct WalkV {
    pub stack: Seq<Seq<u8>>,
    pub body: Seq<BShape>,
    pub para: Option<PShape>,
    pub para_depth: int,
    pub link: Option<Seq<char>>,
    pub run: Option<RunV>,
    pub run_depth: int,
    pub in_t: bool,
    pub table: Option<Seq<RShape>>,
    pub widths: Seq<i32>,
    pub row: Option<RShape>,
    pub cell: Option<CShape>,
    pub section: Option<Section>,
    pub sections: Seq<Section>,
    pub links: u32,
    pub link_runs: u32,
}

/// The open element at index `k` of the stack is named `lit`.
pub open spec fn at_s(stack: Seq<Seq<u8>>, k: int, lit: &str) -> bool {
    0 <= k < stack.len() && stack[k] == sbytes(lit)
}

/// An element named `name`, with attributes `av`, opens (its parent is the
/// stack's top). A paragraph opens directly under `w:body`, or directly under
/// the open cell's `w:tc`; a table directly under `w:body`; a row, a cell in
/// an open table (see [`table_part_shape`]); within an open paragraph, see
/// [`in_para_shape`]. Other elements change nothing here.
pub open spec fn open_shape(rels: Seq<RelView>, w: WalkV, kind: TokKind, name: Seq<u8>, av: Seq<AttrView>) -> WalkV {
    let d = w.stack.len() as int;
    let st = w.stack;
    if name == sbytes("p") && w.para is None && ((d == 2 && at_s(st, 1, "body")) || (d == 5 && w.cell is Some && at_s(st, 4, "tc"))) {
        WalkV { para: Some((None, Seq::empty(), no_para_props())), para_depth: d + 1, link: None, links: 0, ..w }
    } else if d == 2 && at_s(st, 1, "body") {
        body_child_shape(w, name)
    } else if w.table is Some && table_handles(w, name) {
        table_part_shape(w, name, av)
    } else if w.section is Some && d == 3 && at_s(st, 2, "sectPr") {
        WalkV { section: Some(section_child(w.section->0, name, av)), ..w }
    } else if w.para is None {
        w
    } else {
        in_para_shape(rels, w, kind, name, av)
    }
}

/// A child of `w:body` other than a paragraph opens: a table (when none is
/// open) or a section's properties.
pub open spec fn body_child_shape(w: WalkV, name: Seq<u8>) -> WalkV {
    if name == sbytes("tbl") && w.table is None {
        WalkV { table: Some(Seq::empty()), widths: Seq::empty(), ..w }
    } else if name == sbytes("sectPr") {
        WalkV { section: Some(default_section()), ..w }
    } else {
        w
    }
}

/// The element is part of the open table's structure: a grid column, a row
/// (when none is open), a cell (in an open row, when none is open), or a
/// cell property.
pub open spec fn table_handles(w: WalkV, name: Seq<u8>) -> bool {
    let d = w.stack.len() as int;
    let st = w.stack;
    ||| d == 4 && name == sbytes("gridCol") && at_s(st, 3, "tblGrid")
    ||| d == 3 && name == sbytes("tr") && w.row is None
    ||| d == 4 && name == sbytes("tc") && w.row is Some && w.cell is None
    ||| d == 6 && w.cell is Some && at_s(st, 5, "tcPr")
}

/// A part of the open table opens: a grid column adds its width (`w:w`,
/// when it reads); a row starts empty; a cell starts empty
/// with span one, not merged; a cell's `w:gridSpan` sets its span (when its
/// value reads as a count), its `w:vMerge` its merge role (restart for
/// `restart`, else continue).
pub open spec fn table_part_shape(w: WalkV, name: Seq<u8>, av: Seq<AttrView>) -> WalkV {
    let d = w.stack.len() as int;
    if d == 4 && name == sbytes("gridCol") && at_s(w.stack, 3, "tblGrid") {
        match aval(av, "w") {
            Some(v) => match unsigned_measure(v) {
                Some(x) => WalkV { widths: w.widths.push(x), ..w },
                None => w,
            },
            None => w,
        }
    } else if d == 3 && name == sbytes("tr") && w.row is None {
        WalkV { row: Some(Seq::empty()), ..w }
    } else if d == 4 && name == sbytes("tc") && w.row is Some && w.cell is None {
        WalkV { cell: Some((Seq::empty(), 1u32, VMerge::Unmerged)), ..w }
    } else if d == 6 && w.cell is Some && at_s(w.stack, 5, "tcPr") {
        let c = w.cell->0;
        if name == sbytes("gridSpan") {
            match aval(av, "val") {
                Some(v) => match half_points(v) {
                    Some(n) => WalkV { cell: Some((c.0, n, c.2)), ..w },
                    None => w,
                },
                None => w,
            }
        } else if name == sbytes("vMerge") {
            WalkV {
                cell: Some((c.0, c.1, if aval(av, "val") == Some("restart"@) { VMerge::Restart } else { VMerge::Continue })),
                ..w
            }
        } else {
            w
        }
    } else {
        w
    }
}

/// An element opens inside an open paragraph: its `w:pStyle` sets its style
/// id, its other properties its direct properties; a hyperlink opens
/// directly under it (when none is open), counted; a run opens directly
/// under it, its source the count of direct runs before it, or in a
/// hyperlink under its hyperlink, its source the hyperlink's and the run's
/// index there; inside an open run, see [`in_run_shape`].
pub open spec fn in_para_shape(rels: Seq<RelView>, w: WalkV, kind: TokKind, name: Seq<u8>, av: Seq<AttrView>) -> WalkV {
    let d = w.stack.len() as int;
    let st = w.stack;
    let pd = w.para_depth;
    if pd > 0 && d == pd + 1 && at_s(st, pd, "pPr") {
        let p = w.para->0;
        if name == sbytes("pStyle") {
            WalkV { para: Some((aval(av, "val"), p.1, p.2)), ..w }
        } else {
            WalkV { para: Some((p.0, p.1, ppr_step_v(p.2, name, av, true))), ..w }
        }
    } else if pd > 0 && d == pd + 2 && name == sbytes("tab") && at_s(st, pd + 1, "tabs") && at_s(st, pd, "pPr") {
        let p = w.para->0;
        WalkV { para: Some((p.0, p.1, tab_step_v(p.2, av))), ..w }
    } else if d == pd && name == sbytes("hyperlink") && w.link is None {
        WalkV { link: Some(link_target(rels, av)), links: wadd1(w.links), link_runs: 0, ..w }
    } else if name == sbytes("r") && w.run is None {
        if d == pd {
            WalkV {
                run: Some((Seq::empty(), None, None, no_props(), Some(RunSource::DirectRun(direct_count((w.para->0).1) as u32)))),
                run_depth: d + 1,
                ..w
            }
        } else if pd > 0 && d == pd + 1 && at_s(st, pd, "hyperlink") && w.link is Some {
            WalkV {
                run: Some((Seq::empty(), None, w.link, no_props(), Some(RunSource::HyperlinkRun(wsub1(w.links), w.link_runs)))),
                run_depth: d + 1,
                link_runs: wadd1(w.link_runs),
                ..w
            }
        } else {
            w
        }
    } else if w.run is None {
        w
    } else {
        in_run_shape(w, kind, name, av)
    }
}

/// More text for the open run.
pub open spec fn run_add(w: WalkV, more: Seq<u8>) -> WalkV {
    let r = w.run->0;
    WalkV { run: Some((r.0 + more, r.1, r.2, r.3, r.4)), ..w }
}

/// An element opens inside an open run: its `w:rStyle` sets its style id,
/// its other properties set its direct formatting (see [`rpr_step_v`]); directly under the run, `w:t`
/// starts (a start tag) or ends (an empty tag) its text, and `w:tab`,
/// `w:br`/`w:cr` and `w:noBreakHyphen` add a tab, a line break and a
/// non-breaking hyphen.
pub open spec fn in_run_shape(w: WalkV, kind: TokKind, name: Seq<u8>, av: Seq<AttrView>) -> WalkV {
    let d = w.stack.len() as int;
    let rd = w.run_depth;
    let r = w.run->0;
    if rd > 0 && d == rd + 1 && at_s(w.stack, rd, "rPr") {
        if name == sbytes("rStyle") {
            WalkV { run: Some((r.0, aval(av, "val"), r.2, r.3, r.4)), ..w }
        } else {
            WalkV { run: Some((r.0, r.1, r.2, rpr_step_v(r.3, name, av, true), r.4)), ..w }
        }
    } else if d == rd {
        if name == sbytes("t") {
            WalkV { in_t: kind == TokKind::Start, ..w }
        } else if name == sbytes("tab") {
            run_add(w, sbytes("\t"))
        } else if name == sbytes("br") || name == sbytes("cr") {
            run_add(w, sbytes("\n"))
        } else if name == sbytes("noBreakHyphen") {
            run_add(w, sbytes("\u{2011}"))
        } else {
            w
        }
    } else {
        w
    }
}

/// The element named `name` at stack depth `d` closes: a run joins its
/// paragraph; a paragraph joins the body (under `w:body`) or the open cell;
/// a cell its row; a row its table; a table the body.
pub open spec fn close_shape(w: WalkV, name: Seq<u8>, d: int) -> WalkV {
    if name == sbytes("t") {
        WalkV { in_t: false, ..w }
    } else if name == sbytes("r") && w.run is Some && w.run_depth > 0 && d == w.run_depth - 1 {
        WalkV {
            run: None,
            in_t: false,
            para: match w.para {
                Some(p) => Some((p.0, p.1.push(w.run->0), p.2)),
                None => None,
            },
            ..w
        }
    } else if name == sbytes("hyperlink") && w.para is Some && d == w.para_depth {
        WalkV { link: None, ..w }
    } else if name == sbytes("p") && w.para is Some && w.para_depth > 0 && d == w.para_depth - 1 {
        if d == 2 {
            WalkV { para: None, run: None, link: None, body: w.body.push(BShape::Para(w.para->0)), ..w }
        } else {
            WalkV {
                para: None,
                run: None,
                link: None,
                cell: match w.cell {
                    Some(c) => Some((c.0.push(w.para->0), c.1, c.2)),
                    None => None,
                },
                ..w
            }
        }
    } else if d == 4 && name == sbytes("tc") && w.cell is Some {
        WalkV {
            cell: None,
            row: match w.row {
                Some(r) => Some(r.push(w.cell->0)),
                None => None,
            },
            ..w
        }
    } else if d == 3 && name == sbytes("tr") && w.row is Some {
        WalkV {
            row: None,
            table: match w.table {
                Some(t) => Some(t.push(w.row->0)),
                None => None,
            },
            ..w
        }
    } else if d == 2 && name == sbytes("tbl") && w.table is Some {
        WalkV { table: None, widths: Seq::empty(), body: w.body.push(BShape::Tab(w.table->0, w.widths)), ..w }
    } else if d == 2 && name == sbytes("sectPr") && w.section is Some {
        WalkV { section: None, sections: w.sections.push(w.section->0), ..w }
    } else {
        w
    }
}

/// One token of the body walk: a start tag opens (and is pushed), an empty
/// tag opens and closes, an end tag pops and closes, and text or a
/// reference inside an open run's `w:t` adds to the run's text (see
/// [`token_text`]).
pub open spec fn walk_step(src: Seq<u8>, rels: Seq<RelView>, w: WalkV, t: TokView) -> WalkV {
    let name = local_of(t.1);
    let av = tag_attrs(src, t);
    if t.0 == TokKind::Start {
        let w1 = open_shape(rels, w, t.0, name, av);
        WalkV { stack: w1.stack.push(name), ..w1 }
    } else if t.0 == TokKind::Empty {
        close_shape(open_shape(rels, w, t.0, name, av), name, w.stack.len() as int)
    } else if t.0 == TokKind::End {
        if w.stack.len() > 0 {
            let top = w.stack.last();
            close_shape(WalkV { stack: w.stack.drop_last(), ..w }, top, w.stack.len() - 1)
        } else {
            w
        }
    } else if t.0 == TokKind::Text || t.0 == TokKind::Ref {
        if w.in_t && w.run is Some {
            run_add(w, token_text(src, t))
        } else {
            w
        }
    } else {
        w
    }
}

/// The walk's state before any token.
pub open spec fn walk_start() -> WalkV {
    WalkV {
        stack: Seq::empty(),
        body: Seq::empty(),
        para: None,
        para_depth: 0,
        link: None,
        run: None,
        run_depth: 0,
        in_t: false,
        table: None,
        row: None,
        cell: None,
        section: None,
        sections: Seq::empty(),
        widths: Seq::empty(),
        links: 0,
        link_runs: 0,
    }
}

/// The body walk over a token stream.
pub open spec fn body_walk(src: Seq<u8>, rels: Seq<RelView>, toks: Seq<TokView>) -> WalkV
    decreases toks.len(),
{
    if toks.len() == 0 {
        walk_start()
    } else {
        walk_step(src, rels, body_walk(src, rels, toks.drop_last()), toks.last())
    }
}

/// A measure read from an optional attribute value, or `keep` when it is
/// absent or does not read.
pub open spec fn measure_or(v: Option<Seq<char>>, signed: bool, keep: i32) -> i32 {
    match v {
        Some(x) => match if signed { signed_measure(x) } else { unsigned_measure(x) } {
            Some(m) => m,
            None => keep,
        },
        None => keep,
    }
}

/// Word's section when `w:sectPr` sets nothing: US Letter, 1-inch margins,
/// one column.
pub open spec fn default_section() -> Section {
    Section {
        page_width: 12240,
        page_height: 15840,
        margin_top: 1440,
        margin_bottom: 1440,
        margin_left: 1440,
        margin_right: 1440,
        columns: 1,
    }
}

/// A child of a section's properties applied to `s` (`av` its attributes):
/// `w:pgSz` sets the page width and height (`w`, `h`); `w:pgMar` the top and
/// bottom margins (signed) and the left and right margins; `w:cols` the
/// column count (`num`, at least one). A value that is absent or does not
/// read keeps what was there; any other element changes nothing.
pub open spec fn section_child(s: Section, name: Seq<u8>, av: Seq<AttrView>) -> Section {
    if name == sbytes("pgSz") {
        Section {
            page_width: measure_or(aval(av, "w"), false, s.page_width),
            page_height: measure_or(aval(av, "h"), false, s.page_height),
            ..s
        }
    } else if name == sbytes("pgMar") {
        Section {
            margin_top: measure_or(aval(av, "top"), true, s.margin_top),
            margin_bottom: measure_or(aval(av, "bottom"), true, s.margin_bottom),
            margin_left: measure_or(aval(av, "left"), false, s.margin_left),
            margin_right: measure_or(aval(av, "right"), false, s.margin_right),
            ..s
        }
    } else if name == sbytes("cols") {
        match aval(av, "num") {
            Some(v) => match half_points(v) {
                Some(n) => Section { columns: if n > 1 { n } else { 1 }, ..s },
                None => s,
            },
            None => s,
        }
    } else {
        s
    }
}

/// The walk's state over the main document's tokens.
struct Walker {
    /// Local names of the open elements.
    stack: Vec<Vec<u8>>,
    body: Vec<Block>,
    sections: Vec<Section>,
    body_paras: usize,
    para: Option<Paragraph>,
    /// Stack depth of the open paragraph's children.
    para_depth: usize,
    direct_runs: usize,
    links: u32,
    link_runs: u32,
    link: Option<String>,
    run: Option<Run>,
    /// Stack depth of the open run's children.
    run_depth: usize,
    in_t: bool,
    table: Option<Table>,
    row: Option<TableRow>,
    cell: Option<TableCell>,
    cell_paras: u32,
    section: Option<Section>,
}

impl Walker {
    /// The walk's state as values (see [`WalkV`]).
    spec fn shape(&self) -> WalkV {
        WalkV {
            stack: stack_view(self.stack@),
            body: body_shape(self.body@),
            para: match self.para {
                Some(p) => Some(pshape(p)),
                None => None,
            },
            para_depth: self.para_depth as int,
            link: ochars(self.link),
            run: match self.run {
                Some(r) => Some(runv(r)),
                None => None,
            },
            run_depth: self.run_depth as int,
            in_t: self.in_t,
            table: match self.table {
                Some(t) => Some(tshape(t)),
                None => None,
            },
            widths: match self.table {
                Some(t) => t.column_widths@,
                None => Seq::empty(),
            },
            row: match self.row {
                Some(r) => Some(rshape(r)),
                None => None,
            },
            cell: match self.cell {
                Some(c) => Some(cshape(c)),
                None => None,
            },
            section: self.section,
            sections: self.sections@,
            links: self.links,
            link_runs: self.link_runs,
        }
    }

    spec fn wf(&self) -> bool {
        &&& body_ordinals_ok(self.body@)
        &&& self.body_paras == paras_before(self.body@, self.body@.len() as int)
        &&& self.body_paras <= self.body@.len()
        &&& (self.para matches Some(p) ==> run_ordinals_ok(p.runs@) && self.direct_runs == direct_before(
            p.runs@,
            p.runs@.len() as int,
        ) && self.direct_runs <= p.runs@.len())
        &&& (self.para matches Some(p) ==> (self.para_depth == 3 ==> p.source_para_ord == self.body_paras as u32))
        &&& (self.run is Some ==> self.para is Some)
        &&& self.para_depth <= 6
        &&& self.run_depth <= 8
        &&& (self.run matches Some(r) ==> (r.source matches Some(RunSource::DirectRun(n)) ==> n == self.direct_runs as u32))
    }

    fn new() -> (w: Self)
        ensures
            w.wf(),
            w.shape() == walk_start(),
    {
        let w = Walker {
            stack: Vec::new(),
            body: Vec::new(),
            sections: Vec::new(),
            body_paras: 0,
            para: None,
            para_depth: 0,
            direct_runs: 0,
            links: 0,
            link_runs: 0,
            link: None,
            run: None,
            run_depth: 0,
            in_t: false,
            table: None,
            row: None,
            cell: None,
            cell_paras: 0,
            section: None,
        };
        assert(w.shape().stack =~= Seq::<Seq<u8>>::empty());
        assert(w.shape().body =~= Seq::<BShape>::empty());
        w
    }

    /// An element opens at stack depth `d` (its parent is `stack[d - 1]`).
    fn open(&mut self, src: &[u8], t: &XmlToken, name: &[u8], rels: &Relationships)
        requires
            old(self).wf(),
        ensures
            final(self).wf(),
            final(self).stack@ == old(self).stack@,
            final(self).shape() == open_shape(rel_views(rels.items@), old(self).shape(), t.kind, name@, tag_attrs(src@, t@)),
    {
        let d = self.stack.len();
        if is(name, "p") && self.para.is_none() && ((d == 2 && at(&self.stack, 1, "body")) || (d == 5 && self.cell.is_some()
            && at(&self.stack, 4, "tc"))) {
            self.start_para();
            return;
        }
        if d == 2 && at(&self.stack, 1, "body") {
            self.open_body_child(name);
            return;
        }
        if self.table.is_some() && self.open_table_part(src, t, name) {
            return;
        }
        if self.section.is_some() && d == 3 && at(&self.stack, 2, "sectPr") {
            self.open_section_child(src, t, name);
            return;
        }
        if self.para.is_none() {
            return;
        }
        self.open_in_para(src, t, name, rels);
    }

    /// A paragraph opens (see [`open_shape`]).
    fn start_para(&mut self)
        requires
            old(self).wf(),
            old(self).para is None,
            old(self).stack@.len() == 2 || old(self).stack@.len() == 5,
        ensures
            final(self).wf(),
            final(self).stack@ == old(self).stack@,
            final(self).shape() == (WalkV { para: Some((None, Seq::empty(), no_para_props())), para_depth: old(self).stack@.len() as int + 1, link: None, links: 0, ..old(self).shape() }),
    {
        let d = self.stack.len();
        let mut p = Paragraph::default();
        if d == 2 {
            #[verifier::truncate]
            let ord = self.body_paras as u32;
            p.source_para_ord = ord;
        } else {
            p.source_para_ord = self.cell_paras;
        }
        assert(pshape(p).1 =~= Seq::<RunV>::empty());
        assert(pp_view(p.props) =~= no_para_props());
        self.para = Some(p);
        self.para_depth = d + 1;
        self.direct_runs = 0;
        self.links = 0;
        self.link = None;
    }

    /// A child of `w:body` that is not a paragraph opens: a table or a
    /// section's properties.
    fn open_body_child(&mut self, name: &[u8])
        requires
            old(self).wf(),
        ensures
            final(self).wf(),
            final(self).stack@ == old(self).stack@,
            final(self).shape() == body_child_shape(old(self).shape(), name@),
    {
        if is(name, "tbl") && self.table.is_none() {
            let tb = Table { column_widths: Vec::new(), rows: Vec::new() };
            assert(tshape(tb) =~= Seq::<RShape>::empty());
            self.table = Some(tb);
        } else if is(name, "sectPr") {
            self.section = Some(Section::default());
        }
    }

    /// An element opens inside an open table: a grid column, a row, a cell,
    /// or a cell property. Tells whether it was one of those.
    fn open_table_part(&mut self, src: &[u8], t: &XmlToken, name: &[u8]) -> (handled: bool)
        requires
            old(self).wf(),
            old(self).table is Some,
        ensures
            final(self).wf(),
            final(self).stack@ == old(self).stack@,
            handled == table_handles(old(self).shape(), name@),
            final(self).shape() == if handled { table_part_shape(old(self).shape(), name@, tag_attrs(src@, t@)) } else { old(self).shape() },
    {
        let d = self.stack.len();
        if d == 4 && is(name, "gridCol") && at(&self.stack, 3, "tblGrid") {
            let attrs = attrs_of(src, t);
            if let Some(v) = attr_value(&attrs, "w") {
                if let Some(w) = unsigned_twips(v.as_str()) {
                    let mut tb = self.table.take().unwrap();
                    tb.column_widths.push(w);
                    self.table = Some(tb);
                }
            }
            return true;
        }
        if d == 3 && is(name, "tr") && self.row.is_none() {
            let row = TableRow { cells: Vec::new() };
            assert(rshape(row) =~= Seq::<CShape>::empty());
            self.row = Some(row);
            return true;
        }
        if d == 4 && is(name, "tc") && self.row.is_some() && self.cell.is_none() {
            let c = TableCell { paragraphs: Vec::new(), grid_span: 1, v_merge: VMerge::Unmerged };
            assert(cshape(c).0 =~= Seq::<PShape>::empty());
            self.cell = Some(c);
            self.cell_paras = 0;
            return true;
        }
        if d == 6 && self.cell.is_some() && at(&self.stack, 5, "tcPr") {
            let attrs = attrs_of(src, t);
            if is(name, "gridSpan") {
                if let Some(v) = attr_value(&attrs, "val") {
                    if let Some(n) = hps(v.as_str()) {
                        let mut c = self.cell.take().unwrap();
                        c.grid_span = n;
                        self.cell = Some(c);
                    }
                }
            } else if is(name, "vMerge") {
                let restart = match attr_value(&attrs, "val") {
                    Some(v) => crate::bytes::str_eq(v.as_str(), "restart"),
                    None => false,
                };
                let mut c = self.cell.take().unwrap();
                c.v_merge = if restart { VMerge::Restart } else { VMerge::Continue };
                self.cell = Some(c);
            }
            return true;
        }
        false
    }

    /// A child of an open section's properties opens: page size, margins or
    /// columns (see [`section_child`]).
    fn open_section_child(&mut self, src: &[u8], t: &XmlToken, name: &[u8])
        requires
            old(self).wf(),
            old(self).section is Some,
        ensures
            final(self).wf(),
            final(self).stack@ == old(self).stack@,
            final(self).shape() == (WalkV { section: Some(section_child(old(self).section->0, name@, tag_attrs(src@, t@))), ..old(self).shape() }),
            *final(self) == (Walker { section: Some(section_child(old(self).section->0, name@, tag_attrs(src@, t@))), ..*old(self) }),
    {
        let attrs = attrs_of(src, t);
        let mut s = self.section.take().unwrap();
        if is(name, "pgSz") {
            if let Some(v) = attr_value(&attrs, "w") {
                if let Some(w) = unsigned_twips(v.as_str()) {
                    s.page_width = w;
                }
            }
            if let Some(v) = attr_value(&attrs, "h") {
                if let Some(h) = unsigned_twips(v.as_str()) {
                    s.page_height = h;
                }
            }
        } else if is(name, "pgMar") {
            if let Some(v) = attr_value(&attrs, "top") {
                if let Some(x) = signed_twips(v.as_str()) {
                    s.margin_top = x;
                }
            }
            if let Some(v) = attr_value(&attrs, "bottom") {
                if let Some(x) = signed_twips(v.as_str()) {
                    s.margin_bottom = x;
                }
            }
            if let Some(v) = attr_value(&attrs, "left") {
                if let Some(x) = unsigned_twips(v.as_str()) {
                    s.margin_left = x;
                }
            }
            if let Some(v) = attr_value(&attrs, "right") {
                if let Some(x) = unsigned_twips(v.as_str()) {
                    s.margin_right = x;
                }
            }
        } else if is(name, "cols") {
            if let Some(v) = attr_value(&attrs, "num") {
                if let Some(n) = hps(v.as_str()) {
                    s.columns = if n > 1 { n } else { 1 };
                }
            }
        }
        self.section = Some(s);
        assert(self.shape() =~= (WalkV { section: Some(section_child(old(self).section->0, name@, tag_attrs(src@, t@))), ..old(self).shape() }));
    }

    /// A run opens directly under the open paragraph: its source is the
    /// count of direct runs before it.
    fn start_direct_run(&mut self)
        requires
            old(self).wf(),
            old(self).para is Some,
            old(self).run is None,
            old(self).stack@.len() == old(self).para_depth,
        ensures
            final(self).wf(),
            final(self).stack@ == old(self).stack@,
            final(self).shape() == (WalkV {
                run: Some((Seq::empty(), None, None, no_props(), Some(RunSource::DirectRun(direct_count((old(self).shape().para->0).1) as u32)))),
                run_depth: old(self).stack@.len() as int + 1,
                ..old(self).shape()
            }),
    {
        let d = self.stack.len();
        proof {
            let p = self.para->0;
            lemma_direct_count(p.runs@, p.runs@.len() as int);
            assert(p.runs@.take(p.runs@.len() as int) =~= p.runs@);
        }
        let mut r = Run::default();
        #[verifier::truncate]
        let ord = self.direct_runs as u32;
        r.source = Some(RunSource::DirectRun(ord));
        proof {
            assert(rp_view(r.props) == no_props());
            assert(ubytes(r.text@) =~= Seq::<u8>::empty());
        }
        self.run = Some(r);
        self.run_depth = d + 1;
    }

    /// A run opens in the open paragraph's hyperlink: its source is the
    /// hyperlink's index and the run's index there.
    fn start_link_run(&mut self)
        requires
            old(self).wf(),
            old(self).para is Some,
            old(self).run is None,
            old(self).link is Some,
            old(self).stack@.len() == old(self).para_depth + 1,
        ensures
            final(self).wf(),
            final(self).stack@ == old(self).stack@,
            final(self).shape() == (WalkV {
                run: Some((Seq::empty(), None, old(self).shape().link, no_props(), Some(RunSource::HyperlinkRun(wsub1(old(self).links), old(self).link_runs)))),
                run_depth: old(self).stack@.len() as int + 1,
                link_runs: wadd1(old(self).link_runs),
                ..old(self).shape()
            }),
    {
        let d = self.stack.len();
        let mut r = Run::default();
        r.source = Some(RunSource::HyperlinkRun(self.links.wrapping_sub(1), self.link_runs));
        r.hyperlink = match &self.link {
            Some(l) => Some(l.clone()),
            None => None,
        };
        proof {
            assert(rp_view(r.props) == no_props());
            assert(ubytes(r.text@) =~= Seq::<u8>::empty());
        }
        self.link_runs = self.link_runs.wrapping_add(1);
        self.run = Some(r);
        self.run_depth = d + 1;
    }

    /// An element opens inside an open paragraph (see [`in_para_shape`]).
    fn open_in_para(&mut self, src: &[u8], t: &XmlToken, name: &[u8], rels: &Relationships)
        requires
            old(self).wf(),
            old(self).para is Some,
        ensures
            final(self).wf(),
            final(self).stack@ == old(self).stack@,
            final(self).shape() == in_para_shape(rel_views(rels.items@), old(self).shape(), t.kind, name@, tag_attrs(src@, t@)),
    {
        let d = self.stack.len();
        let pd = self.para_depth;
        // Paragraph properties.
        if pd > 0 && d == pd + 1 && at(&self.stack, pd, "pPr") {
            let attrs = attrs_of(src, t);
            let mut p = self.para.take().unwrap();
            if is(name, "pStyle") {
                p.style_id = attr_value(&attrs, "val");
            } else {
                let ghost p0 = p.props;
                apply_ppr_child(&mut p.props, name, &attrs, true);
                proof {
                    lemma_ppr_child_v(p0, name@, attr_views(attrs@), true);
                }
            }
            self.para = Some(p);
            return;
        }
        if pd > 0 && d == pd + 2 && is(name, "tab") && at(&self.stack, pd + 1, "tabs") && at(&self.stack, pd, "pPr") {
            let attrs = attrs_of(src, t);
            let mut p = self.para.take().unwrap();
            let ghost p0 = p.props;
            apply_tab(&mut p.props, &attrs);
            proof {
                lemma_tab_child_v(p0, p.props, attr_views(attrs@));
            }
            self.para = Some(p);
            return;
        }
        if d == pd && is(name, "hyperlink") && self.link.is_none() {
            let attrs = attrs_of(src, t);
            let target = hyperlink_target(&attrs, rels);
            self.link = Some(target);
            self.links = self.links.wrapping_add(1);
            self.link_runs = 0;
            return;
        }
        if is(name, "r") && self.run.is_none() {
            if d == pd {
                self.start_direct_run();
                return;
            }
            if pd > 0 && d == pd + 1 && at(&self.stack, pd, "hyperlink") && self.link.is_some() {
                self.start_link_run();
                return;
            }
            return;
        }
        if self.run.is_none() {
            return;
        }
        self.open_in_run(src, t, name);
    }

    /// An element opens inside an open run (see [`in_run_shape`]).
    fn open_in_run(&mut self, src: &[u8], t: &XmlToken, name: &[u8])
        requires
            old(self).wf(),
            old(self).para is Some,
            old(self).run is Some,
        ensures
            final(self).wf(),
            final(self).stack@ == old(self).stack@,
            final(self).shape() == in_run_shape(old(self).shape(), t.kind, name@, tag_attrs(src@, t@)),
    {
        let d = self.stack.len();
        let rd = self.run_depth;
        if rd > 0 && d == rd + 1 && at(&self.stack, rd, "rPr") {
            let attrs = attrs_of(src, t);
            let mut r = self.run.take().unwrap();
            if is(name, "rStyle") {
                r.style_id = attr_value(&attrs, "val");
            } else {
                let ghost p0 = r.props;
                apply_rpr_child(&mut r.props, name, &attrs, true);
                proof {
                    lemma_rpr_child_v(p0, r.props, name@, attr_views(attrs@), true);
                }
            }
            self.run = Some(r);
            return;
        }
        if d == rd {
            if is(name, "t") {
                self.in_t = t.kind == TokKind::Start;
            } else if is(name, "tab") {
                let mut r = self.run.take().unwrap();
                append(&mut r.text, "\t");
                self.run = Some(r);
            } else if is(name, "br") || is(name, "cr") {
                let mut r = self.run.take().unwrap();
                append(&mut r.text, "\n");
                self.run = Some(r);
            } else if is(name, "noBreakHyphen") {
                let mut r = self.run.take().unwrap();
                append(&mut r.text, "\u{2011}");
                self.run = Some(r);
            }
        }
    }

    /// The element at stack depth `d` closes.
    /// One token of the walk (see [`walk_step`]).
    fn step(&mut self, src: &[u8], t: &XmlToken, rels: &Relationships)
        requires
            old(self).wf(),
        ensures
            final(self).wf(),
            final(self).shape() == walk_step(src@, rel_views(rels.items@), old(self).shape(), t@),
    {
        let ghost w0 = self.shape();
        match t.kind {
            TokKind::Start => {
                let name = local_name(&t.name);
                self.open(src, t, &name, rels);
                let ghost w1 = self.shape();
                self.stack.push(name);
                assert(self.shape() =~= (WalkV { stack: w1.stack.push(name@), ..w1 }));
            },
            TokKind::Empty => {
                let name = local_name(&t.name);
                self.open(src, t, &name, rels);
                let d = self.stack.len();
                self.close(&name, d);
            },
            TokKind::End => {
                if self.stack.len() > 0 {
                    let ghost top = self.stack@.last()@;
                    let name = self.stack.pop().unwrap();
                    assert(self.shape() =~= (WalkV { stack: w0.stack.drop_last(), ..w0 }));
                    let d = self.stack.len();
                    self.close(&name, d);
                }
            },
            TokKind::Text | TokKind::Ref => {
                if self.in_t && self.run.is_some() {
                    let mut r = self.run.take().unwrap();
                    append_text(&mut r.text, src, t);
                    self.run = Some(r);
                }
            },
            TokKind::Other => {},
        }
    }

    /// The open run closes and joins its paragraph.
    fn close_run(&mut self)
        requires
            old(self).wf(),
            old(self).run is Some,
        ensures
            final(self).wf(),
            final(self).stack@ == old(self).stack@,
            final(self).shape() == (WalkV {
                run: None,
                in_t: false,
                para: match old(self).shape().para {
                    Some(p) => Some((p.0, p.1.push(old(self).shape().run->0), p.2)),
                    None => None,
                },
                ..old(self).shape()
            }),
    {
        let r = self.run.take().unwrap();
        if self.para.is_some() {
            let mut p = self.para.take().unwrap();
            let ghost before = p.runs@;
            let is_direct = match r.source {
                Some(RunSource::DirectRun(_)) => true,
                _ => false,
            };
            p.runs.push(r);
            proof {
                lemma_direct_push(before, r);
                assert(pshape(p).1 =~= before.map_values(|x: Run| runv(x)).push(runv(r)));
            }
            let n = p.runs.len();
            if is_direct {
                self.direct_runs = self.direct_runs + 1;
            }
            self.para = Some(p);
        }
        self.in_t = false;
    }

    /// The open paragraph, closing at stack depth `d`, joins the body (at
    /// depth two) or the open cell.
    fn close_para(&mut self, d: usize)
        requires
            old(self).wf(),
            old(self).para is Some,
            old(self).para_depth > 0,
            d == old(self).para_depth - 1,
        ensures
            final(self).wf(),
            final(self).stack@ == old(self).stack@,
            final(self).shape() == if d == 2 {
                WalkV { para: None, run: None, link: None, body: old(self).shape().body.push(BShape::Para(old(self).shape().para->0)), ..old(self).shape() }
            } else {
                WalkV {
                    para: None,
                    run: None,
                    link: None,
                    cell: match old(self).shape().cell {
                        Some(c) => Some((c.0.push(old(self).shape().para->0), c.1, c.2)),
                        None => None,
                    },
                    ..old(self).shape()
                }
            },
    {
        let p = self.para.take().unwrap();
        self.run = None;
        self.link = None;
        if d == 2 {
            let ghost before = self.body@;
            self.body.push(Block::Paragraph(p));
            proof {
                assert(self.body@.drop_last() =~= before);
                lemma_body_push(before, self.body@);
                assert(body_shape(self.body@) =~= body_shape(before).push(BShape::Para(pshape(p))));
            }
            let n = self.body.len();
            self.body_paras = self.body_paras + 1;
        } else if self.cell.is_some() {
            let mut c = self.cell.take().unwrap();
            let ghost before = c.paragraphs@;
            c.paragraphs.push(p);
            assert(cshape(c).0 =~= before.map_values(|x: Paragraph| pshape(x)).push(pshape(p)));
            self.cell = Some(c);
            self.cell_paras = self.cell_paras.wrapping_add(1);
        }
    }

    fn close(&mut self, name: &[u8], d: usize)
        requires
            old(self).wf(),
        ensures
            final(self).wf(),
            final(self).stack@ == old(self).stack@,
            final(self).shape() == close_shape(old(self).shape(), name@, d as int),
    {
        if is(name, "t") {
            self.in_t = false;
            return;
        }
        if is(name, "r") && self.run.is_some() && self.run_depth > 0 && d == self.run_depth - 1 {
            self.close_run();
            return;
        }
        if is(name, "hyperlink") && self.para.is_some() && d == self.para_depth {
            self.link = None;
            return;
        }
        if is(name, "p") && self.para.is_some() && self.para_depth > 0 && d == self.para_depth - 1 {
            self.close_para(d);
            return;
        }
        if d == 4 && is(name, "tc") && self.cell.is_some() {
            let c = self.cell.take().unwrap();
            if self.row.is_some() {
                let mut row = self.row.take().unwrap();
                let ghost before = row.cells@;
                row.cells.push(c);
                assert(rshape(row) =~= before.map_values(|x: TableCell| cshape(x)).push(cshape(c)));
                self.row = Some(row);
            }
            return;
        }
        if d == 3 && is(name, "tr") && self.row.is_some() {
            let row = self.row.take().unwrap();
            if self.table.is_some() {
                let mut tb = self.table.take().unwrap();
                let ghost before = tb.rows@;
                tb.rows.push(row);
                assert(tshape(tb) =~= before.map_values(|x: TableRow| rshape(x)).push(rshape(row)));
                self.table = Some(tb);
            }
            return;
        }
        if d == 2 && is(name, "tbl") && self.table.is_some() {
            let tb = self.table.take().unwrap();
            let ghost before = self.body@;
            self.body.push(Block::Table(tb));
            proof {
                assert(self.body@.drop_last() =~= before);
                lemma_body_push(before, self.body@);
                assert(body_shape(self.body@) =~= body_shape(before).push(BShape::Tab(tshape(tb), tb.column_widths@)));
            }
            return;
        }
        if d == 2 && is(name, "sectPr") && self.section.is_some() {
            let s = self.section.take().unwrap();
            self.sections.push(s);
        }
    }
}

/// Walk the main document's tokens into body blocks and sections.
fn walk_body(src: &[u8], toks: &Vec<XmlToken>, rels: &Relationships) -> (r: (Vec<Block>, Vec<Section>))
    ensures
        body_ordinals_ok(r.0@),
        body_shape(r.0@) == body_walk(src@, rel_views(rels.items@), tviews(toks@)).body,
        r.1@ == body_walk(src@, rel_views(rels.items@), tviews(toks@)).sections,
{
    let mut w = Walker::new();
    let mut k: usize = 0;
    let ghost tv = tviews(toks@);
    assert(tv.take(0) =~= Seq::<TokView>::empty());
    while k < toks.len()
        invariant
            k <= toks@.len(),
            w.wf(),
            tv == tviews(toks@),
            w.shape() == body_walk(src@, rel_views(rels.items@), tv.take(k as int)),
        decreases toks@.len() - k,
    {
        let t = &toks[k];
        assert(tv.take(k + 1).drop_last() =~= tv.take(k as int));
        assert(tv.take(k + 1).last() == t@);
        w.step(src, t, rels);
        k = k + 1;
    }
    assert(tv.take(toks@.len() as int) =~= tv);
    (w.body, w.sections)
}

/// A style's kind from its `w:type` (paragraph when absent or unknown).
pub open spec fn style_kind_spec(v: Option<Seq<char>>) -> StyleKind {
    match v {
        Some(s) => if s == "character"@ {
            StyleKind::Character
        } else if s == "table"@ {
            StyleKind::Table
        } else if s == "numbering"@ {
            StyleKind::Numbering
        } else {
            StyleKind::Paragraph
        },
        None => StyleKind::Paragraph,
    }
}

/// A style's kind (see [`style_kind_spec`]).
fn style_kind(v: &Option<String>) -> (k: StyleKind)
    ensures
        k == style_kind_spec(ochars(*v)),
{
    match v {
        Some(s) => if crate::bytes::str_eq(s.as_str(), "character") {
            StyleKind::Character
        } else if crate::bytes::str_eq(s.as_str(), "table") {
            StyleKind::Table
        } else if crate::bytes::str_eq(s.as_str(), "numbering") {
            StyleKind::Numbering
        } else {
            StyleKind::Paragraph
        },
        None => StyleKind::Paragraph,
    }
}

/// A style as the catalog reads it: its id, its kind, its display name,
/// its parent id, and its paragraph and run properties.
pub type StyleHead = (Seq<char>, StyleKind, Option<Seq<char>>, Option<Seq<char>>, ParaPropsV, RunPropsV);

/// The heads of a list of styles.
pub open spec fn heads(v: Seq<Style>) -> Seq<StyleHead> {
    v.map_values(|st: Style| (st.style_id@, st.kind, ochars(st.name), ochars(st.based_on), pp_view(st.para), rp_view(st.run)))
}

/// The styles walk's state: the open elements' local names, the style being
/// read (when it has an id), the styles read so far, and the document
/// defaults' paragraph and run properties.
pub type StyleWalk = (Seq<Seq<u8>>, Option<StyleHead>, Seq<StyleHead>, (ParaPropsV, RunPropsV));

/// What an element opening under the open elements `st` does to the style
/// being read `cur`: a `w:style` directly under the root starts one when it
/// has a `w:styleId` (its kind from `w:type`, see [`style_kind_spec`]; no
/// name, parent or property yet) and drops it otherwise; within the style,
/// `w:name` and `w:basedOn` set its name and parent from `w:val`, a
/// `w:pPr` child (and a `w:pPr/w:tabs/w:tab` stop) its paragraph
/// properties, a `w:rPr` child its run properties.
pub open spec fn style_open(st: Seq<Seq<u8>>, cur: Option<StyleHead>, name: Seq<u8>, av: Seq<AttrView>) -> Option<StyleHead> {
    let d = st.len();
    if d == 1 && name == sbytes("style") {
        match aval(av, "styleId") {
            Some(id) => Some((id, style_kind_spec(aval(av, "type")), None, None, no_para_props(), no_props())),
            None => None,
        }
    } else {
        match cur {
            Some((id, kind, nm, parent, pp, rp)) => if d == 2 && st[1] == sbytes("style") && name == sbytes("name") {
                Some((id, kind, aval(av, "val"), parent, pp, rp))
            } else if d == 2 && st[1] == sbytes("style") && name == sbytes("basedOn") {
                Some((id, kind, nm, aval(av, "val"), pp, rp))
            } else if d == 3 && st[1] == sbytes("style") && st[2] == sbytes("pPr") {
                Some((id, kind, nm, parent, ppr_step_v(pp, name, av, true), rp))
            } else if d == 4 && st[1] == sbytes("style") && st[2] == sbytes("pPr") && st[3] == sbytes("tabs") && name == sbytes("tab") {
                Some((id, kind, nm, parent, tab_step_v(pp, av), rp))
            } else if d == 3 && st[1] == sbytes("style") && st[2] == sbytes("rPr") {
                Some((id, kind, nm, parent, pp, rpr_step_v(rp, name, av, true)))
            } else {
                cur
            },
            None => None,
        }
    }
}

/// What an element opening does to the document defaults: a child of
/// `w:docDefaults/w:rPrDefault/w:rPr` or `w:docDefaults/w:pPrDefault/w:pPr`
/// sets the defaults' run or paragraph properties (the default subset, see
/// [`rpr_child`] and [`ppr_child`]).
pub open spec fn defaults_open(st: Seq<Seq<u8>>, dd: (ParaPropsV, RunPropsV), name: Seq<u8>, av: Seq<AttrView>) -> (ParaPropsV, RunPropsV) {
    if st.len() == 4 && st[1] == sbytes("docDefaults") && st[2] == sbytes("rPrDefault") && st[3] == sbytes("rPr") {
        (dd.0, rpr_step_v(dd.1, name, av, false))
    } else if st.len() == 4 && st[1] == sbytes("docDefaults") && st[2] == sbytes("pPrDefault") && st[3] == sbytes("pPr") {
        (ppr_step_v(dd.0, name, av, false), dd.1)
    } else {
        dd
    }
}

/// One token of the styles walk: an element opens (see [`style_open`] and
/// [`defaults_open`]) and a start tag is pushed; the style being read is
/// kept when its element closes (at once for an empty element).
pub open spec fn style_step(src: Seq<u8>, w: StyleWalk, t: TokView) -> StyleWalk {
    let stack = w.0;
    let cur = w.1;
    let out = w.2;
    if t.0 == TokKind::Start || t.0 == TokKind::Empty {
        let name = local_of(t.1);
        let top = stack.len() == 1 && name == sbytes("style");
        let av = tag_attrs(src, t);
        let cur2 = style_open(stack, cur, name, av);
        let dd = defaults_open(stack, w.3, name, av);
        if t.0 == TokKind::Start {
            (stack.push(name), cur2, out, dd)
        } else if top {
            match cur2 {
                Some(h) => (stack, None, out.push(h), dd),
                None => (stack, None, out, dd),
            }
        } else {
            (stack, cur2, out, dd)
        }
    } else if t.0 == TokKind::End && stack.len() > 0 {
        let name = stack.last();
        let rest = stack.drop_last();
        if rest.len() == 1 && name == sbytes("style") {
            match cur {
                Some(h) => (rest, None, out.push(h), w.3),
                None => (rest, None, out, w.3),
            }
        } else {
            (rest, cur, out, w.3)
        }
    } else {
        w
    }
}

/// The styles walk over a token stream.
pub open spec fn style_walk(src: Seq<u8>, toks: Seq<TokView>) -> StyleWalk
    decreases toks.len(),
{
    if toks.len() == 0 {
        (Seq::empty(), None, Seq::empty(), (no_para_props(), no_props()))
    } else {
        style_step(src, style_walk(src, toks.drop_last()), toks.last())
    }
}

/// The styles a styles part's tokens define, in order (see [`style_step`]).
pub open spec fn styles_of(src: Seq<u8>, toks: Seq<TokView>) -> Seq<StyleHead> {
    style_walk(src, toks).2
}

/// The local names of a stack of element names.
pub open spec fn stack_view(v: Seq<Vec<u8>>) -> Seq<Seq<u8>> {
    v.map_values(|n: Vec<u8>| n@)
}

/// The style being read, as the walk sees it.
pub open spec fn opt_head(cur: Option<Style>) -> Option<StyleHead> {
    match cur {
        Some(st) => Some((st.style_id@, st.kind, ochars(st.name), ochars(st.based_on), pp_view(st.para), rp_view(st.run))),
        None => None,
    }
}

/// An element named `name` (token `t`) opens under the open elements
/// `stack`: the style being read changes as [`style_open`] says.
fn open_style_elem(cur: &mut Option<Style>, stack: &Vec<Vec<u8>>, name: &[u8], src: &[u8], t: &XmlToken)
    ensures
        opt_head(*final(cur)) == style_open(stack_view(stack@), opt_head(*old(cur)), name@, tag_attrs(src@, t@)),
{
    let d = stack.len();
    if d == 1 && is(name, "style") {
        let attrs = attrs_of(src, t);
        *cur = match attr_value(&attrs, "styleId") {
            Some(id) => Some(Style {
                style_id: id,
                name: None,
                kind: style_kind(&attr_value(&attrs, "type")),
                based_on: None,
                para: ParaProps::default(),
                run: RunProps::default(),
            }),
            None => None,
        };
        proof {
            if *cur is Some {
                assert(pp_view(cur->0.para) =~= no_para_props());
            }
        }
    } else if d == 2 && cur.is_some() && at(stack, 1, "style") && (is(name, "name") || is(name, "basedOn")) {
        let attrs = attrs_of(src, t);
        let mut st = cur.take().unwrap();
        if is(name, "name") {
            st.name = attr_value(&attrs, "val");
        } else {
            st.based_on = attr_value(&attrs, "val");
        }
        *cur = Some(st);
    } else if d == 3 && cur.is_some() && at(stack, 1, "style") && at(stack, 2, "pPr") {
        let attrs = attrs_of(src, t);
        let mut st = cur.take().unwrap();
        let ghost p0 = st.para;
        apply_ppr_child(&mut st.para, name, &attrs, true);
        proof {
            lemma_ppr_child_v(p0, name@, attr_views(attrs@), true);
        }
        *cur = Some(st);
    } else if d == 4 && cur.is_some() && at(stack, 1, "style") && at(stack, 2, "pPr") && at(stack, 3, "tabs") && is(name, "tab") {
        let attrs = attrs_of(src, t);
        let mut st = cur.take().unwrap();
        let ghost p0 = st.para;
        apply_tab(&mut st.para, &attrs);
        proof {
            lemma_tab_child_v(p0, st.para, attr_views(attrs@));
        }
        *cur = Some(st);
    } else if d == 3 && cur.is_some() && at(stack, 1, "style") && at(stack, 2, "rPr") {
        let attrs = attrs_of(src, t);
        let mut st = cur.take().unwrap();
        let ghost r0 = st.run;
        apply_rpr_child(&mut st.run, name, &attrs, true);
        proof {
            lemma_rpr_child_v(r0, st.run, name@, attr_views(attrs@), true);
        }
        *cur = Some(st);
    }
}

/// An element named `name` (token `t`) opens under the open elements
/// `stack`: the document defaults change as [`defaults_open`] says.
fn open_defaults_elem(dd: &mut Defaults, stack: &Vec<Vec<u8>>, name: &[u8], src: &[u8], t: &XmlToken)
    ensures
        (pp_view(final(dd).para), rp_view(final(dd).run)) == defaults_open(
            stack_view(stack@),
            (pp_view(old(dd).para), rp_view(old(dd).run)),
            name@,
            tag_attrs(src@, t@),
        ),
{
    let d = stack.len();
    if d == 4 && at(stack, 1, "docDefaults") && at(stack, 2, "rPrDefault") && at(stack, 3, "rPr") {
        let attrs = attrs_of(src, t);
        let ghost r0 = dd.run;
        apply_rpr_child(&mut dd.run, name, &attrs, false);
        proof {
            lemma_rpr_child_v(r0, dd.run, name@, attr_views(attrs@), false);
        }
    } else if d == 4 && at(stack, 1, "docDefaults") && at(stack, 2, "pPrDefault") && at(stack, 3, "pPr") {
        let attrs = attrs_of(src, t);
        let ghost p0 = dd.para;
        apply_ppr_child(&mut dd.para, name, &attrs, false);
        proof {
            lemma_ppr_child_v(p0, name@, attr_views(attrs@), false);
        }
    }
}

/// Walk a styles part's tokens into the catalog: the document defaults
/// (`w:docDefaults`) and every `w:style` that has a `w:styleId` (see
/// [`styles_of`]).
fn walk_styles(src: &[u8], toks: &Vec<XmlToken>) -> (r: StyleCatalog)
    ensures
        heads(r.styles@) == styles_of(src@, tviews(toks@)),
        (pp_view(r.doc_defaults.para), rp_view(r.doc_defaults.run)) == style_walk(src@, tviews(toks@)).3,
{
    let mut out = StyleCatalog::default();
    let mut stack: Vec<Vec<u8>> = Vec::new();
    let mut cur: Option<Style> = None;
    let mut k: usize = 0;
    let ghost tv = tviews(toks@);
    assert(tv.take(0) =~= Seq::<TokView>::empty());
    assert(heads(out.styles@) =~= Seq::<StyleHead>::empty());
    assert(stack_view(stack@) =~= Seq::<Seq<u8>>::empty());
    assert(pp_view(out.doc_defaults.para) =~= no_para_props());
    while k < toks.len()
        invariant
            k <= toks@.len(),
            tv == tviews(toks@),
            stack_view(stack@) == style_walk(src@, tv.take(k as int)).0,
            opt_head(cur) == style_walk(src@, tv.take(k as int)).1,
            heads(out.styles@) == style_walk(src@, tv.take(k as int)).2,
            (pp_view(out.doc_defaults.para), rp_view(out.doc_defaults.run)) == style_walk(src@, tv.take(k as int)).3,
        decreases toks@.len() - k,
    {
        let t = &toks[k];
        assert(tv.take(k + 1).drop_last() =~= tv.take(k as int));
        assert(tv.take(k + 1).last() == t@);
        let ghost w0 = style_walk(src@, tv.take(k as int));
        let ghost outs0 = out.styles@;
        let ghost stack0 = stack@;
        if t.kind == TokKind::Start || t.kind == TokKind::Empty {
            let name = local_name(&t.name);
            let d = stack.len();
            open_style_elem(&mut cur, &stack, &name, src, t);
            open_defaults_elem(&mut out.doc_defaults, &stack, &name, src, t);
            if t.kind == TokKind::Start {
                stack.push(name);
            } else if d == 1 && is(&name, "style") {
                if let Some(st) = cur.take() {
                    out.styles.push(st);
                }
            }
        } else if t.kind == TokKind::End {
            if stack.len() > 0 {
                let name = stack.pop().unwrap();
                if stack.len() == 1 && is(&name, "style") {
                    if let Some(st) = cur.take() {
                        out.styles.push(st);
                    }
                }
            }
        }
        proof {
            let w1 = style_step(src@, w0, t@);
            assert(style_walk(src@, tv.take(k + 1)) == w1);
            assert(stack_view(stack@) =~= w1.0);
            assert(heads(out.styles@) =~= w1.2);
        }
        k = k + 1;
    }
    assert(tv.take(toks@.len() as int) =~= tv);
    out
}

/// The styles of the styles part that the main part `main` (as bytes)
/// relates to: none when the part is missing, is not readable XML or nests
/// too deeply.
pub open spec fn styles_in(ps: Seq<PartView>, main: Seq<u8>) -> Seq<StyleHead> {
    match styles_part_spec(ps, main) {
        Some(n) => match part_of(ps, vstd::utf8::decode_utf8(n)) {
            Some(b) => if xml_scan(b).1 is None && depth_excess(0, crate::xml::doc_tokens(b)) is None {
                styles_of(b, crate::xml::doc_tokens(b))
            } else {
                Seq::empty()
            },
            None => Seq::empty(),
        },
        None => Seq::empty(),
    }
}

/// The document defaults of the styles part that the main part `main` (as
/// bytes) relates to: none set when the part is missing, is not readable
/// XML or nests too deeply.
pub open spec fn defaults_in(ps: Seq<PartView>, main: Seq<u8>) -> (ParaPropsV, RunPropsV) {
    match styles_part_spec(ps, main) {
        Some(n) => match part_of(ps, vstd::utf8::decode_utf8(n)) {
            Some(b) => if xml_scan(b).1 is None && depth_excess(0, crate::xml::doc_tokens(b)) is None {
                style_walk(b, crate::xml::doc_tokens(b)).3
            } else {
                (no_para_props(), no_props())
            },
            None => (no_para_props(), no_props()),
        },
        None => (no_para_props(), no_props()),
    }
}

/// A catalog's document defaults as values.
pub open spec fn defaults_v(c: StyleCatalog) -> (ParaPropsV, RunPropsV) {
    (pp_view(c.doc_defaults.para), rp_view(c.doc_defaults.run))
}

/// An empty catalog (no styles, no defaults).
fn empty_catalog() -> (r: StyleCatalog)
    ensures
        r.styles@.len() == 0,
        defaults_v(r) == (no_para_props(), no_props()),
{
    let r = StyleCatalog::default();
    assert(pp_view(r.doc_defaults.para) =~= no_para_props());
    r
}

/// The style catalog from the styles part, empty when the part is missing,
/// nests too deeply or is not readable XML.
fn read_styles(pkg: &OpcPackage, main_part: &str) -> (r: StyleCatalog)
    ensures
        heads(r.styles@) == styles_in(pkg@, sbytes(main_part)),
        defaults_v(r) == defaults_in(pkg@, sbytes(main_part)),
{
    let name = match styles_part(pkg, main_part) {
        Some(n) => n,
        None => {
            return empty_catalog();
        },
    };
    proof {
        vstd::utf8::encode_utf8_decode_utf8(name@);
    }
    let b = match pkg.part(name.as_str()) {
        Some(b) => b,
        None => {
            return empty_catalog();
        },
    };
    let (toks, err) = scan_xml(b);
    if err.is_some() || depth_within_limit(&toks).is_some() {
        return empty_catalog();
    }
    walk_styles(b, &toks)
}

/// The body blocks of the main part `main` as the walk reads them (see
/// [`body_walk`]), hyperlinks resolved through its relationships.
pub open spec fn body_in(ps: Seq<PartView>, main: Seq<char>) -> Seq<BShape> {
    match part_of(ps, main) {
        Some(src) => body_walk(src, main_rels(ps, main), crate::xml::doc_tokens(src)).body,
        None => Seq::empty(),
    }
}

/// The sections of the main part `main`, in order (see [`body_walk`]).
pub open spec fn sections_in(ps: Seq<PartView>, main: Seq<char>) -> Seq<Section> {
    match part_of(ps, main) {
        Some(src) => body_walk(src, main_rels(ps, main), crate::xml::doc_tokens(src)).sections,
        None => Seq::empty(),
    }
}

/// What importing a package gives, apart from the model itself.
pub open spec fn import_ok(bytes: Seq<u8>, ps: Seq<PartView>, main: Seq<char>) -> bool {
    &&& read_spec(bytes) == Some(ps)
    &&& ubytes(main) == main_name_spec(ps)
    &&& match part_of(ps, main) {
        Some(src) => depth_excess(0, crate::xml::doc_tokens(src)) is None && xml_scan(src).1 is None,
        None => false,
    }
}

/// The main part's bytes, when `name` is the main part name of the package
/// read from `bytes` and the part is there.
pub open spec fn main_bytes(bytes: Seq<u8>, name: Seq<char>) -> Option<Seq<u8>> {
    match read_spec(bytes) {
        Some(ps) => if ubytes(name) == main_name_spec(ps) {
            part_of(ps, name)
        } else {
            None
        },
        None => None,
    }
}

/// The package read from `bytes` lacks its main part, named `name`.
pub open spec fn main_missing(bytes: Seq<u8>, name: Seq<char>) -> bool {
    match read_spec(bytes) {
        Some(ps) => ubytes(name) == main_name_spec(ps) && part_of(ps, name) is None,
        None => false,
    }
}

/// Why importing `bytes` fails with `e`.
pub open spec fn import_error(bytes: Seq<u8>, e: OoxmlError) -> bool {
    match e {
        OoxmlError::MissingPart(n) => main_missing(bytes, n@),
        OoxmlError::NestingTooDeep { part, depth, limit } => match main_bytes(bytes, part@) {
            Some(src) => depth_excess(0, crate::xml::doc_tokens(src)) == Some(depth as nat) && limit == MAX_ELEMENT_DEPTH,
            None => false,
        },
        OoxmlError::Xml { part, detail } => match main_bytes(bytes, part@) {
            Some(src) => depth_excess(0, crate::xml::doc_tokens(src)) is None && xml_scan(src).1 == Some(detail@),
            None => false,
        },
        OoxmlError::LegacyBinaryDoc => crate::opc::is_cfb(bytes),
        OoxmlError::RichTextFormat => crate::opc::is_rtf(bytes) && !crate::opc::is_cfb(bytes),
        OoxmlError::Zip(_) => read_spec(bytes) is None && !crate::opc::is_cfb(bytes) && !crate::opc::is_rtf(bytes),
        _ => false,
    }
}

/// Import a `.docx`/`.dotx` package, keeping the package and the main part
/// name for save-back.
pub fn import_docx_with_package(bytes: &[u8]) -> (r: Result<(DocxDocument, OpcPackage, String), OoxmlError>)
    ensures
        match r {
            Ok((doc, pkg, main)) => import_ok(bytes@, pkg@, main@) && body_ordinals_ok(doc.body@) && body_shape(doc.body@)
                == body_in(pkg@, main@) && heads(doc.styles.styles@) == styles_in(pkg@, ubytes(main@)) && doc.sections@
                == sections_in(pkg@, main@) && defaults_v(doc.styles) == defaults_in(pkg@, ubytes(main@)),
            Err(e) => import_error(bytes@, e),
        },
{
    let pkg = match OpcPackage::read(bytes) {
        Ok(p) => p,
        Err(e) => {
            return Err(e);
        },
    };
    let main_part = match main_document_part(&pkg) {
        Some(n) => n,
        None => {
            let n = owned("word/document.xml");
            proof {
                reveal_strlit("word/document.xml");
                vstd::utf8::encode_utf8_decode_utf8("word/document.xml"@);
            }
            n
        },
    };
    assert(ubytes(main_part@) == main_name_spec(pkg@));
    let doc_bytes = match pkg.require(main_part.as_str()) {
        Ok(b) => b,
        Err(e) => {
            return Err(e);
        },
    };
    let (toks, err) = scan_xml(doc_bytes);
    if let Some(depth) = depth_within_limit(&toks) {
        return Err(OoxmlError::NestingTooDeep { part: main_part.clone(), depth, limit: MAX_ELEMENT_DEPTH });
    }
    if let Some(m) = err {
        return Err(OoxmlError::xml(main_part.clone(), m));
    }
    let rels = main_relationships(&pkg, main_part.as_str());
    let (body, sections) = walk_body(doc_bytes, &toks, &rels);
    let styles = read_styles(&pkg, main_part.as_str());
    Ok((DocxDocument { body, styles, sections }, pkg, main_part))
}

/// Import a `.docx`/`.dotx` package into the semantic model.
pub fn import_docx(bytes: &[u8]) -> (r: Result<DocxDocument, OoxmlError>)
    ensures
        match r {
            Ok(doc) => exists|ps: Seq<PartView>, main: Seq<char>|
                import_ok(bytes@, ps, main) && body_ordinals_ok(doc.body@) && body_shape(doc.body@) == body_in(ps, main) && heads(
                    doc.styles.styles@,
                ) == styles_in(ps, ubytes(main)) && doc.sections@ == sections_in(ps, main) && defaults_v(doc.styles)
                    == defaults_in(ps, ubytes(main)),
            Err(e) => import_error(bytes@, e),
        },
{
    match import_docx_with_package(bytes) {
        Ok((doc, _pkg, _main)) => Ok(doc),
        Err(e) => Err(e),
    }
}

} // verus!
