//! A thin, verified layer over `quick-xml`: the document is tokenized once by
//! the outside reader into byte-addressed tokens, and everything the library
//! decides about those tokens (element nesting, subtree extents, local names)
//! is computed and proved here.

use vstd::prelude::*;
use crate::bytes::{bytes_eq, push_bytes};
use quick_xml::events::Event;

verus! {

/// The kind of one tokenizer event.
#[derive(Clone, Copy, PartialEq, Eq, Structural, Debug)]
pub enum TokKind {
    /// An opening tag `<a ...>`.
    Start,
    /// A closing tag `</a>`.
    End,
    /// A self-closing tag `<a .../>`.
    Empty,
    /// Character data between tags (entity references excluded).
    Text,
    /// An entity or character reference `&name;` (its name is carried).
    Ref,
    /// Anything else (declarations, comments, CDATA, processing instructions).
    Other,
}

/// One tokenizer event: its kind, the qualified tag name (or reference name),
/// and the byte span `[start, end)` it occupies in the input.
pub struct XmlToken {
    pub kind: TokKind,
    pub name: Vec<u8>,
    pub start: usize,
    pub end: usize,
}

impl View for XmlToken {
    type V = (TokKind, Seq<u8>, nat, nat);

    open spec fn view(&self) -> Self::V {
        (self.kind, self.name@, self.start as nat, self.end as nat)
    }
}

/// The event stream `quick-xml` produces for a document (text not trimmed),
/// up to its end or its first error: each event's kind, qualified tag name (or
/// reference name) and the reader's byte position just after it; and the
/// error's message when the reader stopped at one.
pub uninterp spec fn xml_scan(src: Seq<u8>) -> (Seq<(TokKind, Seq<u8>, nat)>, Option<Seq<char>>);

/// The event stream as the wrapper hands it back, as values.
pub open spec fn event_views(evs: Seq<(TokKind, Vec<u8>, usize)>) -> Seq<(TokKind, Seq<u8>, nat)> {
    evs.map_values(|e: (TokKind, Vec<u8>, usize)| (e.0, e.1@, e.2 as nat))
}

/// One step of the reader: an event (kind and name), the end of the input,
/// or an error with its message.
pub enum Step {
    Event(TokKind, Vec<u8>),
    Done,
    Fault(String),
}

/// The `quick-xml` event type, carried opaquely.
#[verifier::external_type_specification]
#[verifier::external_body]
pub struct ExEvent<'a>(Event<'a>);

/// The `quick-xml` error type, carried opaquely.
#[verifier::external_type_specification]
#[verifier::external_body]
pub struct ExXmlError(quick_xml::Error);

/// Tells the variants of a `quick_xml` read result apart: the kind of an
/// event with its qualified name (or reference name), `Done` at `Eof`, and the
/// error's `Display` text on an error.
#[verifier::external_body]
fn step_of(e: Result<Event<'_>, quick_xml::Error>) -> Step {
    match e {
        Ok(Event::Start(e)) => Step::Event(TokKind::Start, e.name().0.into()),
        Ok(Event::End(e)) => Step::Event(TokKind::End, e.name().0.into()),
        Ok(Event::Empty(e)) => Step::Event(TokKind::Empty, e.name().0.into()),
        Ok(Event::Text(_)) => Step::Event(TokKind::Text, Vec::new()),
        Ok(Event::GeneralRef(e)) => Step::Event(TokKind::Ref, e.as_bytes().into()),
        Ok(Event::Eof) => Step::Done,
        Err(e) => Step::Fault(e.to_string()),
        Ok(_) => Step::Event(TokKind::Other, Vec::new()),
    }
}

/// Calls `quick_xml::Reader::read_event` over the whole input, recording each
/// event's kind, name and `buffer_position` after it; stops at the end or at
/// the first error, whose message it keeps. Nothing about the positions is
/// promised here: callers check them.
#[verifier::external_body]
pub(crate) fn scan_events(src: &[u8]) -> (r: (Vec<(TokKind, Vec<u8>, usize)>, Option<String>))
    ensures
        (event_views(r.0@), match r.1 {
            Some(m) => Some(m@),
            None => None,
        }) == xml_scan(src@),
{
    let mut r = quick_xml::Reader::from_reader(src);
    r.config_mut().trim_text(false);
    let mut evs = Vec::new();
    loop {
        match step_of(r.read_event()) {
            Step::Event(kind, name) => evs.push((kind, name, r.buffer_position() as usize)),
            Step::Done => return (evs, None),
            Step::Fault(m) => return (evs, Some(m)),
        }
    }
}

/// The tokens of a document: each event of [`scan_events`] with the byte span
/// it occupies (it starts where the previous event ended, the first at 0).
pub open spec fn token_spans(evs: Seq<(TokKind, Seq<u8>, nat)>) -> Seq<(TokKind, Seq<u8>, nat, nat)> {
    Seq::new(evs.len(), |k: int| (evs[k].0, evs[k].1, if k == 0 { 0 } else { evs[k - 1].2 }, evs[k].2))
}

/// Tokenize a document with `quick-xml`: [`token_spans`] of its event stream,
/// and the reader's error message when it stopped at an error.
pub fn scan_xml(src: &[u8]) -> (r: (Vec<XmlToken>, Option<String>))
    ensures
        tviews(r.0@) == token_spans(xml_scan(src@).0),
        xml_scan(src@).1 == match r.1 {
            Some(m) => Some(m@),
            None => None,
        },
{
    let (evs, err) = scan_events(src);
    let ghost ev = xml_scan(src@).0;
    let mut toks: Vec<XmlToken> = Vec::new();
    let mut prev: usize = 0;
    let mut k: usize = 0;
    while k < evs.len()
        invariant
            k <= evs@.len(),
            event_views(evs@) == ev,
            toks@.len() == k,
            prev == if k == 0 { 0 } else { evs@[k - 1].2 },
            forall|j: int| 0 <= j < k ==> #[trigger] toks@[j]@ == token_spans(ev)[j],
        decreases evs@.len() - k,
    {
        let e = &evs[k];
        let mut name: Vec<u8> = Vec::new();
        push_bytes(&mut name, &e.1);
        assert(ev[k as int] == (e.0, e.1@, e.2 as nat));
        toks.push(XmlToken { kind: e.0, name, start: prev, end: e.2 });
        prev = e.2;
        k = k + 1;
    }
    assert(tviews(toks@) =~= token_spans(ev));
    (toks, err)
}

/// One attribute as the reader yields it: nothing when the attribute itself
/// cannot be read; otherwise its key as written and its normalized value
/// (nothing when the value cannot be normalized).
pub type AttrView = Option<(Seq<u8>, Option<Seq<char>>)>;

/// An attribute as the reader yields it (see [`AttrView`]).
pub type AttrItem = Option<(Vec<u8>, Option<String>)>;

/// The attribute items as values.
pub open spec fn attr_views(v: Seq<AttrItem>) -> Seq<AttrView> {
    v.map_values(|a: AttrItem| match a {
        Some(p) => Some((p.0@, match p.1 {
            Some(s) => Some(s@),
            None => None,
        })),
        None => None,
    })
}

/// The attributes `quick-xml` reads from a start tag's content (the text
/// between `<` and `>`, whose first `name_len` bytes are the tag name), in order.
pub uninterp spec fn xml_attrs(content: Seq<char>, name_len: nat) -> Seq<AttrView>;

/// The value of a digit in the given radix (10, or 16 with `a`–`f` in
/// either case).
pub open spec fn digit_value(c: char, radix: nat) -> Option<nat> {
    if '0' <= c <= '9' {
        Some((c as nat - '0' as nat) as nat)
    } else if radix == 16 && 'a' <= c <= 'f' {
        Some((c as nat - 'a' as nat + 10) as nat)
    } else if radix == 16 && 'A' <= c <= 'F' {
        Some((c as nat - 'A' as nat + 10) as nat)
    } else {
        None
    }
}

/// The number the digits spell in the given radix; nothing when one of
/// them is not a digit.
pub open spec fn digits_value(s: Seq<char>, radix: nat) -> Option<nat>
    decreases s.len(),
{
    if s.len() == 0 {
        Some(0)
    } else {
        match (digits_value(s.drop_last(), radix), digit_value(s.last(), radix)) {
            (Some(v), Some(d)) => Some(v * radix + d),
            _ => None,
        }
    }
}

/// A number as `u32::from_str_radix` reads it after `quick-xml` refused a
/// leading sign: one or more digits whose value fits a `u32`.
pub open spec fn radix_u32(s: Seq<char>, radix: nat) -> Option<nat> {
    if s.len() == 0 || s[0] == '+' || s[0] == '-' {
        None
    } else {
        match digits_value(s, radix) {
            Some(v) => if v <= u32::MAX {
                Some(v)
            } else {
                None
            },
            None => None,
        }
    }
}

/// The character a character reference (`#123` or `#x1F`) stands for, as
/// `quick-xml` reads it: after `#`, an `x` and hexadecimal digits or else
/// decimal digits, no sign; zero and values that are not Unicode scalar
/// values are refused; nothing for other names.
pub open spec fn xml_char_ref(name: Seq<char>) -> Option<char> {
    if name.len() > 0 && name[0] == '#' {
        let num = name.drop_first();
        let code = if num.len() > 0 && num[0] == 'x' {
            radix_u32(num.drop_first(), 16)
        } else {
            radix_u32(num, 10)
        };
        match code {
            Some(c) => if c != 0 && (c < 0xD800 || (0xE000 <= c && c <= 0x10FFFF)) {
                Some(c as char)
            } else {
                None
            },
            None => None,
        }
    } else {
        None
    }
}

/// The replacement text of one of the five predefined XML entities.
pub open spec fn predefined_spec(name: Seq<char>) -> Option<Seq<char>> {
    if name == "lt"@ {
        Some("<"@)
    } else if name == "gt"@ {
        Some(">"@)
    } else if name == "amp"@ {
        Some("&"@)
    } else if name == "apos"@ {
        Some("'"@)
    } else if name == "quot"@ {
        Some("\""@)
    } else {
        None
    }
}

/// Calls `quick_xml::escape::resolve_predefined_entity` (without the
/// `escape-html` feature): the five predefined XML entities, nothing else.
#[verifier::external_body]
fn predefined_entity(name: &str) -> (r: Option<&'static str>)
    ensures
        predefined_spec(name@) == match r {
            Some(v) => Some(v@),
            None => None,
        },
{
    quick_xml::escape::resolve_predefined_entity(name)
}

/// Calls `quick_xml::events::BytesRef::resolve_char_ref` on a reference name
/// (see [`xml_char_ref`]: `parse_number` over `u32::from_str_radix` and
/// `char::from_u32`); an error reads as nothing.
#[verifier::external_body]
fn char_ref(name: &str) -> (r: Option<char>)
    ensures
        r == xml_char_ref(name@),
{
    quick_xml::events::BytesRef::new(name).resolve_char_ref().ok().flatten()
}

/// Calls `char::to_string`: the text of one character.
#[verifier::external_body]
fn char_text(c: char) -> (r: String)
    ensures
        r@ == seq![c],
{
    c.to_string()
}

/// The replacement text of an entity or character reference name: a
/// predefined entity, else a character reference; nothing for a name that is
/// not text or not known.
pub open spec fn entity_spec(name: Seq<u8>) -> Option<Seq<char>> {
    if vstd::utf8::valid_utf8(name) {
        let n = vstd::utf8::decode_utf8(name);
        match predefined_spec(n) {
            Some(v) => Some(v),
            None => match xml_char_ref(n) {
                Some(c) => Some(seq![c]),
                None => None,
            },
        }
    } else {
        None
    }
}

/// Resolve a reference name (see [`entity_spec`]).
pub fn resolve_entity(name: &[u8]) -> (r: Option<String>)
    ensures
        entity_spec(name@) == match r {
            Some(s) => Some(s@),
            None => None,
        },
{
    let n = match crate::bytes::utf8_str(name) {
        Some(n) => n,
        None => {
            return None;
        },
    };
    proof {
        vstd::utf8::encode_utf8_decode_utf8(n@);
    }
    match predefined_entity(n) {
        Some(v) => Some(crate::text::owned(v)),
        None => match char_ref(n) {
            Some(c) => Some(char_text(c)),
            None => None,
        },
    }
}

/// Calls `quick_xml::events::BytesStart::from_content(..).attributes()` and
/// `Attribute::normalized_value` on each attribute read. The name length must
/// end on a character boundary, since the attribute iterator slices the text there.
#[verifier::external_body]
pub fn scan_attrs(content: &str, name_len: usize) -> (attrs: Vec<AttrItem>)
    requires
        vstd::utf8::is_char_boundary(crate::bytes::sbytes(content), name_len as int),
    ensures
        attr_views(attrs@) == xml_attrs(content@, name_len as nat),
{
    let tag = quick_xml::events::BytesStart::from_content(content, name_len);
    tag.attributes().map(|a| a.ok().map(|a| (
        a.key.as_ref().as_bytes().to_vec(),
        a.normalized_value(quick_xml::XmlVersion::Implicit1_0).ok().map(|v| v.into_owned()),
    ))).collect()
}

/// A token as a value: (kind, qualified name, start, end).
pub type TokView = (TokKind, Seq<u8>, nat, nat);

/// The tokens as values.
pub open spec fn tviews(toks: Seq<XmlToken>) -> Seq<TokView> {
    toks.map_values(|t: XmlToken| t@)
}

/// Token spans are ordered, non-overlapping and inside the input.
pub open spec fn spans_ok(toks: Seq<XmlToken>, len: nat) -> bool {
    &&& forall|k: int| 0 <= k < toks.len() ==> toks[k].start <= toks[k].end && toks[k].end <= len
    &&& forall|a: int, b: int| 0 <= a < b < toks.len() ==> toks[a].end <= toks[b].start
}

/// Check [`spans_ok`] in one pass over adjacent tokens.
pub fn check_spans(toks: &Vec<XmlToken>, len: usize) -> (r: bool)
    ensures
        r == spans_ok(toks@, len as nat),
{
    let mut k: usize = 0;
    while k < toks.len()
        invariant
            k <= toks@.len(),
            forall|j: int| 0 <= j < k ==> toks@[j].start <= toks@[j].end && toks@[j].end <= len,
            forall|a: int, b: int| 0 <= a < b < k ==> toks@[a].end <= toks@[b].start,
        decreases toks@.len() - k,
    {
        if toks[k].start > toks[k].end || toks[k].end > len {
            return false;
        }
        if k > 0 && toks[k - 1].end > toks[k].start {
            assert(!spans_ok(toks@, len as nat));
            return false;
        }
        assert forall|a: int, b: int| 0 <= a < b < k + 1 implies toks@[a].end <= toks@[b].start by {
            if b == k && a < k - 1 {
                assert(toks@[a].end <= toks@[k - 1].start);
            }
        }
        k = k + 1;
    }
    true
}

/// The index of the first `:` in a qualified name, if any.
pub open spec fn colon_at(q: Seq<u8>) -> Option<int>
    decreases q.len(),
{
    if q.len() == 0 {
        None
    } else if q[0] == 0x3a {
        Some(0)
    } else {
        match colon_at(q.drop_first()) {
            Some(i) => Some(i + 1),
            None => None,
        }
    }
}

proof fn lemma_colon_at(q: Seq<u8>)
    ensures
        match colon_at(q) {
            Some(i) => 0 <= i < q.len() && q[i] == 0x3a && forall|k: int| 0 <= k < i ==> q[k] != 0x3a,
            None => forall|k: int| 0 <= k < q.len() ==> q[k] != 0x3a,
        },
    decreases q.len(),
{
    if q.len() > 0 {
        lemma_colon_at(q.drop_first());
        if q[0] != 0x3a {
            assert forall|k: int| 1 <= k < q.len() implies q[k] == q.drop_first()[k - 1] by {}
        }
    }
}

/// A qualified name without its namespace prefix (`w:p` → `p`).
pub open spec fn local_of(q: Seq<u8>) -> Seq<u8> {
    match colon_at(q) {
        Some(i) => q.subrange(i + 1, q.len() as int),
        None => q,
    }
}

/// Strip an XML namespace prefix from a qualified name (`a:b` -> `b`).
pub fn local_name(qname: &[u8]) -> (r: Vec<u8>)
    ensures
        r@ == local_of(qname@),
{
    proof { lemma_colon_at(qname@); }
    let mut i: usize = 0;
    while i < qname.len()
        invariant
            i <= qname@.len(),
            forall|k: int| 0 <= k < i ==> qname@[k] != 0x3a,
        decreases qname@.len() - i,
    {
        if qname[i] == 0x3a {
            proof {
                lemma_colon_at(qname@);
                match colon_at(qname@) {
                    Some(j) => {
                        if j < i {
                            assert(qname@[j] != 0x3a);
                        } else if j > i {
                            assert(qname@[i as int] != 0x3a);
                        }
                    },
                    None => {
                        assert(qname@[i as int] != 0x3a);
                    },
                }
            }
            let mut out = Vec::new();
            push_bytes(&mut out, &qname[i + 1..qname.len()]);
            return out;
        }
        i = i + 1;
    }
    let mut out = Vec::new();
    push_bytes(&mut out, qname);
    out
}

/// Is the token at `k` an opening (`Start`) tag named exactly `name`?
pub open spec fn opens(toks: Seq<XmlToken>, k: int, name: Seq<u8>) -> bool {
    toks[k].kind == TokKind::Start && toks[k].name@ == name
}

/// Is the token at `k` a closing tag named exactly `name`?
pub open spec fn closes(toks: Seq<XmlToken>, k: int, name: Seq<u8>) -> bool {
    toks[k].kind == TokKind::End && toks[k].name@ == name
}

/// How many same-name elements opened in `[from, to)` are still open at
/// `to` (opening tags less closing tags named `name`).
pub open spec fn nesting(tv: Seq<TokView>, from: int, to: int, name: Seq<u8>) -> int
    decreases to - from,
{
    if to <= from {
        0
    } else {
        nesting(tv, from, to - 1, name) + if tv[to - 1].0 == TokKind::Start && tv[to - 1].1 == name {
            1int
        } else if tv[to - 1].0 == TokKind::End && tv[to - 1].1 == name {
            -1int
        } else {
            0int
        }
    }
}

/// Token `k` closes the element opened at `i`: a closing tag of its name with
/// no same-name element left open in between.
pub open spec fn closes_at(tv: Seq<TokView>, i: int, k: int) -> bool {
    tv[k].0 == TokKind::End && tv[k].1 == tv[i].1 && nesting(tv, i + 1, k, tv[i].1) == 0
}

/// The first token from `k` on that closes the element opened at `i`, or the
/// token count when none does.
pub open spec fn first_close(tv: Seq<TokView>, i: int, k: int) -> int
    decreases tv.len() - k,
{
    if k >= tv.len() {
        tv.len() as int
    } else if closes_at(tv, i, k) {
        k
    } else {
        first_close(tv, i, k + 1)
    }
}

proof fn lemma_first_close_skip(tv: Seq<TokView>, i: int, m: int, j: int)
    requires
        m <= j <= tv.len(),
        forall|k: int| m <= k < j ==> !closes_at(tv, i, k),
    ensures
        first_close(tv, i, m) == first_close(tv, i, j),
    decreases j - m,
{
    if m < j {
        lemma_first_close_skip(tv, i, m + 1, j);
    }
}

/// The index of the `End` token that closes the `Start` token at `i`, counting
/// nested same-name elements (the rule `read_to_end` follows), or the token
/// count when the element is never closed.
pub fn matching_end(toks: &Vec<XmlToken>, i: usize) -> (j: usize)
    requires
        i < toks@.len(),
    ensures
        i < j <= toks@.len(),
        j < toks@.len() ==> closes(toks@, j as int, toks@[i as int].name@),
        j == first_close(tviews(toks@), i as int, i + 1),
{
    let n = toks.len();
    let name = &toks[i].name;
    let mut depth: usize = 0;
    let mut j: usize = i + 1;
    while j < toks.len()
        invariant
            i < j <= toks@.len(),
            depth <= j - i,
            name@ == toks@[i as int].name@,
            depth as int == nesting(tviews(toks@), i + 1, j as int, name@),
            forall|k: int| i < k < j ==> !closes_at(tviews(toks@), i as int, k),
        decreases toks@.len() - j,
    {
        let t = &toks[j];
        assert(tviews(toks@)[j as int] == t@);
        assert(tviews(toks@)[i as int] == toks@[i as int]@);
        if t.kind == TokKind::Start && bytes_eq(&t.name, name) {
            depth = depth + 1;
        } else if t.kind == TokKind::End && bytes_eq(&t.name, name) {
            if depth == 0 {
                proof {
                    lemma_first_close_skip(tviews(toks@), i as int, i + 1, j as int);
                }
                return j;
            }
            depth = depth - 1;
        }
        j = j + 1;
    }
    proof {
        lemma_first_close_skip(tviews(toks@), i as int, i + 1, j as int);
    }
    j
}

/// The tokens of a document, as values.
pub open spec fn doc_tokens(src: Seq<u8>) -> Seq<TokView> {
    token_spans(xml_scan(src).0)
}

/// The content of a start or empty tag token (the bytes between `<` and `>`
/// or `/>`), or nothing when the span is too short to hold its name.
pub open spec fn tag_content(src: Seq<u8>, t: TokView) -> Option<Seq<u8>> {
    let close: int = if t.0 == TokKind::Empty { 2 } else { 1 };
    if (t.0 == TokKind::Start || t.0 == TokKind::Empty) && t.2 + 1 + t.1.len() + close <= t.3
        && t.3 <= src.len() {
        Some(src.subrange(t.2 as int + 1, t.3 as int - close))
    } else {
        None
    }
}

/// The attributes of a start or empty tag token, as the reader reads them
/// (none when the tag cannot be read as text split after its name).
pub open spec fn tag_attrs(src: Seq<u8>, t: TokView) -> Seq<AttrView> {
    match tag_content(src, t) {
        Some(c) => if vstd::utf8::valid_utf8(c) && vstd::utf8::is_char_boundary(c, t.1.len() as int) {
            xml_attrs(vstd::utf8::decode_utf8(c), t.1.len())
        } else {
            Seq::empty()
        },
        None => Seq::empty(),
    }
}

/// The attributes of tag token `t` of `src`.
pub fn attrs_of(src: &[u8], t: &XmlToken) -> (r: Vec<AttrItem>)
    ensures
        attr_views(r@) == tag_attrs(src@, t@),
{
    let close: usize = if t.kind == TokKind::Empty { 2 } else { 1 };
    let nl = t.name.len();
    let none: Vec<AttrItem> = Vec::new();
    assert(attr_views(none@) =~= Seq::<AttrView>::empty());
    if (t.kind == TokKind::Start || t.kind == TokKind::Empty) && t.start < usize::MAX - nl
        && t.start + 1 + nl <= usize::MAX - close && t.start + 1 + nl + close <= t.end && t.end
        <= src.len() {
        let content = &src[t.start + 1..t.end - close];
        match crate::bytes::utf8_str(content) {
            Some(text) => {
                proof { vstd::utf8::encode_utf8_decode_utf8(text@); }
                if text.is_char_boundary(nl) {
                    scan_attrs(text, nl)
                } else {
                    none
                }
            },
            None => none,
        }
    } else {
        none
    }
}

/// Does an attribute key (qualified, or local when `local` is set) equal `key`?
pub open spec fn key_is(k: Seq<u8>, key: Seq<u8>, local: bool) -> bool {
    (if local { local_of(k) } else { k }) == key
}

/// The value of the first readable attribute whose key matches (see
/// [`key_is`]); unreadable attributes are passed over. The inner nothing
/// marks a value that could not be normalized.
pub open spec fn attr_val(attrs: Seq<AttrView>, key: Seq<u8>, local: bool) -> Option<Option<Seq<char>>>
    decreases attrs.len(),
{
    if attrs.len() == 0 {
        None
    } else {
        match attr_val(attrs.drop_last(), key, local) {
            Some(v) => Some(v),
            None => match attrs.last() {
                Some(p) => if key_is(p.0, key, local) {
                    Some(p.1)
                } else {
                    None
                },
                None => None,
            },
        }
    }
}

proof fn lemma_attr_val_prefix(av: Seq<AttrView>, i: int, key: Seq<u8>, local: bool)
    requires
        0 < i <= av.len(),
        attr_val(av.subrange(0, i), key, local) is Some,
    ensures
        attr_val(av, key, local) == attr_val(av.subrange(0, i), key, local),
    decreases av.len() - i,
{
    if i < av.len() {
        assert(av.subrange(0, i + 1).drop_last() =~= av.subrange(0, i));
        lemma_attr_val_prefix(av, i + 1, key, local);
    } else {
        assert(av.subrange(0, i) =~= av);
    }
}

/// Look up an attribute (see [`attr_val`]).
pub fn find_attr(attrs: &Vec<AttrItem>, key: &str, local: bool) -> (r: Option<Option<String>>)
    ensures
        attr_val(attr_views(attrs@), crate::bytes::sbytes(key), local) == match r {
            Some(Some(v)) => Some(Some(v@)),
            Some(None) => Some(None),
            None => None,
        },
{
    let ghost av = attr_views(attrs@);
    let mut i: usize = 0;
    while i < attrs.len()
        invariant
            i <= attrs@.len(),
            av == attr_views(attrs@),
            attr_val(av.subrange(0, i as int), crate::bytes::sbytes(key), local) is None,
        decreases attrs@.len() - i,
    {
        assert(av.subrange(0, i + 1).drop_last() =~= av.subrange(0, i as int));
        assert(av.subrange(0, i + 1).last() == av[i as int]);
        match &attrs[i] {
            Some(p) => {
                let k = if local { local_name(&p.0) } else { crate::bytes::to_vec(&p.0) };
                if bytes_eq(&k, key.as_bytes()) {
                    proof { lemma_attr_val_prefix(av, i as int + 1, crate::bytes::sbytes(key), local); }
                    return Some(p.1.clone());
                }
            },
            None => {},
        }
        i = i + 1;
    }
    assert(av.subrange(0, av.len() as int) =~= av);
    None
}

/// The value of an attribute that must read cleanly: an unreadable attribute
/// met before a matching key, or a matching key whose value cannot be
/// normalized, is an error; no matching key is nothing.
pub open spec fn strict_attr(attrs: Seq<AttrView>, key: Seq<u8>, local: bool) -> Result<Option<Seq<char>>, ()>
    decreases attrs.len(),
{
    if attrs.len() == 0 {
        Ok(None)
    } else {
        match attrs[0] {
            None => Err(()),
            Some(p) => if key_is(p.0, key, local) {
                match p.1 {
                    Some(v) => Ok(Some(v)),
                    None => Err(()),
                }
            } else {
                strict_attr(attrs.drop_first(), key, local)
            },
        }
    }
}

/// Look up an attribute that must read cleanly (see [`strict_attr`]).
pub fn find_attr_strict(attrs: &Vec<AttrItem>, key: &str, local: bool) -> (r: Result<Option<String>, ()>)
    ensures
        strict_attr(attr_views(attrs@), crate::bytes::sbytes(key), local) == match r {
            Ok(Some(v)) => Ok(Some(v@)),
            Ok(None) => Ok(None),
            Err(e) => Err(e),
        },
{
    let ghost av = attr_views(attrs@);
    let mut i: usize = 0;
    assert(av.subrange(0, av.len() as int) =~= av);
    while i < attrs.len()
        invariant
            i <= attrs@.len(),
            av == attr_views(attrs@),
            strict_attr(av, crate::bytes::sbytes(key), local) == strict_attr(av.subrange(i as int, av.len() as int), crate::bytes::sbytes(key), local),
        decreases attrs@.len() - i,
    {
        let ghost rest = av.subrange(i as int, av.len() as int);
        assert(rest[0] == av[i as int]);
        assert(rest.drop_first() =~= av.subrange(i + 1, av.len() as int));
        match &attrs[i] {
            Some(p) => {
                let k = if local { local_name(&p.0) } else { crate::bytes::to_vec(&p.0) };
                if bytes_eq(&k, key.as_bytes()) {
                    return match &p.1 {
                        Some(v) => Ok(Some(v.clone())),
                        None => Err(()),
                    };
                }
            },
            None => {
                return Err(());
            },
        }
        i = i + 1;
    }
    assert(av.subrange(av.len() as int, av.len() as int) =~= Seq::<AttrView>::empty());
    Ok(None)
}

/// Is token `t` a start or empty tag whose local name is `name`?
pub open spec fn is_elem(t: TokView, name: Seq<u8>) -> bool {
    (t.0 == TokKind::Start || t.0 == TokKind::Empty) && local_of(t.1) == name
}

/// Check [`is_elem`].
pub fn elem_is(t: &XmlToken, name: &str) -> (r: bool)
    ensures
        r == is_elem(t@, crate::bytes::sbytes(name)),
{
    (t.kind == TokKind::Start || t.kind == TokKind::Empty) && bytes_eq(&local_name(&t.name), name.as_bytes())
}

} // verus!
