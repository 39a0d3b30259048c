//! `[Content_Types].xml` — the OPC content-type table: extension defaults and
//! per-part overrides, in document order. It is a read model: resolving a
//! part's content type and knowing which overrides exist.

use vstd::prelude::*;
use crate::bytes::{sbytes, str_eq, ubytes};
use crate::error::OoxmlError;
use crate::text::{last_index, owned, rfind_byte, substr, lemma_ascii_boundary, lemma_str_valid};
use crate::xml::{attrs_of, doc_tokens, elem_is, find_attr_strict, is_elem, scan_xml, strict_attr, tag_attrs, tviews, xml_scan, AttrView, TokView};

verus! {

/// The reserved OPC part name of the content-type table.
pub const CONTENT_TYPES_PART: &'static str = "[Content_Types].xml";

/// A table of (key, content type) pairs as values.
pub type PairsView = Seq<(Seq<char>, Seq<char>)>;

/// Parsed `[Content_Types].xml`: extension defaults + per-part overrides.
#[derive(Debug, Clone)]
pub struct ContentTypes {
    /// `<Default Extension=".." ContentType="..">` in document order.
    pub defaults: Vec<(String, String)>,
    /// `<Override PartName="/.." ContentType="..">` in document order.
    pub overrides: Vec<(String, String)>,
}

impl Default for ContentTypes {
    fn default() -> (r: Self)
        ensures
            r.defaults@.len() == 0,
            r.overrides@.len() == 0,
    {
        ContentTypes { defaults: Vec::new(), overrides: Vec::new() }
    }
}

/// String pairs as values.
pub open spec fn pair_views(v: Seq<(String, String)>) -> PairsView {
    v.map_values(|p: (String, String)| (p.0@, p.1@))
}

impl View for ContentTypes {
    type V = (PairsView, PairsView);

    open spec fn view(&self) -> Self::V {
        (pair_views(self.defaults@), pair_views(self.overrides@))
    }
}

/// The entry one `Default`/`Override` element contributes: both attributes
/// (matched by local name) must read cleanly; the entry is there only when
/// both are present.
pub open spec fn ct_entry(attrs: Seq<AttrView>, k1: Seq<u8>, k2: Seq<u8>) -> Result<Option<(Seq<char>, Seq<char>)>, ()> {
    match strict_attr(attrs, k1, true) {
        Err(e) => Err(e),
        Ok(a) => match strict_attr(attrs, k2, true) {
            Err(e) => Err(e),
            Ok(b) => Ok(match (a, b) {
                (Some(x), Some(y)) => Some((x, y)),
                _ => None,
            }),
        },
    }
}

/// A table with an entry appended when there is one.
pub open spec fn push_entry(v: PairsView, e: Option<(Seq<char>, Seq<char>)>) -> PairsView {
    match e {
        Some(p) => v.push(p),
        None => v,
    }
}

/// The table read from the tokens `toks` of `src`, or an attribute fault.
pub open spec fn ct_scan(src: Seq<u8>, toks: Seq<TokView>) -> Result<(PairsView, PairsView), ()>
    decreases toks.len(),
{
    if toks.len() == 0 {
        Ok((Seq::empty(), Seq::empty()))
    } else {
        match ct_scan(src, toks.drop_last()) {
            Err(e) => Err(e),
            Ok(acc) => {
                let t = toks.last();
                if is_elem(t, sbytes("Default")) {
                    match ct_entry(tag_attrs(src, t), sbytes("Extension"), sbytes("ContentType")) {
                        Err(e) => Err(e),
                        Ok(e) => Ok((push_entry(acc.0, e), acc.1)),
                    }
                } else if is_elem(t, sbytes("Override")) {
                    match ct_entry(tag_attrs(src, t), sbytes("PartName"), sbytes("ContentType")) {
                        Err(e) => Err(e),
                        Ok(e) => Ok((acc.0, push_entry(acc.1, e))),
                    }
                } else {
                    Ok(acc)
                }
            },
        }
    }
}

/// The first override for a part name.
pub open spec fn find_override(o: PairsView, name: Seq<char>) -> Option<Seq<char>>
    decreases o.len(),
{
    if o.len() == 0 {
        None
    } else if o[0].0 == name {
        Some(o[0].1)
    } else {
        find_override(o.drop_first(), name)
    }
}

/// ASCII lower case of one byte.
pub open spec fn ascii_lower(b: u8) -> u8 {
    if 0x41 <= b <= 0x5a {
        (b + 0x20) as u8
    } else {
        b
    }
}

/// Equality of two byte strings ignoring ASCII case.
pub open spec fn eq_ignore_ascii_case(a: Seq<u8>, b: Seq<u8>) -> bool {
    a.len() == b.len() && forall|i: int| 0 <= i < a.len() ==> ascii_lower(a[i]) == ascii_lower(b[i])
}

/// The first default whose extension equals `ext`, ignoring ASCII case.
pub open spec fn find_default(d: PairsView, ext: Seq<u8>) -> Option<Seq<char>>
    decreases d.len(),
{
    if d.len() == 0 {
        None
    } else if eq_ignore_ascii_case(ubytes(d[0].0), ext) {
        Some(d[0].1)
    } else {
        find_default(d.drop_first(), ext)
    }
}

/// The extension of a part name: what follows its last `.` (all of it when
/// there is none).
pub open spec fn ext_of(name: Seq<u8>) -> Seq<u8> {
    match last_index(name, 0x2e) {
        Some(i) => name.subrange(i + 1, name.len() as int),
        None => name,
    }
}

/// The content type of a part: its override, else its extension's default.
pub open spec fn content_type_spec(ct: (PairsView, PairsView), name: &str) -> Option<Seq<char>> {
    match find_override(ct.1, name@) {
        Some(t) => Some(t),
        None => find_default(ct.0, ext_of(sbytes(name))),
    }
}

/// The message of a fault in an attribute of the table.
pub open spec fn attr_fault() -> Seq<char> {
    "malformed attribute"@
}

/// What parsing the table gives: an attribute fault in a `Default`/`Override`
/// element the reader reached, else the reader's own error, else the table.
pub open spec fn parse_spec(src: Seq<u8>) -> Result<(PairsView, PairsView), Seq<char>> {
    match ct_scan(src, doc_tokens(src)) {
        Err(_) => Err(attr_fault()),
        Ok(t) => match xml_scan(src).1 {
            Some(m) => Err(m),
            None => Ok(t),
        },
    }
}

/// ASCII case-insensitive byte comparison.
pub fn eq_ci(a: &[u8], b: &[u8]) -> (r: bool)
    ensures
        r == eq_ignore_ascii_case(a@, b@),
{
    if a.len() != b.len() {
        return false;
    }
    let mut i: usize = 0;
    while i < a.len()
        invariant
            a@.len() == b@.len(),
            i <= a@.len(),
            forall|k: int| 0 <= k < i ==> ascii_lower(a@[k]) == ascii_lower(b@[k]),
        decreases a@.len() - i,
    {
        let x = if 0x41 <= a[i] && a[i] <= 0x5a { a[i] + 0x20 } else { a[i] };
        let y = if 0x41 <= b[i] && b[i] <= 0x5a { b[i] + 0x20 } else { b[i] };
        if x != y {
            return false;
        }
        i = i + 1;
    }
    true
}

/// The table entry of one element, read strictly (see [`ct_entry`]).
fn read_entry(attrs: &Vec<crate::xml::AttrItem>, k1: &str, k2: &str) -> (r: Result<Option<(String, String)>, ()>)
    ensures
        ct_entry(crate::xml::attr_views(attrs@), sbytes(k1), sbytes(k2)) == match r {
            Ok(Some(p)) => Ok(Some((p.0@, p.1@))),
            Ok(None) => Ok(None),
            Err(e) => Err(e),
        },
{
    let a = find_attr_strict(attrs, k1, true);
    match a {
        Err(e) => Err(e),
        Ok(a) => {
            let b = find_attr_strict(attrs, k2, true);
            match b {
                Err(e) => Err(e),
                Ok(b) => match (a, b) {
                    (Some(x), Some(y)) => Ok(Some((x, y))),
                    _ => Ok(None),
                },
            }
        },
    }
}

impl ContentTypes {
    /// Parse the content-type table. Only `Default`/`Override` elements
    /// matter; anything else is ignored.
    pub fn parse(xml: &[u8]) -> (r: Result<ContentTypes, OoxmlError>)
        ensures
            match parse_spec(xml@) {
                Ok(t) => r matches Ok(ct) && ct@ == t,
                Err(m) => r matches Err(OoxmlError::Xml { part, detail }) && part@ == CONTENT_TYPES_PART@
                    && detail@ == m,
            },
    {
        let (toks, err) = scan_xml(xml);
        let ghost tv = tviews(toks@);
        let mut defaults: Vec<(String, String)> = Vec::new();
        let mut overrides: Vec<(String, String)> = Vec::new();
        let mut k: usize = 0;
        assert(tv.take(0) =~= Seq::<TokView>::empty());
        assert(pair_views(defaults@) =~= Seq::<(Seq<char>, Seq<char>)>::empty());
        assert(pair_views(overrides@) =~= Seq::<(Seq<char>, Seq<char>)>::empty());
        while k < toks.len()
            invariant
                k <= toks@.len(),
                tv == tviews(toks@),
                tv == doc_tokens(xml@),
                ct_scan(xml@, tv.take(k as int)) == Ok::<(PairsView, PairsView), ()>((pair_views(defaults@), pair_views(overrides@))),
            decreases toks@.len() - k,
        {
            let t = &toks[k];
            assert(tv.take(k + 1).drop_last() =~= tv.take(k as int));
            assert(tv.take(k + 1).last() == t@);
            if elem_is(t, "Default") {
                let attrs = attrs_of(xml, t);
                match read_entry(&attrs, "Extension", "ContentType") {
                    Err(_) => {
                        proof { lemma_ct_scan_err(xml@, tv, k as int + 1); }
                        return Err(OoxmlError::xml(owned(CONTENT_TYPES_PART), owned("malformed attribute")));
                    },
                    Ok(Some(p)) => {
                        let ghost prev = defaults@;
                        defaults.push(p);
                        assert(pair_views(defaults@) =~= pair_views(prev).push((p.0@, p.1@)));
                    },
                    Ok(None) => {},
                }
            } else if elem_is(t, "Override") {
                let attrs = attrs_of(xml, t);
                match read_entry(&attrs, "PartName", "ContentType") {
                    Err(_) => {
                        proof { lemma_ct_scan_err(xml@, tv, k as int + 1); }
                        return Err(OoxmlError::xml(owned(CONTENT_TYPES_PART), owned("malformed attribute")));
                    },
                    Ok(Some(p)) => {
                        let ghost prev = overrides@;
                        overrides.push(p);
                        assert(pair_views(overrides@) =~= pair_views(prev).push((p.0@, p.1@)));
                    },
                    Ok(None) => {},
                }
            }
            k = k + 1;
        }
        assert(tv.take(toks@.len() as int) =~= tv);
        match err {
            Some(m) => Err(OoxmlError::xml(owned(CONTENT_TYPES_PART), m)),
            None => Ok(ContentTypes { defaults, overrides }),
        }
    }

    /// Resolve the content type of a part (leading-slash absolute name, e.g.
    /// `/word/document.xml`): an explicit override wins, else the extension
    /// default, else `None`.
    pub fn content_type_of(&self, absolute_part_name: &str) -> (r: Option<&str>)
        ensures
            content_type_spec(self@, absolute_part_name) == match r {
                Some(t) => Some(t@),
                None => None,
            },
    {
        let ghost o = pair_views(self.overrides@);
        let mut i: usize = 0;
        assert(o.subrange(0, o.len() as int) =~= o);
        while i < self.overrides.len()
            invariant
                i <= self.overrides@.len(),
                o == pair_views(self.overrides@),
                find_override(o, absolute_part_name@) == find_override(o.subrange(i as int, o.len() as int), absolute_part_name@),
            decreases self.overrides@.len() - i,
        {
            assert(o.subrange(i as int, o.len() as int).drop_first() =~= o.subrange(i + 1, o.len() as int));
            if str_eq(self.overrides[i].0.as_str(), absolute_part_name) {
                return Some(self.overrides[i].1.as_str());
            }
            i = i + 1;
        }
        assert(o.subrange(i as int, o.len() as int) =~= Seq::<(Seq<char>, Seq<char>)>::empty());
        let nb = absolute_part_name.as_bytes();
        let n = nb.len();
        proof {
            lemma_str_valid(absolute_part_name);
            vstd::utf8::is_char_boundary_start_end_of_seq(sbytes(absolute_part_name));
        }
        let ext = match rfind_byte(nb, 0x2eu8) {
            Some(p) => {
                assert(p < nb@.len());
                proof { lemma_ascii_boundary(sbytes(absolute_part_name), p as int); }
                substr(absolute_part_name, p + 1, n)
            },
            None => absolute_part_name,
        };
        assert(sbytes(ext) == ext_of(sbytes(absolute_part_name)));
        let ghost d = pair_views(self.defaults@);
        let mut j: usize = 0;
        assert(d.subrange(0, d.len() as int) =~= d);
        while j < self.defaults.len()
            invariant
                j <= self.defaults@.len(),
                d == pair_views(self.defaults@),
                find_override(pair_views(self.overrides@), absolute_part_name@) is None,
                sbytes(ext) == ext_of(sbytes(absolute_part_name)),
                find_default(d, sbytes(ext)) == find_default(d.subrange(j as int, d.len() as int), sbytes(ext)),
            decreases self.defaults@.len() - j,
        {
            assert(d.subrange(j as int, d.len() as int).drop_first() =~= d.subrange(j + 1, d.len() as int));
            if eq_ci(self.defaults[j].0.as_str().as_bytes(), ext.as_bytes()) {
                return Some(self.defaults[j].1.as_str());
            }
            j = j + 1;
        }
        assert(d.subrange(j as int, d.len() as int) =~= Seq::<(Seq<char>, Seq<char>)>::empty());
        None
    }

    /// True if an explicit `<Override>` exists for `absolute_part_name`.
    pub fn has_override(&self, absolute_part_name: &str) -> (r: bool)
        ensures
            r == find_override(self@.1, absolute_part_name@) is Some,
    {
        let ghost o = pair_views(self.overrides@);
        let mut i: usize = 0;
        assert(o.subrange(0, o.len() as int) =~= o);
        while i < self.overrides.len()
            invariant
                i <= self.overrides@.len(),
                o == pair_views(self.overrides@),
                find_override(o, absolute_part_name@) == find_override(o.subrange(i as int, o.len() as int), absolute_part_name@),
            decreases self.overrides@.len() - i,
        {
            assert(o.subrange(i as int, o.len() as int).drop_first() =~= o.subrange(i + 1, o.len() as int));
            if str_eq(self.overrides[i].0.as_str(), absolute_part_name) {
                return true;
            }
            i = i + 1;
        }
        assert(o.subrange(i as int, o.len() as int) =~= Seq::<(Seq<char>, Seq<char>)>::empty());
        false
    }
}

/// An attribute fault in the first `k` tokens is a fault of the whole scan.
proof fn lemma_ct_scan_err(src: Seq<u8>, toks: Seq<TokView>, k: int)
    requires
        0 < k <= toks.len(),
        ct_scan(src, toks.take(k)) is Err,
    ensures
        ct_scan(src, toks) is Err,
    decreases toks.len() - k,
{
    if k < toks.len() {
        assert(toks.take(k + 1).drop_last() =~= toks.take(k));
        lemma_ct_scan_err(src, toks, k + 1);
    } else {
        assert(toks.take(k) =~= toks);
    }
}

} // verus!
