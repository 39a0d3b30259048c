//! The `_rels` relationship graph: enough of it to locate the parts a reader
//! needs. Parsing is a tolerant scan over `<Relationship Id=… Type=… Target=…/>`
//! elements; malformed input yields whatever was scanned before the fault.

use vstd::prelude::*;
use crate::bytes::{bytes_eq, ends_with, sbytes, ubytes};
use crate::text::{append, last_index, lemma_ascii_boundary, lemma_str_valid, owned, rfind_byte, substr};
use crate::xml::{attr_val, attrs_of, doc_tokens, elem_is, find_attr, is_elem, scan_xml, tag_attrs, tviews, AttrView, TokView};

verus! {

/// One `<Relationship>` from a `.rels` part.
#[derive(Debug, Clone)]
pub struct Relationship {
    /// `Id` attribute.
    pub id: String,
    /// `Type` attribute (a relationship-type URI).
    pub rel_type: String,
    /// `Target` attribute (usually relative to the part's base).
    pub target: String,
    /// `TargetMode` attribute if present (`External` for external targets).
    pub target_mode: Option<String>,
}

/// A relationship as values: id, type, target, target mode.
pub type RelView = (Seq<char>, Seq<char>, Seq<char>, Option<Seq<char>>);

impl View for Relationship {
    type V = RelView;

    open spec fn view(&self) -> RelView {
        (self.id@, self.rel_type@, self.target@, match self.target_mode {
            Some(m) => Some(m@),
            None => None,
        })
    }
}

/// The parsed relationships of one `.rels` part.
#[derive(Debug, Clone)]
pub struct Relationships {
    /// Relationships in document order.
    pub items: Vec<Relationship>,
}

impl Default for Relationships {
    fn default() -> (r: Self)
        ensures
            r.items@.len() == 0,
    {
        Relationships { items: Vec::new() }
    }
}

/// The relationships as values.
pub open spec fn rel_views(items: Seq<Relationship>) -> Seq<RelView> {
    items.map_values(|r: Relationship| r@)
}

/// A present value, or the empty text.
pub open spec fn or_empty(v: Option<Seq<char>>) -> Seq<char> {
    match v {
        Some(s) => s,
        None => Seq::empty(),
    }
}

/// The value of a readable attribute, empty when it cannot be normalized.
pub open spec fn lenient(v: Option<Option<Seq<char>>>) -> Option<Seq<char>> {
    match v {
        Some(x) => Some(or_empty(x)),
        None => None,
    }
}

/// The relationship one element's attributes describe (keys matched exactly,
/// unreadable attributes passed over, unreadable values empty).
pub open spec fn rel_from(attrs: Seq<AttrView>) -> RelView {
    (
        or_empty(lenient(attr_val(attrs, sbytes("Id"), false))),
        or_empty(lenient(attr_val(attrs, sbytes("Type"), false))),
        or_empty(lenient(attr_val(attrs, sbytes("Target"), false))),
        lenient(attr_val(attrs, sbytes("TargetMode"), false)),
    )
}

/// The relationships among the tokens `toks` of `src`, in order.
pub open spec fn rels_in(src: Seq<u8>, toks: Seq<TokView>) -> Seq<RelView>
    decreases toks.len(),
{
    if toks.len() == 0 {
        Seq::empty()
    } else {
        let t = toks.last();
        rels_in(src, toks.drop_last()) + if is_elem(t, sbytes("Relationship")) {
            seq![rel_from(tag_attrs(src, t))]
        } else {
            Seq::empty()
        }
    }
}

/// The relationships of a `.rels` part: one per `Relationship` element (any
/// namespace prefix) the reader reaches.
pub open spec fn rels_of(src: Seq<u8>) -> Seq<RelView> {
    rels_in(src, doc_tokens(src))
}

/// Does a relationship's type end with `suffix` (compared as UTF-8 bytes)?
pub open spec fn type_ends_with(r: Relationship, suffix: Seq<u8>) -> bool {
    let t = ubytes(r.rel_type@);
    suffix.len() <= t.len() && t.subrange(t.len() - suffix.len(), t.len() as int) == suffix
}

/// The value of an attribute that may be missing or unreadable, empty then.
fn value_or_empty(v: Option<Option<String>>) -> (r: String)
    ensures
        r@ == or_empty(lenient(match v {
            Some(Some(s)) => Some(Some(s@)),
            Some(None) => Some(None),
            None => None,
        })),
{
    match v {
        Some(Some(s)) => s,
        _ => String::new(),
    }
}

impl Relationships {
    /// Parse a `.rels` part's bytes. Never fails; returns whatever it could scan.
    pub fn parse(bytes: &[u8]) -> (r: Self)
        ensures
            rel_views(r.items@) == rels_of(bytes@),
    {
        let (toks, _err) = scan_xml(bytes);
        let ghost tv = tviews(toks@);
        let mut items: Vec<Relationship> = Vec::new();
        let mut k: usize = 0;
        while k < toks.len()
            invariant
                k <= toks@.len(),
                tv == tviews(toks@),
                tv == doc_tokens(bytes@),
                rel_views(items@) == rels_in(bytes@, tv.take(k as int)),
            decreases toks@.len() - k,
        {
            let t = &toks[k];
            assert(tv.take(k + 1).drop_last() =~= tv.take(k as int));
            assert(tv.take(k + 1).last() == t@);
            if elem_is(t, "Relationship") {
                let attrs = attrs_of(bytes, t);
                let id = find_attr(&attrs, "Id", false);
                let rel_type = find_attr(&attrs, "Type", false);
                let target = find_attr(&attrs, "Target", false);
                let target_mode = find_attr(&attrs, "TargetMode", false);
                let rel = Relationship {
                    id: value_or_empty(id),
                    rel_type: value_or_empty(rel_type),
                    target: value_or_empty(target),
                    target_mode: match target_mode {
                        Some(v) => Some(value_or_empty(Some(v))),
                        None => None,
                    },
                };
                let ghost prev = items@;
                assert(rel@ == rel_from(tag_attrs(bytes@, t@)));
                items.push(rel);
                assert(rel_views(items@) =~= rel_views(prev) + seq![rel_from(tag_attrs(bytes@, t@))]);
            } else {
                assert(rel_views(items@) =~= rels_in(bytes@, tv.take(k + 1)));
            }
            k = k + 1;
        }
        assert(tv.take(toks@.len() as int) =~= tv);
        Relationships { items }
    }

    /// The relationship with the given `Id` (e.g. an `r:embed` image ref).
    pub fn by_id(&self, id: &str) -> (r: Option<&Relationship>)
        ensures
            match r {
                Some(x) => exists|i: int|
                    0 <= i < self.items@.len() && self.items@[i] == *x && self.items@[i].id@ == id@
                        && forall|j: int| 0 <= j < i ==> self.items@[j].id@ != id@,
                None => forall|i: int| 0 <= i < self.items@.len() ==> self.items@[i].id@ != id@,
            },
    {
        let mut i: usize = 0;
        while i < self.items.len()
            invariant
                i <= self.items@.len(),
                forall|j: int| 0 <= j < i ==> self.items@[j].id@ != id@,
            decreases self.items@.len() - i,
        {
            if crate::bytes::str_eq(self.items[i].id.as_str(), id) {
                return Some(&self.items[i]);
            }
            i = i + 1;
        }
        None
    }

    /// The first relationship whose `Type` ends with `suffix`
    /// (e.g. `"/officeDocument"`, `"/styles"`, `"/numbering"`).
    pub fn by_type_suffix(&self, suffix: &str) -> (r: Option<&Relationship>)
        ensures
            match r {
                Some(x) => exists|i: int|
                    0 <= i < self.items@.len() && self.items@[i] == *x && type_ends_with(self.items@[i], sbytes(suffix))
                        && forall|j: int| 0 <= j < i ==> !type_ends_with(self.items@[j], sbytes(suffix)),
                None => forall|i: int| 0 <= i < self.items@.len() ==> !type_ends_with(self.items@[i], sbytes(suffix)),
            },
    {
        let mut i: usize = 0;
        while i < self.items.len()
            invariant
                i <= self.items@.len(),
                forall|j: int| 0 <= j < i ==> !type_ends_with(self.items@[j], sbytes(suffix)),
            decreases self.items@.len() - i,
        {
            if ends_with(self.items[i].rel_type.as_str().as_bytes(), suffix.as_bytes()) {
                return Some(&self.items[i]);
            }
            i = i + 1;
        }
        None
    }
}

/// The directory of a part name: everything before its last `/`.
pub open spec fn part_dir_of(p: Seq<u8>) -> Seq<u8> {
    match last_index(p, 0x2f) {
        Some(i) => p.subrange(0, i),
        None => Seq::empty(),
    }
}

/// The `.rels` part name that holds a part's relationships.
pub open spec fn rels_name_of(p: Seq<u8>) -> Seq<u8> {
    match last_index(p, 0x2f) {
        Some(i) => p.subrange(0, i) + sbytes("/_rels/") + p.subrange(i + 1, p.len() as int) + sbytes(".rels"),
        None => sbytes("_rels/") + p + sbytes(".rels"),
    }
}

/// The directory of a part name (`word/document.xml` -> `word`; `x.xml` -> ``).
pub fn part_dir(part: &str) -> (r: &str)
    ensures
        sbytes(r) == part_dir_of(sbytes(part)),
{
    proof {
        lemma_str_valid(part);
        vstd::utf8::is_char_boundary_start_end_of_seq(sbytes(part));
    }
    match rfind_byte(part.as_bytes(), 0x2fu8) {
        Some(i) => {
            proof { lemma_ascii_boundary(sbytes(part), i as int); }
            substr(part, 0, i)
        },
        None => substr(part, 0, 0),
    }
}

/// The `.rels` part name for a given part (`word/document.xml` ->
/// `word/_rels/document.xml.rels`; `` -> `_rels/.rels`).
pub fn rels_part_name(part: &str) -> (r: String)
    ensures
        ubytes(r@) == rels_name_of(sbytes(part)),
{
    let n = part.as_bytes().len();
    proof {
        lemma_str_valid(part);
        vstd::utf8::is_char_boundary_start_end_of_seq(sbytes(part));
    }
    match rfind_byte(part.as_bytes(), 0x2fu8) {
        Some(i) => {
            proof { lemma_ascii_boundary(sbytes(part), i as int); }
            let dir = substr(part, 0, i);
            let name = substr(part, i + 1, n);
            let mut r = owned(dir);
            append(&mut r, "/_rels/");
            append(&mut r, name);
            append(&mut r, ".rels");
            r
        },
        None => {
            let mut r = owned("_rels/");
            append(&mut r, part);
            append(&mut r, ".rels");
            r
        },
    }
}

/// Split text at every `/` (empty pieces kept), scanning with the current
/// piece `cur` and the unread rest.
pub open spec fn split_acc(cur: Seq<u8>, rest: Seq<u8>) -> Seq<Seq<u8>>
    decreases rest.len(),
{
    if rest.len() == 0 {
        seq![cur]
    } else if rest[0] == 0x2f {
        seq![cur] + split_acc(Seq::empty(), rest.drop_first())
    } else {
        split_acc(cur.push(rest[0]), rest.drop_first())
    }
}

/// The pieces of `s` between `/` separators, empty ones included.
pub open spec fn split_slash(s: Seq<u8>) -> Seq<Seq<u8>> {
    split_acc(Seq::empty(), s)
}

/// The pieces that are not empty, in order.
pub open spec fn nonempty(segs: Seq<Seq<u8>>) -> Seq<Seq<u8>>
    decreases segs.len(),
{
    if segs.len() == 0 {
        Seq::empty()
    } else {
        nonempty(segs.drop_last()) + if segs.last().len() > 0 {
            seq![segs.last()]
        } else {
            Seq::empty()
        }
    }
}

/// One step of path resolution: `` and `.` stay, `..` goes up one level
/// (never above the root), anything else descends.
pub open spec fn path_step(stack: Seq<Seq<u8>>, seg: Seq<u8>) -> Seq<Seq<u8>> {
    if seg.len() == 0 || seg == sbytes(".") {
        stack
    } else if seg == sbytes("..") {
        if stack.len() > 0 {
            stack.drop_last()
        } else {
            stack
        }
    } else {
        stack.push(seg)
    }
}

/// Apply [`path_step`] for each piece in order.
pub open spec fn path_steps(stack: Seq<Seq<u8>>, segs: Seq<Seq<u8>>) -> Seq<Seq<u8>>
    decreases segs.len(),
{
    if segs.len() == 0 {
        stack
    } else {
        path_step(path_steps(stack, segs.drop_last()), segs.last())
    }
}

/// The pieces joined with `/`.
pub open spec fn join_slash(segs: Seq<Seq<u8>>) -> Seq<u8>
    decreases segs.len(),
{
    if segs.len() == 0 {
        Seq::empty()
    } else if segs.len() == 1 {
        segs[0]
    } else {
        join_slash(segs.drop_last()) + sbytes("/") + segs.last()
    }
}

/// A relationship target resolved against the directory of its source part:
/// a leading `/` is absolute from the package root; otherwise the target's
/// pieces are applied to the directory's non-empty pieces.
pub open spec fn resolve_of(base_dir: Seq<u8>, target: Seq<u8>) -> Seq<u8> {
    if target.len() > 0 && target[0] == 0x2f {
        target.subrange(1, target.len() as int)
    } else {
        join_slash(path_steps(nonempty(split_slash(base_dir)), split_slash(target)))
    }
}

/// A path segment as a part name holds it: not empty, no `/`, and neither
/// `.` nor `..`.
pub open spec fn plain_segment(s: Seq<u8>) -> bool {
    s.len() > 0 && !s.contains(0x2f) && s != sbytes(".") && s != sbytes("..")
}

proof fn lemma_split_plain(cur: Seq<u8>, s: Seq<u8>)
    requires
        !s.contains(0x2f),
    ensures
        split_acc(cur, s) == seq![cur + s],
    decreases s.len(),
{
    if s.len() == 0 {
        assert(cur + s =~= cur);
    } else {
        assert(s[0] != 0x2f);
        let t = s.drop_first();
        assert forall|k: int| 0 <= k < t.len() implies t[k] != 0x2f by {
            assert(t[k] == s[k + 1]);
        }
        lemma_split_plain(cur.push(s[0]), t);
        assert(cur.push(s[0]) + t =~= cur + s);
    }
}

proof fn lemma_slash_bytes()
    ensures
        sbytes("/") == seq![0x2fu8],
{
    reveal_strlit("/");
    vstd::utf8::is_ascii_chars_encode_utf8("/"@);
    assert(sbytes("/") =~= seq![0x2fu8]);
}

proof fn lemma_last_slash(d: Seq<u8>, f: Seq<u8>)
    requires
        !f.contains(0x2f),
    ensures
        crate::text::last_index(d + sbytes("/") + f, 0x2f) == Some(d.len() as int),
    decreases f.len(),
{
    lemma_slash_bytes();
    let p = d + sbytes("/") + f;
    if f.len() == 0 {
        assert(p.last() == 0x2f);
    } else {
        assert(f.last() != 0x2f);
        assert(p.last() == f.last());
        let g = f.drop_last();
        assert forall|k: int| 0 <= k < g.len() implies g[k] != 0x2f by {
            assert(g[k] == f[k]);
        }
        assert(p.drop_last() =~= d + sbytes("/") + g);
        lemma_last_slash(d, g);
    }
}

/// The file name of a part name: everything after its last `/` (all of it
/// when it has none).
pub open spec fn part_file_of(p: Seq<u8>) -> Seq<u8> {
    match last_index(p, 0x2f) {
        Some(i) => p.subrange(i + 1, p.len() as int),
        None => p,
    }
}

/// A normalized part name: every `/`-separated piece is a plain segment (so
/// no leading, trailing or doubled `/`, no `.` and no `..`).
pub open spec fn normalized(p: Seq<u8>) -> bool {
    forall|k: int| 0 <= k < split_slash(p).len() ==> plain_segment(#[trigger] split_slash(p)[k])
}

proof fn lemma_split_nonempty(cur: Seq<u8>, rest: Seq<u8>)
    ensures
        split_acc(cur, rest).len() >= 1,
    decreases rest.len(),
{
    if rest.len() > 0 {
        if rest[0] == 0x2f {
            lemma_split_nonempty(Seq::empty(), rest.drop_first());
        } else {
            lemma_split_nonempty(cur.push(rest[0]), rest.drop_first());
        }
    }
}

proof fn lemma_split_last(cur: Seq<u8>, x: Seq<u8>, f: Seq<u8>)
    requires
        !f.contains(0x2f),
    ensures
        split_acc(cur, x + seq![0x2fu8] + f) == split_acc(cur, x).push(f),
    decreases x.len(),
{
    let y = x + seq![0x2fu8] + f;
    if x.len() == 0 {
        assert(y[0] == 0x2f);
        assert(y.drop_first() =~= f);
        lemma_split_plain(Seq::empty(), f);
        assert(Seq::<u8>::empty() + f =~= f);
        assert(seq![cur] + seq![f] =~= seq![cur].push(f));
    } else {
        assert(y[0] == x[0]);
        assert(y.drop_first() =~= x.drop_first() + seq![0x2fu8] + f);
        if x[0] == 0x2f {
            lemma_split_last(Seq::empty(), x.drop_first(), f);
            assert(seq![cur] + split_acc(Seq::empty(), x.drop_first()).push(f) =~= (seq![cur] + split_acc(Seq::empty(), x.drop_first())).push(f));
        } else {
            lemma_split_last(cur.push(x[0]), x.drop_first(), f);
        }
    }
}

proof fn lemma_join_cons(c: Seq<u8>, t: Seq<Seq<u8>>)
    requires
        t.len() >= 1,
    ensures
        join_slash(seq![c] + t) == c + sbytes("/") + join_slash(t),
    decreases t.len(),
{
    let u = seq![c] + t;
    assert(u.len() >= 2);
    assert(u.last() == t.last());
    assert(join_slash(u) == join_slash(u.drop_last()) + sbytes("/") + u.last());
    if t.len() == 1 {
        assert(u.drop_last() =~= seq![c]);
        assert(join_slash(seq![c]) == c);
        assert(join_slash(t) == t[0]);
        assert(u.last() == t[0]);
    } else {
        assert(u.drop_last() =~= seq![c] + t.drop_last());
        lemma_join_cons(c, t.drop_last());
        assert(join_slash(t) == join_slash(t.drop_last()) + sbytes("/") + t.last());
        assert(c + sbytes("/") + join_slash(t.drop_last()) + sbytes("/") + t.last() =~= c + sbytes("/") + (join_slash(t.drop_last())
            + sbytes("/") + t.last()));
    }
}

/// Joining the pieces of a split gives the text back.
proof fn lemma_join_split(cur: Seq<u8>, rest: Seq<u8>)
    ensures
        join_slash(split_acc(cur, rest)) == cur + rest,
    decreases rest.len(),
{
    lemma_slash_bytes();
    if rest.len() == 0 {
        assert(cur + rest =~= cur);
    } else if rest[0] == 0x2f {
        lemma_join_split(Seq::empty(), rest.drop_first());
        lemma_split_nonempty(Seq::empty(), rest.drop_first());
        lemma_join_cons(cur, split_acc(Seq::empty(), rest.drop_first()));
        assert(cur + sbytes("/") + (Seq::<u8>::empty() + rest.drop_first()) =~= cur + rest);
    } else {
        lemma_join_split(cur.push(rest[0]), rest.drop_first());
        assert(cur.push(rest[0]) + rest.drop_first() =~= cur + rest);
    }
}

proof fn lemma_nonempty_id(t: Seq<Seq<u8>>)
    requires
        forall|k: int| 0 <= k < t.len() ==> (#[trigger] t[k]).len() > 0,
    ensures
        nonempty(t) == t,
    decreases t.len(),
{
    if t.len() > 0 {
        lemma_nonempty_id(t.drop_last());
        assert(t.drop_last() + seq![t.last()] =~= t);
    }
}

/// A plain file name resolves against the package root to itself.
proof fn lemma_resolve_root(f: Seq<u8>)
    requires
        plain_segment(f),
    ensures
        resolve_of(Seq::empty(), f) == f,
{
    lemma_split_plain(Seq::empty(), f);
    assert(Seq::<u8>::empty() + f =~= f);
    assert(f[0] != 0x2f);
    lemma_split_plain(Seq::empty(), Seq::empty());
    let se = seq![Seq::<u8>::empty()];
    assert(Seq::<u8>::empty() + Seq::<u8>::empty() =~= Seq::<u8>::empty());
    assert(se.drop_last() =~= Seq::<Seq<u8>>::empty());
    assert(se.last().len() == 0);
    assert(nonempty(Seq::<Seq<u8>>::empty()) == Seq::<Seq<u8>>::empty());
    assert(nonempty(se) == nonempty(se.drop_last()));
    assert(nonempty(se) =~= Seq::<Seq<u8>>::empty());
    let sf = seq![f];
    assert(sf.drop_last() =~= Seq::<Seq<u8>>::empty());
    assert(sf.last() == f);
    assert(path_steps(Seq::<Seq<u8>>::empty(), Seq::<Seq<u8>>::empty()) == Seq::<Seq<u8>>::empty());
    assert(path_steps(Seq::<Seq<u8>>::empty(), sf) == path_step(path_steps(Seq::<Seq<u8>>::empty(), sf.drop_last()), sf.last()));
    reveal_strlit(".");
    reveal_strlit("..");
    assert(path_step(Seq::<Seq<u8>>::empty(), f) =~= sf);
}

/// Resolving a part's file name against the part's own directory gives the
/// part back, for every normalized part name: the directory is what comes
/// before the last `/` (nothing at the root), the file name what follows it.
pub proof fn law_resolve_own_name(p: Seq<u8>)
    requires
        normalized(p),
    ensures
        resolve_of(part_dir_of(p), part_file_of(p)) == p,
{
    lemma_slash_bytes();
    reveal_strlit(".");
    reveal_strlit("..");
    crate::text::lemma_last_index(p, 0x2f);
    match last_index(p, 0x2f) {
        None => {
            lemma_split_plain(Seq::empty(), p);
            assert(Seq::<u8>::empty() + p =~= p);
            assert(split_slash(p)[0] == p);
            lemma_resolve_root(p);
        },
        Some(i) => {
            let d = p.subrange(0, i);
            let f = p.subrange(i + 1, p.len() as int);
            assert(p =~= d + seq![0x2fu8] + f);
            assert forall|k: int| 0 <= k < f.len() implies f[k] != 0x2f by {
                assert(f[k] == p[i + 1 + k]);
            }
            lemma_split_last(Seq::empty(), d, f);
            let sd = split_slash(d);
            assert(split_slash(p) == sd.push(f));
            assert(split_slash(p)[sd.len() as int] == f);
            assert(plain_segment(f));
            assert forall|k: int| 0 <= k < sd.len() implies (#[trigger] sd[k]).len() > 0 by {
                assert(split_slash(p)[k] == sd[k]);
            }
            lemma_nonempty_id(sd);
            lemma_split_nonempty(Seq::empty(), d);
            lemma_split_plain(Seq::empty(), f);
            assert(Seq::<u8>::empty() + f =~= f);
            assert(f[0] != 0x2f);
            let sf = seq![f];
            assert(sf.drop_last() =~= Seq::<Seq<u8>>::empty());
            assert(sf.last() == f);
            assert(path_steps(sd, Seq::<Seq<u8>>::empty()) == sd);
            assert(path_steps(sd, sf) == path_step(path_steps(sd, sf.drop_last()), sf.last()));
            assert(path_step(sd, f) == sd.push(f));
            assert(sd.push(f).drop_last() =~= sd);
            assert(join_slash(sd.push(f)) == join_slash(sd) + sbytes("/") + f);
            lemma_join_split(Seq::empty(), d);
            assert(Seq::<u8>::empty() + d =~= d);
            assert(resolve_of(d, f) == d + sbytes("/") + f);
        },
    }
}

/// Text pieces as byte strings.
pub open spec fn piece_bytes(v: Seq<&str>) -> Seq<Seq<u8>> {
    v.map_values(|x: &str| sbytes(x))
}

/// Split `s` at every `/`, keeping empty pieces.
pub fn split_slash_str(s: &str) -> (r: Vec<&str>)
    ensures
        piece_bytes(r@) == split_slash(sbytes(s)),
{
    let b = s.as_bytes();
    let ghost bs = sbytes(s);
    proof {
        lemma_str_valid(s);
        vstd::utf8::is_char_boundary_start_end_of_seq(bs);
    }
    let mut out: Vec<&str> = Vec::new();
    let mut start: usize = 0;
    let mut i: usize = 0;
    assert(bs.subrange(0, 0) =~= Seq::<u8>::empty());
    assert(bs.subrange(0, bs.len() as int) =~= bs);
    assert(piece_bytes(out@) =~= Seq::<Seq<u8>>::empty());
    assert(split_slash(bs) =~= piece_bytes(out@) + split_acc(bs.subrange(0, 0), bs.subrange(0, bs.len() as int)));
    while i < b.len()
        invariant
            b@ == bs,
            bs == sbytes(s),
            vstd::utf8::valid_utf8(bs),
            start <= i <= bs.len(),
            vstd::utf8::is_char_boundary(bs, start as int),
            vstd::utf8::is_char_boundary(bs, bs.len() as int),
            split_slash(bs) == piece_bytes(out@) + split_acc(bs.subrange(start as int, i as int), bs.subrange(i as int, bs.len() as int)),
        decreases bs.len() - i,
    {
        let ghost rest = bs.subrange(i as int, bs.len() as int);
        assert(rest[0] == bs[i as int]);
        assert(rest.drop_first() =~= bs.subrange(i + 1, bs.len() as int));
        if b[i] == 0x2f {
            proof { lemma_ascii_boundary(bs, i as int); }
            let piece = substr(s, start, i);
            let ghost prev = out@;
            out.push(piece);
            assert(piece_bytes(out@) =~= piece_bytes(prev) + seq![bs.subrange(start as int, i as int)]);
            assert(bs.subrange(i + 1, i + 1) =~= Seq::<u8>::empty());
            start = i + 1;
        } else {
            assert(bs.subrange(start as int, i as int).push(bs[i as int]) =~= bs.subrange(start as int, i + 1));
        }
        i = i + 1;
    }
    let piece = substr(s, start, b.len());
    let ghost prev = out@;
    out.push(piece);
    assert(bs.subrange(i as int, bs.len() as int) =~= Seq::<u8>::empty());
    assert(piece_bytes(out@) =~= piece_bytes(prev) + seq![bs.subrange(start as int, i as int)]);
    out
}

/// Join an OPC `Target` (relative to `base_dir`) into a package part name.
///
/// `base_dir` is the directory of the source part (e.g. `word` for
/// `word/document.xml`; empty for the package root). Handles `../` and a leading
/// `/` (absolute-from-root). Returns a normalized `a/b/c.xml` part name.
pub fn resolve_target(base_dir: &str, target: &str) -> (r: String)
    ensures
        ubytes(r@) == resolve_of(sbytes(base_dir), sbytes(target)),
{
    let tb = target.as_bytes();
    if tb.len() > 0 && tb[0] == 0x2f {
        proof {
            lemma_str_valid(target);
            lemma_ascii_boundary(sbytes(target), 0);
            vstd::utf8::is_char_boundary_start_end_of_seq(sbytes(target));
        }
        let abs = substr(target, 1, tb.len());
        return owned(abs);
    }
    let base_parts = split_slash_str(base_dir);
    let stack = nonempty_pieces(base_parts);
    let parts = split_slash_str(target);
    let stack = apply_path_steps(stack, &parts);
    join_pieces(&stack)
}

/// The non-empty pieces, in order.
fn nonempty_pieces<'a>(pieces: Vec<&'a str>) -> (r: Vec<&'a str>)
    ensures
        piece_bytes(r@) == nonempty(piece_bytes(pieces@)),
{
    let ghost bp = piece_bytes(pieces@);
    let mut stack: Vec<&str> = Vec::new();
    let mut k: usize = 0;
    while k < pieces.len()
        invariant
            k <= pieces@.len(),
            bp == piece_bytes(pieces@),
            piece_bytes(stack@) == nonempty(bp.take(k as int)),
        decreases pieces@.len() - k,
    {
        assert(bp.take(k + 1).drop_last() =~= bp.take(k as int));
        assert(bp.take(k + 1).last() == sbytes(pieces@[k as int]));
        let piece = pieces[k];
        let ghost prev = stack@;
        if piece.as_bytes().len() > 0 {
            stack.push(piece);
            assert(piece_bytes(stack@) =~= piece_bytes(prev) + seq![sbytes(piece)]);
        } else {
            assert(piece_bytes(stack@) =~= piece_bytes(prev) + Seq::<Seq<u8>>::empty());
        }
        k = k + 1;
    }
    assert(bp.take(pieces@.len() as int) =~= bp);
    stack
}

/// Apply [`path_step`] for each of `pieces` to `stack`.
fn apply_path_steps<'a>(stack: Vec<&'a str>, pieces: &Vec<&'a str>) -> (r: Vec<&'a str>)
    ensures
        piece_bytes(r@) == path_steps(piece_bytes(stack@), piece_bytes(pieces@)),
{
    let ghost init = piece_bytes(stack@);
    let ghost tp = piece_bytes(pieces@);
    let mut stack = stack;
    let mut j: usize = 0;
    while j < pieces.len()
        invariant
            j <= pieces@.len(),
            tp == piece_bytes(pieces@),
            piece_bytes(stack@) == path_steps(init, tp.take(j as int)),
        decreases pieces@.len() - j,
    {
        assert(tp.take(j + 1).drop_last() =~= tp.take(j as int));
        assert(tp.take(j + 1).last() == sbytes(pieces@[j as int]));
        let piece = pieces[j];
        let ghost prev = stack@;
        if piece.as_bytes().len() == 0 || bytes_eq(piece.as_bytes(), ".".as_bytes()) {
        } else if bytes_eq(piece.as_bytes(), "..".as_bytes()) {
            if stack.len() > 0 {
                stack.pop();
                assert(piece_bytes(stack@) =~= piece_bytes(prev).drop_last());
            }
        } else {
            stack.push(piece);
            assert(piece_bytes(stack@) =~= piece_bytes(prev).push(sbytes(piece)));
        }
        j = j + 1;
    }
    assert(tp.take(pieces@.len() as int) =~= tp);
    stack
}

/// The pieces joined with `/`.
fn join_pieces(stack: &Vec<&str>) -> (r: String)
    ensures
        ubytes(r@) == join_slash(piece_bytes(stack@)),
{
    let ghost sp = piece_bytes(stack@);
    let mut r = String::new();
    assert(ubytes(r@) =~= Seq::<u8>::empty());
    let mut m: usize = 0;
    while m < stack.len()
        invariant
            m <= stack@.len(),
            sp == piece_bytes(stack@),
            ubytes(r@) == join_slash(sp.take(m as int)),
        decreases stack@.len() - m,
    {
        assert(sp.take(m + 1).drop_last() =~= sp.take(m as int));
        assert(sp.take(m + 1).last() == sbytes(stack@[m as int]));
        if m > 0 {
            append(&mut r, "/");
        } else {
            assert(sp.take(1) =~= seq![sbytes(stack@[0])]);
            assert(Seq::<u8>::empty() + sbytes(stack@[0]) =~= sbytes(stack@[0]));
        }
        append(&mut r, stack[m]);
        m = m + 1;
    }
    assert(sp.take(stack@.len() as int) =~= sp);
    r
}

} // verus!
