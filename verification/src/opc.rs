//! The OPC (Open Packaging Conventions) container with verbatim carry-through.
//!
//! An [`OpcPackage`] keeps every entry of the zip in on-disk order, file parts
//! stored decompressed. A part is only replaced when the caller
//! [`OpcPackage::set_part`]s it (marking it dirty); on write every part emits
//! its stored bytes, so unknown and untouched parts survive a round trip.

use vstd::prelude::*;
use vstd::string::StrSliceExecFns;
use crate::bytes::{starts_with, str_eq, to_vec};
use crate::error::OoxmlError;

verus! {

/// A `zip::ZipWriter` filling an in-memory buffer. (Verus refuses a
/// declaration of the writer type, whose bounds are `std::io` traits, so it is
/// held opaquely here.)
#[verifier::external_body]
pub struct ZipSink {
    inner: zip::ZipWriter<std::io::Cursor<Vec<u8>>>,
}

/// The entries (name, is-directory, decompressed bytes) that the zip reader
/// finds in an archive, in central-directory order; `None` when the archive
/// cannot be read.
pub uninterp spec fn zip_archive(bytes: Seq<u8>) -> Option<Seq<(Seq<char>, bool, Seq<u8>)>>;

/// The entries written so far to a zip writer, in order.
pub uninterp spec fn zip_written(w: ZipSink) -> Seq<(Seq<char>, bool, Seq<u8>)>;

/// Every call made on the zip writer so far succeeded, and what it holds
/// stays within the archive budget (see [`entry_fits`]).
pub uninterp spec fn zip_sound(w: ZipSink) -> bool;

/// What an entry counts toward the archive budget: its data, its name, and
/// a kilobyte for its headers, its central-directory record and deflate
/// framing.
pub open spec fn entry_cost(e: (Seq<char>, bool, Seq<u8>)) -> int {
    (e.2.len() + crate::bytes::ubytes(e.0).len() + 1024) as int
}

/// What a list of entries counts toward the archive budget.
pub open spec fn written_cost(es: Seq<(Seq<char>, bool, Seq<u8>)>) -> int
    decreases es.len(),
{
    if es.len() == 0 {
        0
    } else {
        written_cost(es.drop_last()) + entry_cost(es.last())
    }
}

/// An entry the zip writer takes: its name is not yet written, its local
/// header (30 bytes and the name) stays under 64 KiB, and the archive with
/// it stays within a 1 GiB budget. At that size no entry's data, compressed
/// size (deflate output of `n` bytes stays under `n + n / 4096 + n / 16384
/// + 13`, zlib's bound) or offset comes near the 4 GiB zip64 threshold, past
/// which the writer refuses an entry without the large-file option; and the
/// in-memory archive, with the package it is written from, fits the 2 GiB a
/// `Vec<u8>` can hold where `usize` has 32 bits (past that, growing the
/// buffer panics instead of returning an error).
pub open spec fn entry_fits(written: Seq<(Seq<char>, bool, Seq<u8>)>, name: Seq<char>, size: int) -> bool {
    &&& forall|k: int| 0 <= k < written.len() ==> #[trigger] written[k].0 != name
    &&& crate::bytes::ubytes(name).len() + 30 < 0xFFFF
    &&& written_cost(written) + size + crate::bytes::ubytes(name).len() + 1024 < 0x4000_0000
}

/// The name `ZipWriter::add_directory` writes: with a `/` appended unless
/// it already ends with a separator.
pub open spec fn add_dir_name(name: Seq<char>) -> Seq<char> {
    if ends_sep(name) {
        name
    } else {
        name.push('/')
    }
}

/// A name without its trailing `/`s.
pub open spec fn trim_slashes(name: Seq<char>) -> Seq<char>
    decreases name.len(),
{
    if name.len() > 0 && name.last() == '/' {
        trim_slashes(name.drop_last())
    } else {
        name
    }
}

/// The entry name a directory part is written under: its name without its
/// trailing `/`s, handed to `add_directory`.
pub open spec fn dir_entry_name(name: Seq<char>) -> Seq<char> {
    add_dir_name(trim_slashes(name))
}

/// Does a zip entry name mark a directory (a trailing `/` or `\`)? This is the
/// rule the zip reader's `is_dir` applies.
pub open spec fn ends_sep(name: Seq<char>) -> bool {
    name.len() > 0 && (name.last() == '/' || name.last() == '\\')
}

/// Calls `zip::ZipArchive::new` over the bytes, then `by_index`, `name`,
/// `is_dir` and `read_to_end` for every entry in order.
#[verifier::external_body]
fn zip_read(bytes: &[u8]) -> (r: Result<Vec<(String, bool, Vec<u8>)>, zip::result::ZipError>)
    ensures
        match r {
            Ok(es) => zip_archive(bytes@) == Some(
                es@.map_values(|e: (String, bool, Vec<u8>)| (e.0@, e.1, e.2@)),
            ),
            Err(_) => zip_archive(bytes@) is None,
        },
{
    let mut archive = zip::ZipArchive::new(std::io::Cursor::new(bytes))?;
    let mut entries = Vec::with_capacity(archive.len());
    for i in 0..archive.len() {
        let mut file = archive.by_index(i)?;
        let mut buf = Vec::new();
        std::io::Read::read_to_end(&mut file, &mut buf)?;
        entries.push((file.name()?.into_owned(), file.is_dir(), buf));
    }
    Ok(entries)
}

/// Calls `zip::ZipWriter::new` over an empty in-memory buffer.
#[verifier::external_body]
pub(crate) fn zip_writer_new() -> (w: ZipSink)
    ensures
        zip_written(w) == Seq::<(Seq<char>, bool, Seq<u8>)>::empty(),
        zip_sound(w),
{
    ZipSink { inner: zip::ZipWriter::new(std::io::Cursor::new(Vec::new())) }
}

/// Calls `ZipWriter::add_directory`, which appends a `/` to the name unless
/// it ends with a separator (see [`add_dir_name`]). On a writer whose calls
/// all succeeded, a name that fits (see [`entry_fits`]) is taken:
/// `start_entry` refuses only a duplicate name or an over-long header, the
/// previous entry's sizes stay under the zip64 threshold within the budget,
/// and the in-memory buffer does not fail.
#[verifier::external_body]
fn zip_add_directory(w: &mut ZipSink, name: &str) -> (r: Result<(), zip::result::ZipError>)
    ensures
        r is Ok ==> zip_written(*final(w)) == zip_written(*old(w)).push((add_dir_name(name@), true, Seq::<u8>::empty())),
        zip_sound(*old(w)) && entry_fits(zip_written(*old(w)), add_dir_name(name@), 0) ==> r is Ok && zip_sound(*final(w)),
{
    w.inner.add_directory(name, zip::write::SimpleFileOptions::default())
}

/// Calls `ZipWriter::start_file` (deflated) and then `write_all` of the
/// bytes; the entry reads back as a directory when its name ends with a
/// separator (see [`ends_sep`]). On a writer whose calls all succeeded, an
/// entry that fits (see [`entry_fits`]) is taken: `start_file` refuses only
/// a duplicate name or an over-long header, the data, compressed sizes and
/// offsets stay under the zip64 threshold within the budget, and the
/// in-memory buffer does not fail.
#[verifier::external_body]
pub(crate) fn zip_add_file(w: &mut ZipSink, name: &str, bytes: &[u8]) -> (r: Result<(), zip::result::ZipError>)
    ensures
        r is Ok ==> zip_written(*final(w)) == zip_written(*old(w)).push((name@, ends_sep(name@), bytes@)),
        zip_sound(*old(w)) && entry_fits(zip_written(*old(w)), name@, bytes@.len() as int) ==> r is Ok && zip_sound(*final(w)),
{
    let opts = zip::write::SimpleFileOptions::default().compression_method(zip::CompressionMethod::Deflated);
    w.inner.start_file(name, opts)?;
    std::io::Write::write_all(&mut w.inner, bytes).map_err(zip::result::ZipError::from)
}

/// Calls `ZipWriter::finish` and takes the buffer. The contract claims that
/// what was written reads back entry for entry, and that the archive begins
/// with a `PK` signature (a local file header, or the end-of-central-directory
/// record of an empty archive). In the crate's source, `finish` runs
/// `finalize`: `finish_file` closes the open entry (its CRC and sizes go into
/// its record), then `write_central_and_footer` writes one central directory
/// header per entry, walking the writer's `files` map (an `IndexMap` kept in
/// the order the entries were started) with each entry's raw name bytes, then
/// the end-of-central-directory record that points at them. The in-memory
/// buffer only grows, so no stale tail is left past that footer. The reader
/// (`ZipArchive::new`) locates that footer, takes the central directory as
/// authoritative and lists its entries in the same order; `name` decodes the
/// raw bytes (written from a `&str`, flagged UTF-8), `is_dir` looks at the
/// trailing separator of the name, and `read_to_end` inflates the deflated
/// data and checks its CRC. The crate's own tests in `write.rs` (such as
/// `test_shallow_copy`, `test_deep_copy`) write an archive and read it back
/// this way. Nothing is claimed of the bytes beyond what the reader gives back.
/// On a writer whose calls all succeeded within the budget, finishing
/// succeeds: the last entry's sizes stay under the zip64 threshold, and the
/// central directory and footer go into the in-memory buffer.
#[verifier::external_body]
pub(crate) fn zip_finish(w: ZipSink) -> (r: Result<Vec<u8>, zip::result::ZipError>)
    ensures
        r matches Ok(b) ==> zip_archive(b@) == Some(zip_written(w)) && starts_pk(b@),
        zip_sound(w) ==> r is Ok,
{
    Ok(w.inner.finish()?.into_inner())
}

/// The archive begins with the zip signature bytes `PK`.
pub open spec fn starts_pk(b: Seq<u8>) -> bool {
    b.len() >= 2 && b[0] == 0x50 && b[1] == 0x4b
}

/// One entry of the package, in on-disk order.
#[derive(Debug, Clone)]
pub enum PartEntry {
    /// A file part, stored decompressed; `dirty` once replaced by `set_part`.
    File { name: String, bytes: Vec<u8>, dirty: bool },
    /// An explicit directory entry (rare in `.docx`, preserved when present).
    Dir { name: String },
}

/// A part as a value: (is a file, name, decompressed bytes, dirty).
pub type PartView = (bool, Seq<char>, Seq<u8>, bool);

impl View for PartEntry {
    type V = PartView;

    open spec fn view(&self) -> PartView {
        match self {
            PartEntry::File { name, bytes, dirty } => (true, name@, bytes@, *dirty),
            PartEntry::Dir { name } => (false, name@, Seq::empty(), false),
        }
    }
}

impl PartEntry {
    /// The entry's name.
    pub fn name(&self) -> (r: &str)
        ensures
            r@ == self@.1,
    {
        match self {
            PartEntry::File { name, .. } => name.as_str(),
            PartEntry::Dir { name } => name.as_str(),
        }
    }
}

/// The index of the first file part named `name`.
pub open spec fn find_file(ps: Seq<PartView>, name: Seq<char>) -> Option<int>
    decreases ps.len(),
{
    if ps.len() == 0 {
        None
    } else {
        match find_file(ps.drop_last(), name) {
            Some(k) => Some(k),
            None => if ps.last().0 && ps.last().1 == name {
                Some(ps.len() - 1)
            } else {
                None
            },
        }
    }
}

/// The bytes of the first file part named `name`.
pub open spec fn part_of(ps: Seq<PartView>, name: Seq<char>) -> Option<Seq<u8>> {
    match find_file(ps, name) {
        Some(k) => Some(ps[k].2),
        None => None,
    }
}

/// The package after replacing (or appending) a file part.
pub open spec fn set_part_of(ps: Seq<PartView>, name: Seq<char>, bytes: Seq<u8>) -> Seq<PartView> {
    match find_file(ps, name) {
        Some(k) => ps.update(k, (true, name, bytes, true)),
        None => ps.push((true, name, bytes, true)),
    }
}

/// The names of the file parts, in order.
pub open spec fn file_names_of(ps: Seq<PartView>) -> Seq<Seq<char>>
    decreases ps.len(),
{
    if ps.len() == 0 {
        seq![]
    } else {
        file_names_of(ps.drop_last()) + if ps.last().0 { seq![ps.last().1] } else { seq![] }
    }
}

/// Some file part has been replaced since read.
pub open spec fn any_dirty(ps: Seq<PartView>) -> bool {
    exists|k: int| 0 <= k < ps.len() && ps[k].0 && ps[k].3
}

/// Every directory name ends with a separator and no file name does (what
/// the zip format needs to tell them apart on reading), and each directory
/// name is written as it is (see [`dir_entry_name`]).
pub open spec fn kinds_ok(ps: Seq<PartView>) -> bool {
    forall|k: int| 0 <= k < ps.len() ==> (ends_sep(ps[k].1) <==> !ps[k].0) && (!ps[k].0 ==> dir_entry_name(ps[k].1) == ps[k].1)
}

/// The zip entry a part is written as: a file under its name, with its
/// bytes (a directory on reading when the name ends with a separator); a
/// directory under [`dir_entry_name`].
pub open spec fn entry_of(p: PartView) -> (Seq<char>, bool, Seq<u8>) {
    if p.0 {
        (p.1, ends_sep(p.1), p.2)
    } else {
        (dir_entry_name(p.1), true, Seq::<u8>::empty())
    }
}

/// The zip entries a package writes.
pub open spec fn entries_of(ps: Seq<PartView>) -> Seq<(Seq<char>, bool, Seq<u8>)> {
    ps.map_values(|p: PartView| entry_of(p))
}

/// A package the zip writer takes whole: the entry names it writes are
/// distinct, each header fits, and the whole stays within the archive
/// budget (see [`entry_fits`]).
pub open spec fn writable(ps: Seq<PartView>) -> bool {
    let es = entries_of(ps);
    &&& forall|x: int, y: int| 0 <= x < y < es.len() ==> es[x].0 != es[y].0
    &&& forall|k: int| 0 <= k < es.len() ==> crate::bytes::ubytes(#[trigger] es[k].0).len() + 30 < 0xFFFF
    &&& written_cost(es) < 0x4000_0000
}

/// The parts read from zip entries (all clean).
pub open spec fn parts_of(es: Seq<(Seq<char>, bool, Seq<u8>)>) -> Seq<PartView> {
    es.map_values(
        |e: (Seq<char>, bool, Seq<u8>)| if e.1 { (false, e.0, Seq::<u8>::empty(), false) } else { (true, e.0, e.2, false) },
    )
}

/// The package with every dirty flag cleared (a directory carries no bytes).
pub open spec fn clean(ps: Seq<PartView>) -> Seq<PartView> {
    ps.map_values(
        |p: PartView| if p.0 { (true, p.1, p.2, false) } else { (false, p.1, Seq::<u8>::empty(), false) },
    )
}

/// The CFB/OLE magic of a legacy binary `.doc`.
pub open spec fn is_cfb(b: Seq<u8>) -> bool {
    b.len() >= 8 && b.subrange(0, 8) == seq![0xd0u8, 0xcfu8, 0x11u8, 0xe0u8, 0xa1u8, 0xb1u8, 0x1au8, 0xe1u8]
}

/// The `{\rtf` magic of a Rich Text Format file.
pub open spec fn is_rtf(b: Seq<u8>) -> bool {
    b.len() >= 5 && b.subrange(0, 5) == seq![0x7bu8, 0x5cu8, 0x72u8, 0x74u8, 0x66u8]
}

/// What reading a byte string yields: refused when it carries a legacy magic,
/// else the zip entries as clean parts.
pub open spec fn read_spec(b: Seq<u8>) -> Option<Seq<PartView>> {
    if is_cfb(b) || is_rtf(b) {
        None
    } else {
        match zip_archive(b) {
            Some(es) => Some(parts_of(es)),
            None => None,
        }
    }
}

/// A package read from `.docx`/`.dotx` bytes, preserving part order.
#[derive(Debug, Clone)]
pub struct OpcPackage {
    parts: Vec<PartEntry>,
}

impl View for OpcPackage {
    type V = Seq<PartView>;

    closed spec fn view(&self) -> Seq<PartView> {
        self.parts@.map_values(|p: PartEntry| p@)
    }
}

impl PartEntry {
    /// A copy of the entry, with the same name, bytes and state.
    pub fn copy(&self) -> (r: Self)
        ensures
            r@ == self@,
    {
        match self {
            PartEntry::File { name, bytes, dirty } => PartEntry::File { name: name.clone(), bytes: to_vec(bytes.as_slice()), dirty: *dirty },
            PartEntry::Dir { name } => PartEntry::Dir { name: name.clone() },
        }
    }
}

impl OpcPackage {
    /// A copy of the package (same parts, bytes, order and state), so that a
    /// save can patch it while the original stays reusable.
    pub fn copy(&self) -> (r: Self)
        ensures
            r@ == self@,
    {
        let mut parts: Vec<PartEntry> = Vec::new();
        let mut i: usize = 0;
        while i < self.parts.len()
            invariant
                i <= self.parts@.len(),
                parts@.len() == i,
                forall|k: int| 0 <= k < i ==> #[trigger] parts@[k]@ == self.parts@[k]@,
            decreases self.parts@.len() - i,
        {
            parts.push(self.parts[i].copy());
            i = i + 1;
        }
        let r = OpcPackage { parts };
        assert(r@ =~= self@);
        r
    }

    /// An empty package.
    pub fn new() -> (p: Self)
        ensures
            p@ == Seq::<PartView>::empty(),
    {
        let p = OpcPackage { parts: Vec::new() };
        assert(p@ =~= Seq::<PartView>::empty());
        p
    }

    /// Read a package from `.docx` bytes. A legacy binary `.doc` or an RTF file
    /// is refused by its magic before the zip reader runs; a non-zip payload
    /// returns [`OoxmlError::Zip`]. Never panics.
    pub fn read(bytes: &[u8]) -> (r: Result<Self, OoxmlError>)
        ensures
            match r {
                Ok(p) => read_spec(bytes@) == Some(p@),
                Err(OoxmlError::LegacyBinaryDoc) => is_cfb(bytes@),
                Err(OoxmlError::RichTextFormat) => is_rtf(bytes@) && !is_cfb(bytes@),
                Err(OoxmlError::Zip(_)) => read_spec(bytes@) is None && !is_cfb(bytes@) && !is_rtf(bytes@),
                Err(_) => false,
            },
    {
        let cfb: [u8; 8] = [0xd0, 0xcf, 0x11, 0xe0, 0xa1, 0xb1, 0x1a, 0xe1];
        if starts_with(bytes, &cfb) {
            assert(cfb@ =~= seq![0xd0u8, 0xcfu8, 0x11u8, 0xe0u8, 0xa1u8, 0xb1u8, 0x1au8, 0xe1u8]);
            return Err(OoxmlError::LegacyBinaryDoc);
        }
        assert(cfb@ =~= seq![0xd0u8, 0xcfu8, 0x11u8, 0xe0u8, 0xa1u8, 0xb1u8, 0x1au8, 0xe1u8]);
        let rtf: [u8; 5] = [0x7b, 0x5c, 0x72, 0x74, 0x66];
        assert(rtf@ =~= seq![0x7bu8, 0x5cu8, 0x72u8, 0x74u8, 0x66u8]);
        if starts_with(bytes, &rtf) {
            return Err(OoxmlError::RichTextFormat);
        }
        let entries = match zip_read(bytes) {
            Ok(es) => es,
            Err(e) => {
                return Err(OoxmlError::Zip(e));
            },
        };
        let ghost es = entries@.map_values(|e: (String, bool, Vec<u8>)| (e.0@, e.1, e.2@));
        let mut parts: Vec<PartEntry> = Vec::new();
        let mut i: usize = 0;
        while i < entries.len()
            invariant
                i <= entries@.len(),
                es == entries@.map_values(|e: (String, bool, Vec<u8>)| (e.0@, e.1, e.2@)),
                parts@.len() == i,
                forall|k: int| 0 <= k < i ==> #[trigger] parts@[k]@ == parts_of(es)[k],
            decreases entries@.len() - i,
        {
            let e = &entries[i];
            let name = e.0.clone();
            if e.1 {
                parts.push(PartEntry::Dir { name });
            } else {
                parts.push(PartEntry::File { name, bytes: to_vec(&e.2), dirty: false });
            }
            i = i + 1;
        }
        let p = OpcPackage { parts };
        assert(p@ =~= parts_of(es));
        Ok(p)
    }

    /// All part names in on-disk order (files and directories).
    pub fn names(&self) -> (r: Vec<String>)
        ensures
            r@.map_values(|s: String| s@) == self@.map_values(|p: PartView| p.1),
    {
        let mut out: Vec<String> = Vec::new();
        let mut i: usize = 0;
        while i < self.parts.len()
            invariant
                i <= self.parts@.len(),
                out@.len() == i,
                forall|k: int| 0 <= k < i ==> #[trigger] out@[k]@ == self.parts@[k]@.1,
            decreases self.parts@.len() - i,
        {
            out.push(self.parts[i].name().to_owned());
            i = i + 1;
        }
        assert(out@.map_values(|s: String| s@) =~= self@.map_values(|p: PartView| p.1));
        out
    }

    /// All file part names in on-disk order.
    pub fn file_names(&self) -> (r: Vec<String>)
        ensures
            r@.map_values(|s: String| s@) == file_names_of(self@),
    {
        let mut out: Vec<String> = Vec::new();
        let mut i: usize = 0;
        let ghost v = self@;
        while i < self.parts.len()
            invariant
                i <= self.parts@.len(),
                v == self@,
                v.len() == self.parts@.len(),
                forall|k: int| 0 <= k < v.len() ==> v[k] == #[trigger] self.parts@[k]@,
                out@.map_values(|s: String| s@) == file_names_of(v.subrange(0, i as int)),
            decreases self.parts@.len() - i,
        {
            let ghost before = out@;
            assert(v.subrange(0, i + 1).drop_last() =~= v.subrange(0, i as int));
            if let PartEntry::File { name, .. } = &self.parts[i] {
                out.push(name.clone());
                assert(out@ =~= before.push(out@.last()));
            } else {
                assert(out@ =~= before);
            }
            i = i + 1;
            assert(out@.map_values(|s: String| s@) =~= file_names_of(v.subrange(0, i as int)));
        }
        assert(v.subrange(0, v.len() as int) =~= v);
        out
    }

    /// Borrow the decompressed bytes of a file part by name.
    pub fn part(&self, name: &str) -> (r: Option<&[u8]>)
        ensures
            match r {
                Some(b) => part_of(self@, name@) == Some(b@),
                None => part_of(self@, name@) is None,
            },
    {
        match self.index_of(name) {
            Some(k) => {
                proof { lemma_find_file_some(self@, name@); }
                assert(self@[k as int] == self.parts@[k as int]@);
                match &self.parts[k] {
                    PartEntry::File { bytes, .. } => Some(bytes.as_slice()),
                    PartEntry::Dir { .. } => None,
                }
            },
            None => None,
        }
    }

    /// The index of the first file part named `name`.
    fn index_of(&self, name: &str) -> (r: Option<usize>)
        ensures
            match r {
                Some(k) => find_file(self@, name@) == Some(k as int) && k < self.parts@.len(),
                None => find_file(self@, name@) is None,
            },
    {
        let ghost v = self@;
        let mut i: usize = 0;
        while i < self.parts.len()
            invariant
                i <= self.parts@.len(),
                v == self@,
                v.len() == self.parts@.len(),
                forall|k: int| 0 <= k < v.len() ==> v[k] == #[trigger] self.parts@[k]@,
                find_file(v.subrange(0, i as int), name@) is None,
            decreases self.parts@.len() - i,
        {
            let hit = match &self.parts[i] {
                PartEntry::File { name: n, .. } => str_eq(n.as_str(), name),
                PartEntry::Dir { .. } => false,
            };
            assert(v.subrange(0, i + 1).drop_last() =~= v.subrange(0, i as int));
            if hit {
                proof { lemma_find_file_prefix(v, i as int + 1, name@); }
                return Some(i);
            }
            i = i + 1;
        }
        assert(v.subrange(0, v.len() as int) =~= v);
        None
    }

    /// Borrow required part bytes, or [`OoxmlError::MissingPart`].
    pub fn require(&self, name: &str) -> (r: Result<&[u8], OoxmlError>)
        ensures
            match r {
                Ok(b) => part_of(self@, name@) == Some(b@),
                Err(e) => part_of(self@, name@) is None && e is MissingPart && e->MissingPart_0@ == name@,
            },
    {
        match self.part(name) {
            Some(b) => Ok(b),
            None => Err(OoxmlError::MissingPart(name.to_owned())),
        }
    }

    /// Replace a part's bytes, marking it dirty; a part that does not exist is
    /// appended. Directory entries are never targets.
    pub fn set_part(&mut self, name: &str, new_bytes: Vec<u8>)
        ensures
            final(self)@ == set_part_of(old(self)@, name@, new_bytes@),
    {
        let ghost v = self@;
        match self.index_of(name) {
            Some(k) => {
                self.parts.set(k, PartEntry::File { name: name.to_owned(), bytes: new_bytes, dirty: true });
                assert(self@ =~= v.update(k as int, (true, name@, new_bytes@, true)));
            },
            None => {
                self.parts.push(PartEntry::File { name: name.to_owned(), bytes: new_bytes, dirty: true });
                assert(self@ =~= v.push((true, name@, new_bytes@, true)));
            },
        }
    }

    /// True if any part was modified since read.
    pub fn is_dirty(&self) -> (r: bool)
        ensures
            r == any_dirty(self@),
    {
        let ghost v = self@;
        let mut i: usize = 0;
        while i < self.parts.len()
            invariant
                i <= self.parts@.len(),
                v == self@,
                v.len() == self.parts@.len(),
                forall|k: int| 0 <= k < v.len() ==> v[k] == #[trigger] self.parts@[k]@,
                forall|k: int| 0 <= k < i ==> !(v[k].0 && v[k].3),
            decreases self.parts@.len() - i,
        {
            if let PartEntry::File { dirty: true, .. } = &self.parts[i] {
                assert(v[i as int].0 && v[i as int].3);
                return true;
            }
            i = i + 1;
        }
        false
    }

    /// Re-serialize the package to `.docx` bytes, parts in order: each file
    /// emits its stored bytes under its name; each directory is handed to the
    /// writer without its trailing `/`s (the writer adds one back). Only the
    /// zip writer fails.
    pub fn write(&self) -> (r: Result<Vec<u8>, OoxmlError>)
        ensures
            r matches Ok(b) ==> zip_archive(b@) == Some(entries_of(self@)) && starts_pk(b@),
            r matches Err(e) ==> e is Zip,
            writable(self@) ==> r is Ok,
    {
        let ghost v = self@;
        let ghost es = entries_of(v);
        let mut w = zip_writer_new();
        let mut i: usize = 0;
        assert(es.subrange(0, 0) =~= Seq::<(Seq<char>, bool, Seq<u8>)>::empty());
        while i < self.parts.len()
            invariant
                i <= self.parts@.len(),
                v == self@,
                es == entries_of(v),
                v.len() == self.parts@.len(),
                forall|k: int| 0 <= k < v.len() ==> v[k] == #[trigger] self.parts@[k]@,
                zip_written(w) == es.subrange(0, i as int),
                writable(v) ==> zip_sound(w),
            decreases self.parts@.len() - i,
        {
            let ghost before = zip_written(w);
            proof {
                assert(es[i as int] == entry_of(v[i as int]));
                assert(es.subrange(0, i + 1).drop_last() =~= before);
                if writable(v) {
                    assert forall|k: int| 0 <= k < before.len() implies #[trigger] before[k].0 != es[i as int].0 by {
                        assert(before[k] == es[k]);
                    }
                    assert(crate::bytes::ubytes(es[i as int].0).len() + 30 < 0xFFFF);
                    lemma_prefix_cost(es, i + 1);
                }
            }
            match &self.parts[i] {
                PartEntry::Dir { name } => {
                    let t = trim_slashes_str(name.as_str());
                    if let Err(e) = zip_add_directory(&mut w, t) {
                        return Err(OoxmlError::Zip(e));
                    }
                },
                PartEntry::File { name, bytes, .. } => {
                    if let Err(e) = zip_add_file(&mut w, name.as_str(), bytes.as_slice()) {
                        return Err(OoxmlError::Zip(e));
                    }
                },
            }
            assert(es.subrange(0, i + 1) =~= before.push(es[i as int]));
            i = i + 1;
        }
        assert(es.subrange(0, es.len() as int) =~= es);
        match zip_finish(w) {
            Ok(b) => Ok(b),
            Err(e) => Err(OoxmlError::Zip(e)),
        }
    }
}

/// A prefix of a list of entries counts no more than the whole.
pub(crate) proof fn lemma_prefix_cost(es: Seq<(Seq<char>, bool, Seq<u8>)>, j: int)
    requires
        0 <= j <= es.len(),
    ensures
        written_cost(es.subrange(0, j)) <= written_cost(es),
    decreases es.len() - j,
{
    if j < es.len() {
        lemma_prefix_cost(es, j + 1);
        assert(es.subrange(0, j + 1).drop_last() =~= es.subrange(0, j));
    } else {
        assert(es.subrange(0, j) =~= es);
    }
}

/// A name without its trailing `/`s (see [`trim_slashes`]).
fn trim_slashes_str(name: &str) -> (r: &str)
    ensures
        r@ == trim_slashes(name@),
{
    let mut n = name.unicode_len();
    assert(name@.subrange(0, n as int) =~= name@);
    while n > 0 && name.get_char(n - 1) == '/'
        invariant
            n <= name@.len(),
            trim_slashes(name@) == trim_slashes(name@.subrange(0, n as int)),
        decreases n,
    {
        assert(name@.subrange(0, n as int).drop_last() =~= name@.subrange(0, n - 1));
        n = n - 1;
    }
    name.substring_char(0, n)
}

proof fn lemma_find_file_some(ps: Seq<PartView>, name: Seq<char>)
    ensures
        find_file(ps, name) matches Some(k) ==> 0 <= k < ps.len() && ps[k].0 && ps[k].1 == name,
    decreases ps.len(),
{
    if ps.len() > 0 {
        lemma_find_file_some(ps.drop_last(), name);
    }
}

proof fn lemma_find_file_prefix(ps: Seq<PartView>, i: int, name: Seq<char>)
    requires
        0 < i <= ps.len(),
        find_file(ps.subrange(0, i - 1), name) is None,
        ps[i - 1].0 && ps[i - 1].1 == name,
    ensures
        find_file(ps, name) == Some(i - 1),
    decreases ps.len() - i,
{
    assert(ps.subrange(0, i).drop_last() =~= ps.subrange(0, i - 1));
    if i < ps.len() {
        lemma_find_file_extend(ps, i, name);
    } else {
        assert(ps.subrange(0, i) =~= ps);
    }
}

proof fn lemma_find_file_extend(ps: Seq<PartView>, i: int, name: Seq<char>)
    requires
        0 <= i <= ps.len(),
        find_file(ps.subrange(0, i), name) is Some,
    ensures
        find_file(ps, name) == find_file(ps.subrange(0, i), name),
    decreases ps.len() - i,
{
    if i < ps.len() {
        assert(ps.subrange(0, i + 1).drop_last() =~= ps.subrange(0, i));
        lemma_find_file_extend(ps, i + 1, name);
    } else {
        assert(ps.subrange(0, i) =~= ps);
    }
}

proof fn lemma_find_file_char(ps: Seq<PartView>, name: Seq<char>)
    ensures
        match find_file(ps, name) {
            Some(k) => 0 <= k < ps.len() && ps[k].0 && ps[k].1 == name && forall|j: int|
                0 <= j < k ==> !(ps[j].0 && ps[j].1 == name),
            None => forall|j: int| 0 <= j < ps.len() ==> !(ps[j].0 && ps[j].1 == name),
        },
    decreases ps.len(),
{
    if ps.len() > 0 {
        let q = ps.drop_last();
        lemma_find_file_char(q, name);
        assert forall|j: int| 0 <= j < q.len() implies q[j] == ps[j] by {}
    }
}

proof fn lemma_find_file_same(a: Seq<PartView>, b: Seq<PartView>, name: Seq<char>)
    requires
        a.len() == b.len(),
        forall|j: int| 0 <= j < a.len() ==> ((a[j].0 && a[j].1 == name) <==> (b[j].0 && b[j].1 == name)),
    ensures
        find_file(a, name) == find_file(b, name),
{
    lemma_find_file_char(a, name);
    lemma_find_file_char(b, name);
    match (find_file(a, name), find_file(b, name)) {
        (Some(x), Some(y)) => {
            if x < y {
                assert(a[x].0 && a[x].1 == name);
            } else if y < x {
                assert(b[y].0 && b[y].1 == name);
            }
        },
        (Some(x), None) => {
            assert(a[x].0 && a[x].1 == name);
        },
        (None, Some(y)) => {
            assert(b[y].0 && b[y].1 == name);
        },
        (None, None) => {},
    }
}

/// After `set_part(name, bytes)`, reading `name` gives back `bytes`.
pub proof fn law_set_part_then_part(ps: Seq<PartView>, name: Seq<char>, bytes: Seq<u8>)
    ensures
        part_of(set_part_of(ps, name, bytes), name) == Some(bytes),
{
    let q = set_part_of(ps, name, bytes);
    lemma_find_file_char(ps, name);
    lemma_find_file_char(q, name);
    match find_file(ps, name) {
        Some(k) => {
            assert(q[k].0 && q[k].1 == name);
            match find_file(q, name) {
                Some(x) => {
                    if x < k {
                        assert(q[x] == ps[x]);
                    } else if x > k {
                        assert(q[k].0 && q[k].1 == name);
                    }
                },
                None => {},
            }
        },
        None => {
            let n = ps.len() as int;
            assert(q[n].0 && q[n].1 == name);
            match find_file(q, name) {
                Some(x) => {
                    if x < n {
                        assert(q[x] == ps[x]);
                    }
                },
                None => {},
            }
        },
    }
}

/// `set_part(name, ..)` leaves every other part name reading as before.
pub proof fn law_set_part_keeps_others(
    ps: Seq<PartView>,
    name: Seq<char>,
    other: Seq<char>,
    bytes: Seq<u8>,
)
    requires
        name != other,
    ensures
        part_of(set_part_of(ps, name, bytes), other) == part_of(ps, other),
{
    let q = set_part_of(ps, name, bytes);
    lemma_find_file_char(ps, name);
    match find_file(ps, name) {
        Some(k) => {
            assert forall|j: int| 0 <= j < ps.len() implies ((ps[j].0 && ps[j].1 == other) <==> (
            q[j].0 && q[j].1 == other)) by {}
            lemma_find_file_same(ps, q, other);
            lemma_find_file_char(ps, other);
            match find_file(ps, other) {
                Some(x) => {
                    assert(x != k);
                    assert(q[x] == ps[x]);
                },
                None => {},
            }
        },
        None => {
            let n = ps.len() as int;
            assert(q.drop_last() =~= ps);
            lemma_find_file_char(ps, other);
            lemma_find_file_char(q, other);
            match find_file(q, other) {
                Some(x) => {
                    assert(x < n);
                    assert(q[x] == ps[x]);
                    assert(find_file(q, other) == find_file(q.drop_last(), other));
                },
                None => {
                    assert(find_file(q.drop_last(), other) is None);
                },
            }
        },
    }
}

/// After `set_part`, the package is dirty.
pub proof fn law_set_part_marks_dirty(ps: Seq<PartView>, name: Seq<char>, bytes: Seq<u8>)
    ensures
        any_dirty(set_part_of(ps, name, bytes)),
{
    let q = set_part_of(ps, name, bytes);
    lemma_find_file_char(ps, name);
    match find_file(ps, name) {
        Some(k) => {
            assert(q[k].0 && q[k].3);
        },
        None => {
            assert(q[ps.len() as int].0 && q[ps.len() as int].3);
        },
    }
}

/// `set_part` keeps the part order: existing names stay where they are, and a
/// new part is appended at the end.
pub proof fn law_set_part_keeps_order(ps: Seq<PartView>, name: Seq<char>, bytes: Seq<u8>)
    ensures
        set_part_of(ps, name, bytes).map_values(|p: PartView| p.1) == if part_of(ps, name) is Some {
            ps.map_values(|p: PartView| p.1)
        } else {
            ps.map_values(|p: PartView| p.1).push(name)
        },
{
    let q = set_part_of(ps, name, bytes);
    lemma_find_file_char(ps, name);
    match find_file(ps, name) {
        Some(k) => {
            assert(q.map_values(|p: PartView| p.1) =~= ps.map_values(|p: PartView| p.1));
        },
        None => {
            assert(q.map_values(|p: PartView| p.1) =~= ps.map_values(|p: PartView| p.1).push(name));
        },
    }
}

/// The preservation invariant: reading back what `write` produced gives
/// every part again — same order, same names, byte-identical contents — with
/// no part dirty, for a package whose names tell files from directories as
/// the zip reader does (see [`kinds_ok`]).
pub proof fn law_write_read_round_trip(ps: Seq<PartView>, b: Seq<u8>)
    requires
        kinds_ok(ps),
        zip_archive(b) == Some(entries_of(ps)),
        starts_pk(b),
    ensures
        read_spec(b) == Some(clean(ps)),
{
    assert(!is_cfb(b)) by {
        if is_cfb(b) {
            assert(b.subrange(0, 8)[0] == 0xd0u8);
        }
    }
    assert(!is_rtf(b)) by {
        if is_rtf(b) {
            assert(b.subrange(0, 5)[0] == 0x7bu8);
        }
    }
    assert forall|k: int| 0 <= k < ps.len() implies #[trigger] entries_of(ps)[k] == (ps[k].1, !ps[k].0, if ps[k].0 {
        ps[k].2
    } else {
        Seq::<u8>::empty()
    }) by {
        assert(entries_of(ps)[k] == entry_of(ps[k]));
    }
    assert(parts_of(entries_of(ps)) =~= clean(ps));
}

/// A freshly read package has no dirty part.
pub proof fn law_read_is_clean(b: Seq<u8>)
    ensures
        read_spec(b) matches Some(ps) ==> !any_dirty(ps),
{
    if let Some(ps) = read_spec(b) {
        if any_dirty(ps) {
            let k = choose|k: int| 0 <= k < ps.len() && ps[k].0 && ps[k].3;
            assert(ps[k].3 == false);
        }
    }
}

/// The file names are the names of the file parts: there are no more of them
/// than parts, and each one finds its part.
pub proof fn law_file_names_are_parts(ps: Seq<PartView>)
    ensures
        file_names_of(ps).len() <= ps.len(),
        forall|j: int| 0 <= j < file_names_of(ps).len() ==> #[trigger] part_of(ps, file_names_of(ps)[j]) is Some,
    decreases ps.len(),
{
    if ps.len() > 0 {
        let front = ps.drop_last();
        law_file_names_are_parts(front);
        let fs = file_names_of(front);
        assert forall|j: int| 0 <= j < file_names_of(ps).len() implies #[trigger] part_of(ps, file_names_of(ps)[j]) is Some by {
            let n = file_names_of(ps)[j];
            if j < fs.len() {
                assert(n == fs[j]);
                assert(part_of(front, fs[j]) is Some);
                assert(find_file(front, n) is Some);
            } else {
                assert(ps.last().0 && n == ps.last().1);
            }
            assert(find_file(ps, n) is Some);
        }
    }
}

/// Replacing or adding a file part whose name does not end with a separator
/// keeps the package's names telling files from directories (see
/// [`kinds_ok`]), so a package read and then edited this way still writes
/// and reads back part for part.
pub proof fn law_set_part_keeps_kinds(ps: Seq<PartView>, name: Seq<char>, bytes: Seq<u8>)
    requires
        kinds_ok(ps),
        !ends_sep(name),
    ensures
        kinds_ok(set_part_of(ps, name, bytes)),
{
    let qs = set_part_of(ps, name, bytes);
    match find_file(ps, name) {
        Some(k) => {
            lemma_find_file_some(ps, name);
            assert forall|j: int| 0 <= j < qs.len() implies (ends_sep(#[trigger] qs[j].1) <==> !qs[j].0) && (!qs[j].0 ==> dir_entry_name(
                qs[j].1,
            ) == qs[j].1) by {
                if j != k {
                    assert(qs[j] == ps[j]);
                }
            }
        },
        None => {
            assert forall|j: int| 0 <= j < qs.len() implies (ends_sep(#[trigger] qs[j].1) <==> !qs[j].0) && (!qs[j].0 ==> dir_entry_name(
                qs[j].1,
            ) == qs[j].1) by {
                if j < ps.len() {
                    assert(qs[j] == ps[j]);
                }
            }
        },
    }
}

} // verus!
