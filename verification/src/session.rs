//! A loaded Word document session: the retained source bytes (for verbatim
//! save-back), the parsed model, the retained package (the save-back patch
//! target) with its main part name, and the provenance bindings.

use vstd::prelude::*;
use crate::bindings::{block_views, build_bindings, DocxBindings};
use crate::bytes::{to_vec, ubytes};
use crate::edit::EditSet;
use crate::error::{message_of, OoxmlError};
use crate::export::{acts_resolve, apply_edits, edit_fragment, has_work};
use crate::import::{body_in, body_ordinals_ok, body_shape, defaults_in, defaults_v, heads, import_docx_with_package, import_error, import_ok, sections_in, styles_in};
use crate::diff::{
    blocks_v, ctx_of, diff, diff_cells, diff_ops, diff_runs, entries_of as binding_entries, law_diff_of_identical, cell_edit_v, op_v,
    run_edit_v, tail_ops, OpV,
};
use crate::edit::{CellRunEdit, RunEdit, StructuralEdit};
use crate::ir::{LoweredDoc, StoryContentIn};
use crate::lower::{lower, lowers};
use crate::model::DocxDocument;
use crate::overlay::{content_v, law_identity_overlay, overlay_spec, overlay_story_content, para_runs};
use crate::opc::{entries_of, part_of, set_part_of, writable, zip_archive, OpcPackage, PartView};
use crate::splice::{holes_ok, patch_holes, spliced, Acts, Hole};

verus! {

/// A loaded Word document session.
pub struct DocSession {
    source: Vec<u8>,
    model: DocxDocument,
    package: OpcPackage,
    main_part: String,
    bindings: DocxBindings,
}

/// The package a save of `edits` patches `ps` into: unchanged when nothing in
/// the edits reaches the source; otherwise the main part replaced by the
/// patch of itself with the actions the edits resolve to (see
/// [`crate::export::resolved_acts`] and [`crate::splice::patch_holes`]),
/// whose every rewritten range holds nothing or a rendering of one of the
/// edits.
pub open spec fn saved_package(ps: Seq<PartView>, main: Seq<char>, b: DocxBindings, edits: EditSet, out: Seq<PartView>) -> bool {
    if !has_work(b, edits) {
        out == ps
    } else {
        match part_of(ps, main) {
            Some(src) => exists|holes: Seq<Hole>|
                holes_ok(src.len() as int, holes) && out == set_part_of(ps, main, spliced(src, holes))
                    && forall|k: int| 0 <= k < holes.len() ==> (#[trigger] holes[k]).2.len() == 0 || edit_fragment(holes[k].2, edits)
                && exists|a: Acts| acts_resolve(a, block_views(b.blocks@), edits) && out == set_part_of(
                    ps,
                    main,
                    spliced(src, patch_holes(src, a)),
                ),
            None => false,
        }
    }
}

/// The edits a read-back gives against a baseline lowering: the diff of the
/// baseline against the read-back overlaid onto it (see
/// [`crate::overlay::overlay_spec`] and [`crate::diff::diff`]).
pub open spec fn read_back_edits(base: LoweredDoc, content: StoryContentIn, b: DocxBindings, edits: EditSet) -> bool {
    let bb = blocks_v(base);
    let eb = overlay_spec(bb, content_v(content));
    let c = ctx_of(base);
    let ent = binding_entries(b);
    &&& edits.runs@.map_values(|x: RunEdit| run_edit_v(x)) == diff_runs(bb, eb, bb.len() as int, c, c, ent)
    &&& edits.structural@.map_values(|x: StructuralEdit| op_v(x)) == diff_ops(bb, eb, bb.len() as int, c, ent) + tail_ops(bb, eb, c, ent)
    &&& edits.cells@.map_values(|x: CellRunEdit| cell_edit_v(x)) == diff_cells(bb, eb, bb.len() as int, c, c, ent)
    &&& edits.paragraphs@.len() == 0
}

/// A read-back that mirrors the baseline's own story gives no edits at all.
pub proof fn law_mirrored_read_back_gives_no_edits(base: LoweredDoc, content: StoryContentIn, b: DocxBindings, edits: EditSet)
    requires
        read_back_edits(base, content, b, edits),
        content_v(content) == para_runs(blocks_v(base)),
    ensures
        edits.runs@.len() == 0,
        edits.structural@.len() == 0,
        edits.cells@.len() == 0,
        edits.paragraphs@.len() == 0,
        !has_work(b, edits),
{
    let bb = blocks_v(base);
    law_identity_overlay(bb);
    law_diff_of_identical(bb, bb.len() as int, ctx_of(base), binding_entries(b));
    assert(tail_ops(bb, bb, ctx_of(base), binding_entries(b)) =~= Seq::<(int, OpV)>::empty());
    assert(edits.runs@.map_values(|x: RunEdit| run_edit_v(x)).len() == 0);
    assert(edits.structural@.map_values(|x: StructuralEdit| op_v(x)).len() == 0);
    assert(edits.cells@.map_values(|x: CellRunEdit| cell_edit_v(x)).len() == 0);
}

/// A save of edits that reach nothing keeps the package as it is.
pub proof fn law_no_work_saves_unchanged(ps: Seq<PartView>, main: Seq<char>, b: DocxBindings, edits: EditSet, out: Seq<PartView>)
    requires
        saved_package(ps, main, b, edits, out),
        !has_work(b, edits),
    ensures
        out == ps,
{
}

impl DocSession {
    /// The retained source bytes.
    pub closed spec fn source_view(&self) -> Seq<u8> {
        self.source@
    }

    /// The retained package.
    pub closed spec fn package_view(&self) -> Seq<PartView> {
        self.package@
    }

    /// The main document part name.
    pub closed spec fn main_view(&self) -> Seq<char> {
        self.main_part@
    }

    /// The parsed model.
    pub closed spec fn model_view(&self) -> DocxDocument {
        self.model
    }

    /// The provenance bindings.
    pub closed spec fn bindings_view(&self) -> DocxBindings {
        self.bindings
    }

    /// Load a `.docx`/`.dotx` package. A hard failure (unreadable container,
    /// missing or unreadable main document) is reported as the error's message.
    pub fn load(bytes: &[u8]) -> (r: Result<DocSession, String>)
        ensures
            match r {
                Ok(s) => s.source_view() == bytes@ && import_ok(bytes@, s.package_view(), s.main_view())
                    && body_ordinals_ok(s.model_view().body@) && body_shape(s.model_view().body@) == body_in(
                    s.package_view(),
                    s.main_view(),
                ) && heads(s.model_view().styles.styles@) == styles_in(
                    s.package_view(),
                    ubytes(s.main_view()),
                ) && s.model_view().sections@ == sections_in(s.package_view(), s.main_view()) && defaults_v(
                    s.model_view().styles,
                ) == defaults_in(s.package_view(), ubytes(s.main_view())) && block_views(s.bindings_view().blocks@).len()
                    == s.model_view().body@.len() && forall|i: int|
                    0 <= i < s.model_view().body@.len() ==> #[trigger] block_views(s.bindings_view().blocks@)[i]
                        == crate::bindings::block_binding_of(s.model_view().body@, i),
                Err(m) => !(exists|ps: Seq<PartView>, main: Seq<char>| import_ok(bytes@, ps, main)) && exists|e: OoxmlError|
                    import_error(bytes@, e) && load_message(e, m@),
            },
    {
        match import_docx_with_package(bytes) {
            Ok((model, package, main_part)) => {
                let bindings = build_bindings(&model);
                Ok(DocSession { source: to_vec(bytes), model, package, main_part, bindings })
            },
            Err(e) => {
                proof { lemma_import_failed(bytes@, e); }
                Err(e.to_string())
            },
        }
    }

    /// The parsed semantic model.
    pub fn model(&self) -> (r: &DocxDocument)
        ensures
            *r == self.model_view(),
    {
        &self.model
    }

    /// The provenance bindings built at load.
    pub fn bindings(&self) -> (r: &DocxBindings)
        ensures
            *r == self.bindings_view(),
    {
        &self.bindings
    }

    /// The lowering of the model (the IR the host turns into mutations).
    pub fn lowered(&self) -> (r: LoweredDoc)
        ensures
            lowers(self.model_view(), r),
    {
        lower(&self.model)
    }

    /// Number of top-level body blocks.
    pub fn block_count(&self) -> (n: usize)
        ensures
            n == self.model_view().body@.len(),
    {
        self.model.body.len()
    }

    /// Zero-edit save-back: the retained source, verbatim.
    pub fn save_verbatim(&self) -> (r: Vec<u8>)
        ensures
            r@ == self.source_view(),
    {
        to_vec(self.source.as_slice())
    }

    /// Edited save-back: patch the edits into a copy of the retained package
    /// (only the rewritten ranges of the main part change; every other part
    /// and byte is kept) and return the saved `.docx` bytes. Edits that reach
    /// nothing patchable are skipped. The session stays reusable.
    pub fn save_edited(&self, edits: &EditSet) -> (r: Result<Vec<u8>, String>)
        ensures
            r matches Ok(b) ==> exists|out: Seq<PartView>|
                saved_package(self.package_view(), self.main_view(), self.bindings_view(), *edits, out) && zip_archive(b@)
                    == Some(entries_of(out)),
            has_work(self.bindings_view(), *edits) && part_of(self.package_view(), self.main_view()) is None ==> (r
                matches Err(m) && m@ == "required part not found: "@ + self.main_view()),
            r is Err ==> (has_work(self.bindings_view(), *edits) && part_of(self.package_view(), self.main_view()) is None)
                || exists|out: Seq<PartView>|
                saved_package(self.package_view(), self.main_view(), self.bindings_view(), *edits, out) && !writable(out),
    {
        let mut package = self.package.copy();
        match apply_edits(&mut package, self.main_part.as_str(), &self.bindings, edits) {
            Ok(()) => {},
            Err(e) => {
                return Err(e.to_string());
            },
        }
        assert(saved_package(self.package@, self.main_part@, self.bindings, *edits, package@));
        match package.write() {
            Ok(b) => {
                assert(saved_package(self.package_view(), self.main_view(), self.bindings_view(), *edits, package@)
                    && zip_archive(b@) == Some(entries_of(package@)));
                assert(exists|out: Seq<PartView>|
                    saved_package(self.package_view(), self.main_view(), self.bindings_view(), *edits, out) && zip_archive(b@)
                        == Some(entries_of(out)));
                Ok(b)
            },
            Err(e) => {
                assert(!writable(package@));
                Err(e.to_string())
            },
        }
    }
}

impl DocSession {
    /// Edited save-back driven by the host's read-back of the story: overlay
    /// the read-back onto the import lowering, diff the two, and save the
    /// edits (see [`DocSession::save_edited`]).
    pub fn save_edited_from_content(&self, content: &StoryContentIn) -> (r: Result<Vec<u8>, String>)
        ensures
            exists|base: LoweredDoc, edits: EditSet|
                lowers(self.model_view(), base) && read_back_edits(base, *content, self.bindings_view(), edits) && (r matches Ok(
                    bytes,
                ) ==> exists|out: Seq<PartView>|
                    saved_package(self.package_view(), self.main_view(), self.bindings_view(), edits, out) && zip_archive(bytes@)
                        == Some(entries_of(out))) && (has_work(self.bindings_view(), edits) && part_of(self.package_view(), self.main_view())
                    is None ==> (r matches Err(m) && m@ == "required part not found: "@ + self.main_view())) && (r is Err ==> (has_work(
                    self.bindings_view(),
                    edits,
                ) && part_of(self.package_view(), self.main_view()) is None) || exists|out: Seq<PartView>|
                    saved_package(self.package_view(), self.main_view(), self.bindings_view(), edits, out) && !writable(out)),
    {
        let baseline = self.lowered();
        let edited = overlay_story_content(&baseline, content);
        let edits = diff(&baseline, &edited, &self.bindings);
        assert(blocks_v(edited).len() == blocks_v(baseline).len());
        assert(read_back_edits(baseline, *content, self.bindings, edits));
        let r = self.save_edited(&edits);
        assert(lowers(self.model_view(), baseline) && read_back_edits(baseline, *content, self.bindings_view(), edits) && (r matches Ok(
            bytes,
        ) ==> exists|out: Seq<PartView>|
            saved_package(self.package_view(), self.main_view(), self.bindings_view(), edits, out) && zip_archive(bytes@)
                == Some(entries_of(out))) && (has_work(self.bindings_view(), edits) && part_of(self.package_view(), self.main_view())
            is None ==> (r matches Err(m) && m@ == "required part not found: "@ + self.main_view())) && (r is Err ==> (has_work(
            self.bindings_view(),
            edits,
        ) && part_of(self.package_view(), self.main_view()) is None) || exists|out: Seq<PartView>|
            saved_package(self.package_view(), self.main_view(), self.bindings_view(), edits, out) && !writable(out)));
        r
    }
}

/// The message a failed load reports for the import error `e`.
pub open spec fn load_message(e: OoxmlError, m: Seq<char>) -> bool {
    match e {
        OoxmlError::Zip(_) => exists|d: Seq<char>| m == "not a valid OPC (zip) package: "@ + d,
        _ => m == message_of(e),
    }
}

/// A failed import means no package and main part read cleanly.
proof fn lemma_import_failed(bytes: Seq<u8>, e: OoxmlError)
    requires
        import_error(bytes, e),
    ensures
        !(exists|ps: Seq<PartView>, main: Seq<char>| import_ok(bytes, ps, main)),
{
    if exists|ps: Seq<PartView>, main: Seq<char>| import_ok(bytes, ps, main) {
        let (ps, main) = choose|ps: Seq<PartView>, main: Seq<char>| import_ok(bytes, ps, main);
        match e {
            OoxmlError::MissingPart(n) => {
                lemma_same_name(n@, main);
            },
            OoxmlError::NestingTooDeep { part, .. } => {
                lemma_same_name(part@, main);
            },
            OoxmlError::Xml { part, .. } => {
                lemma_same_name(part@, main);
            },
            _ => {},
        }
    }
}

/// Two names with the same UTF-8 bytes are the same name.
proof fn lemma_same_name(a: Seq<char>, b: Seq<char>)
    requires
        ubytes(a) == ubytes(b),
    ensures
        a == b,
{
    vstd::utf8::encode_utf8_decode_utf8(a);
    vstd::utf8::encode_utf8_decode_utf8(b);
}

} // verus!
