# paged_doc

A Verus-verified core for Microsoft Word (`.docx`) documents: it opens the OPC
package, imports WordprocessingML into a semantic model, lowers that model onto
native styled paragraphs, runs, tables and styles, and saves edits back by
splicing only the changed byte ranges of the main document part. A save with no
edits keeps every part as it was.

The library (`src/`) states its behaviour in `requires` / `ensures` contracts
over mathematical models (`Seq`, `Map`, views) and proves them with Verus. The
calls into `zip`, `quick-xml` and `base64` sit behind small trusted wrappers
whose contracts say what those crates' sources show.

## Layout

- `src/opc.rs` — the package: reading and writing zip entries, parts by name.
- `src/content_types.rs`, `src/rels.rs` — `[Content_Types].xml` and
  relationship parts, target resolution.
- `src/xml.rs` — the XML token stream and attributes (over `quick-xml`).
- `src/import.rs`, `src/model.rs` — the body and styles walks into the model.
- `src/lower.rs`, `src/ir.rs` — lowering to native styles, swatches and blocks.
- `src/bindings.rs` — provenance from lowered coordinates back to source
  ordinals.
- `src/diff.rs`, `src/overlay.rs`, `src/edit.rs` — edits between a baseline
  lowering and the host's read-back.
- `src/rpr.rs`, `src/splice.rs`, `src/export.rs` — rendering fragments,
  the patch pass over the main part, and edited save-back.
- `src/session.rs` — a loaded document: load, lower, save verbatim or edited.
- `src/fixtures.rs` — small packages built in memory.
- `tests/` — scenarios on concrete documents.
- `app/` — the host-facing layer: serde twins of the lowered types and JSON.
