//! Errors from reading / writing an OPC package. A malformed package produces
//! an `Err`, never a panic.

use vstd::prelude::*;
use crate::text::{append, owned};

verus! {

/// The `zip` crate's error type, carried through unchanged.
#[verifier::external_type_specification]
#[verifier::external_body]
pub struct ExZipError(zip::result::ZipError);

/// Errors from reading or writing an OPC package.
#[derive(Debug)]
pub enum OoxmlError {
    /// The container is not a readable ZIP / OPC package.
    Zip(zip::result::ZipError),
    /// A legacy binary Word document (`.doc`, CFB/OLE), recognized by its magic
    /// before the zip reader runs (some embed an OPC package further in).
    LegacyBinaryDoc,
    /// Rich Text Format (often saved with a `.doc` extension), recognized by
    /// its magic before the zip reader runs.
    RichTextFormat,
    /// A required part (by convention or by `_rels` resolution) was absent.
    MissingPart(String),
    /// XML in a part we parse was malformed.
    Xml { part: String, detail: String },
    /// A part nests elements deeper than the reader accepts.
    NestingTooDeep { part: String, depth: usize, limit: usize },
    /// The package violates a structural OPC guarantee not covered above.
    Structure(String),
}

impl OoxmlError {
    /// Build an [`OoxmlError::Xml`] tagged with the part name being read.
    pub fn xml(part: String, detail: String) -> (e: Self)
        ensures
            e == (OoxmlError::Xml { part, detail }),
    {
        OoxmlError::Xml { part, detail }
    }

    /// The error's message (the text `Display` would show): a fixed sentence
    /// per kind, followed by the part name or detail where the kind carries one.
    pub fn to_string(&self) -> (s: String)
        ensures
            match self {
                OoxmlError::Zip(_) => exists|d: Seq<char>| s@ == "not a valid OPC (zip) package: "@ + d,
                _ => s@ == message_of(*self),
            },
    {
        match self {
            OoxmlError::Zip(e) => {
                let mut out = owned("not a valid OPC (zip) package: ");
                let d = zip_error_text(e);
                append(&mut out, d.as_str());
                out
            },
            OoxmlError::LegacyBinaryDoc => owned(
                "legacy binary Word document (.doc, CFB/OLE) — only OOXML .docx/.dotx is supported; re-save as .docx",
            ),
            OoxmlError::RichTextFormat => owned(
                "Rich Text Format document — only OOXML .docx/.dotx is supported; re-save as .docx",
            ),
            OoxmlError::MissingPart(p) => {
                let mut out = owned("required part not found: ");
                append(&mut out, p.as_str());
                out
            },
            OoxmlError::Xml { part, detail } => {
                let mut out = owned("malformed xml in ");
                append(&mut out, part.as_str());
                append(&mut out, ": ");
                append(&mut out, detail.as_str());
                out
            },
            OoxmlError::NestingTooDeep { part, .. } => {
                let mut out = owned("element nesting too deep in ");
                append(&mut out, part.as_str());
                out
            },
            OoxmlError::Structure(d) => {
                let mut out = owned("opc structure error: ");
                append(&mut out, d.as_str());
                out
            },
        }
    }
}

/// The message of an error that carries no outside value.
pub open spec fn message_of(e: OoxmlError) -> Seq<char> {
    match e {
        OoxmlError::Zip(_) => "not a valid OPC (zip) package: "@,
        OoxmlError::LegacyBinaryDoc =>
            "legacy binary Word document (.doc, CFB/OLE) — only OOXML .docx/.dotx is supported; re-save as .docx"@,
        OoxmlError::RichTextFormat =>
            "Rich Text Format document — only OOXML .docx/.dotx is supported; re-save as .docx"@,
        OoxmlError::MissingPart(p) => "required part not found: "@ + p@,
        OoxmlError::Xml { part, detail } => "malformed xml in "@ + part@ + ": "@ + detail@,
        OoxmlError::NestingTooDeep { part, .. } => "element nesting too deep in "@ + part@,
        OoxmlError::Structure(d) => "opc structure error: "@ + d@,
    }
}

/// Calls the `Display` impl of `zip::result::ZipError`. Nothing is promised of
/// the text.
#[verifier::external_body]
fn zip_error_text(e: &zip::result::ZipError) -> (s: String) {
    e.to_string()
}

} // verus!
