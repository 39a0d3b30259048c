//! paged_doc: a verified core for reading, lowering and patching WordprocessingML packages.

pub mod bindings;
pub mod bytes;
pub mod content_types;
pub mod diff;
pub mod edit;
pub mod error;
pub mod fixtures;
pub mod export;
pub mod import;
pub mod ir;
pub mod lower;
pub mod model;
pub mod opc;
pub mod overlay;
pub mod rels;
pub mod round_trip;
pub mod rpr;
pub mod session;
pub mod splice;
pub mod text;
pub mod values;
pub mod xml;
