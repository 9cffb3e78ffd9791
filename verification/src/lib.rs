//! Reading and writing HDDM (Hierarchical Data Description Model) record
//! streams: XDR primitives, element framing, compression status tokens,
//! compressed record blocks, and the XML schema header that precedes them.
use vstd::prelude::*;

pub mod codec;
pub mod codegen;
pub mod compression;
pub mod error;
pub mod file;
pub mod format;
pub mod header;
pub mod header_parse;
pub mod message;
pub mod model_match;
pub mod plan;
pub mod read;
pub mod records;
pub mod write;
pub mod xml;
pub mod xdr;

pub use error::{FormatError, HddmError, HddmResult, IoFailure};
pub use file::{HddmFile, HddmFileReader, HddmFileWriter, HddmSchema, WriteMode};
pub use header::HddmModel;
pub use model_match::validate_models;
pub use plan::{build_model_plan, ChildPlan, ElementPlan, ModelPlan};
pub use read::{ElementReader, HddmPrimitiveRead, HddmRead, HddmReadPlanned, HddmReader};
pub use write::{HddmPrimitiveWrite, HddmWrite, HddmWriter};

verus! {

/// Status bits of a stream without compression.
pub const K_NO_COMPRESSION: i32 = 0x00;

/// Status bit of a stream of zlib blocks.
pub const K_Z_COMPRESSION: i32 = 0x10;

/// Status bit of a stream of bzip2 blocks.
pub const K_BZ2_COMPRESSION: i32 = 0x20;

/// How records are stored after a status token.
#[derive(Debug, Clone, Copy, PartialEq, Eq, Structural)]
pub enum Compression {
    Uncompressed,
    Zlib,
    Bzip2,
}

} // verus!
