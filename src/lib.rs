//! Protobuf schema normalisation: merging parsed schema descriptors by
//! package, rendering each package as canonical schema text, and
//! fingerprinting that text.
use vstd::prelude::*;

pub mod canonical;
pub mod descriptor;
pub mod fingerprint;
pub mod imports;
pub mod laws;
pub mod merge;
pub mod order;
pub mod text;
pub mod text_gen;

pub use merge::{merge_by_package, MergeError, MergeResult};
pub use text_gen::{descriptor_to_proto, TextGenerator, TextGeneratorOptions};

verus! {

/// Version of the canonical text format.
pub const TEXT_GENERATOR_VERSION: &'static str = "1.0.0";

} // verus!
