//! Decoder for the `pbzx` chunked container: a fixed signature, a global flag
//! word, and a run of length-prefixed chunks whose payloads may each hold an
//! embedded XZ stream.

pub mod container;
pub mod error;
pub mod payload;
pub mod source;
pub mod wire;

pub use container::{proces, PbzxEntry, PbzxFile};
pub use error::PbzxError;
pub use payload::{lzma_unpack_item_data_if_needed, CompressedPayloadUnrecoverable};
pub use source::{cmp_str, read_vec, ByteSource};
