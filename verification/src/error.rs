//! The fatal outcomes of a decode.

use vstd::prelude::*;

verus! {

/// Why a decode was abandoned. No partial container accompanies any of these.
#[derive(Debug, Clone, Copy, PartialEq, Eq, Structural)]
pub enum PbzxError {
    /// The stream does not open with the container signature.
    MagicMismatch,
    /// A chunk declares a payload that does not fit the byte budget.
    TruncatedOrCorruptChunk {
        /// Position of the chunk in the stream, counted from zero.
        index: usize,
        /// The payload length the chunk declares.
        declared: u64,
        /// Bytes the budget still held in front of the chunk's header.
        remaining: u64,
    },
    /// The source ran out before a requested read was complete.
    SourceReadFailure,
}

} // verus!
