//! Errors of slice decoding and mate resolution.
use vstd::prelude::*;

verus! {

/// Why a slice could not be assembled, decoded or resolved.
#[derive(Clone, Copy, Debug, PartialEq, Eq, Structural)]
pub enum DecodeError {
    /// The block list is shorter than the slice header requires.
    BlockBounds,
    /// The header block's bytes do not form a slice header.
    HeaderDecode,
    /// A column of a record could not be read from its block.
    FieldDecode,
    /// A record's distance to its next fragment leads outside the slice.
    MateIndexOutOfRange,
}

} // verus!
