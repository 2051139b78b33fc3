//! The part of a container's compression header that record decoding reads: how each
//! column of a record is encoded.
use vstd::prelude::*;

verus! {

/// How the values of an integer column are stored.
#[derive(Clone, Copy, Debug, PartialEq, Eq, Structural)]
pub enum Encoding {
    /// ITF8 integers in the external block with this content id.
    External(i32),
    /// `len` bits of the core data block, read as an unsigned number, minus `offset`.
    Beta { offset: i32, len: u32 },
    /// Every value is this one, and nothing is read (a Huffman code of one symbol).
    Constant(i32),
}

/// How the values of a byte-array column are stored.
#[derive(Clone, Copy, Debug, PartialEq, Eq, Structural)]
pub enum ByteArrayEncoding {
    /// The bytes of the external block with this content id up to a stop byte, which is
    /// consumed and not part of the value.
    Stop { stop_byte: u8, block_content_id: i32 },
}

/// The encodings of the record columns, and the flags that decide which are read.
#[derive(Clone, Copy, Debug, PartialEq, Eq, Structural)]
pub struct CompressionHeader {
    /// Read names are stored for every record.
    pub read_names_included: bool,
    /// Alignment starts are stored as the difference to the previous record's.
    pub ap_delta: bool,
    pub bam_bit_flags: Encoding,
    pub cram_bit_flags: Encoding,
    pub reference_id: Encoding,
    pub read_lengths: Encoding,
    pub in_seq_positions: Encoding,
    pub read_groups: Encoding,
    pub read_names: ByteArrayEncoding,
    pub next_mate_bit_flags: Encoding,
    pub next_fragment_reference_sequence_id: Encoding,
    pub next_mate_alignment_start: Encoding,
    pub template_size: Encoding,
    pub distance_to_next_fragment: Encoding,
    pub mapping_qualities: Encoding,
}

} // verus!
