//! The decoded CRAM alignment record.
use vstd::prelude::*;

use crate::flag::Flag;

verus! {

/// The CRAM-specific bit flags of a record.
#[derive(Clone, Copy, Debug, PartialEq, Eq, Structural)]
pub struct Flags(u8);

impl View for Flags {
    type V = u8;

    closed spec fn view(&self) -> u8 {
        self.0
    }
}

/// The record's mate is a later record of the same slice.
pub open spec fn has_mate_downstream_bits(cram_bit_flags: i32) -> bool {
    cram_bit_flags & 0x04 != 0
}

/// The mate data of the record is stored with it instead of being resolved.
pub open spec fn is_detached_bits(cram_bit_flags: i32) -> bool {
    cram_bit_flags & 0x02 != 0
}

impl Flags {
    pub fn new(bits: u8) -> (r: Flags)
        ensures
            r@ == bits,
    {
        Flags(bits)
    }

    /// Quality scores are stored as an array (0x1).
    pub fn are_quality_scores_stored_as_array(&self) -> (r: bool)
        ensures
            r == (self@ & 0x01 != 0),
    {
        self.0 & 0x01 != 0
    }

    /// The mate data is stored with the record (0x2).
    pub fn is_detached(&self) -> (r: bool)
        ensures
            r == (self@ & 0x02 != 0),
    {
        self.0 & 0x02 != 0
    }

    /// The mate is a later record of the same slice (0x4).
    pub fn has_mate_downstream(&self) -> (r: bool)
        ensures
            r == (self@ & 0x04 != 0),
    {
        self.0 & 0x04 != 0
    }

    /// The sequence is unknown (0x8).
    pub fn decode_sequence_as_unknown(&self) -> (r: bool)
        ensures
            r == (self@ & 0x08 != 0),
    {
        self.0 & 0x08 != 0
    }
}

/// An auxiliary field of a record, kept as its raw key, type and value bytes.
#[derive(Clone, Debug)]
pub struct Tag {
    pub key: [u8; 2],
    pub ty: u8,
    pub value: Vec<u8>,
}

/// A read feature (an edit against the reference), kept as its code, position and raw
/// payload.
#[derive(Clone, Debug)]
pub struct Feature {
    pub code: u8,
    pub position: i32,
    pub data: Vec<u8>,
}

/// A CRAM alignment record.
#[derive(Debug)]
pub struct Record {
    pub id: i64,
    pub bam_bit_flags: i32,
    pub cram_bit_flags: i32,
    pub reference_id: i32,
    pub read_length: i32,
    pub alignment_start: i32,
    pub read_group: i32,
    pub read_name: Vec<u8>,
    pub next_mate_bit_flags: i32,
    pub next_fragment_reference_sequence_id: i32,
    pub next_mate_alignment_start: i32,
    pub template_size: i32,
    pub distance_to_next_fragment: i32,
    pub tags: Vec<Tag>,
    pub bases: Vec<u8>,
    pub features: Vec<Feature>,
    pub mapping_quality: i32,
    pub quality_scores: Vec<u8>,
}

/// The value of a [`Record`], with its byte buffers and lists as sequences.
pub struct RecordView {
    pub id: i64,
    pub bam_bit_flags: i32,
    pub cram_bit_flags: i32,
    pub reference_id: i32,
    pub read_length: i32,
    pub alignment_start: i32,
    pub read_group: i32,
    pub read_name: Seq<u8>,
    pub next_mate_bit_flags: i32,
    pub next_fragment_reference_sequence_id: i32,
    pub next_mate_alignment_start: i32,
    pub template_size: i32,
    pub distance_to_next_fragment: i32,
    pub tags: Seq<Tag>,
    pub bases: Seq<u8>,
    pub features: Seq<Feature>,
    pub mapping_quality: i32,
    pub quality_scores: Seq<u8>,
}

impl View for Record {
    type V = RecordView;

    open spec fn view(&self) -> RecordView {
        RecordView {
            id: self.id,
            bam_bit_flags: self.bam_bit_flags,
            cram_bit_flags: self.cram_bit_flags,
            reference_id: self.reference_id,
            read_length: self.read_length,
            alignment_start: self.alignment_start,
            read_group: self.read_group,
            read_name: self.read_name@,
            next_mate_bit_flags: self.next_mate_bit_flags,
            next_fragment_reference_sequence_id: self.next_fragment_reference_sequence_id,
            next_mate_alignment_start: self.next_mate_alignment_start,
            template_size: self.template_size,
            distance_to_next_fragment: self.distance_to_next_fragment,
            tags: self.tags@,
            bases: self.bases@,
            features: self.features@,
            mapping_quality: self.mapping_quality,
            quality_scores: self.quality_scores@,
        }
    }
}

/// A record with every field zero or empty.
pub open spec fn empty_record_view() -> RecordView {
    RecordView {
        id: 0,
        bam_bit_flags: 0,
        cram_bit_flags: 0,
        reference_id: 0,
        read_length: 0,
        alignment_start: 0,
        read_group: 0,
        read_name: Seq::empty(),
        next_mate_bit_flags: 0,
        next_fragment_reference_sequence_id: 0,
        next_mate_alignment_start: 0,
        template_size: 0,
        distance_to_next_fragment: 0,
        tags: Seq::empty(),
        bases: Seq::empty(),
        features: Seq::empty(),
        mapping_quality: 0,
        quality_scores: Seq::empty(),
    }
}

impl Default for Record {
    fn default() -> (r: Record)
        ensures
            r@ == empty_record_view(),
    {
        Record {
            id: 0,
            bam_bit_flags: 0,
            cram_bit_flags: 0,
            reference_id: 0,
            read_length: 0,
            alignment_start: 0,
            read_group: 0,
            read_name: Vec::new(),
            next_mate_bit_flags: 0,
            next_fragment_reference_sequence_id: 0,
            next_mate_alignment_start: 0,
            template_size: 0,
            distance_to_next_fragment: 0,
            tags: Vec::new(),
            bases: Vec::new(),
            features: Vec::new(),
            mapping_quality: 0,
            quality_scores: Vec::new(),
        }
    }
}

impl Record {
    /// The BAM flags, of which only the low 16 bits are meaningful.
    pub fn bam_bit_flags(&self) -> (r: Flag)
        ensures
            r@ == self.bam_bit_flags as u16,
    {
        Flag::new(self.bam_bit_flags as u16)
    }

    /// The CRAM flags, of which only the low 4 bits are meaningful.
    pub fn cram_bit_flags(&self) -> (r: Flags)
        ensures
            r@ == self.cram_bit_flags as u8,
    {
        Flags::new(self.cram_bit_flags as u8)
    }

    pub fn read_length(&self) -> (r: i32)
        ensures
            r == self.read_length,
    {
        self.read_length
    }

    pub fn alignment_start(&self) -> (r: i32)
        ensures
            r == self.alignment_start,
    {
        self.alignment_start
    }

    pub fn add_tag(&mut self, tag: Tag)
        ensures
            final(self)@ == (RecordView { tags: old(self)@.tags.push(tag), ..old(self)@ }),
    {
        self.tags.push(tag);
    }

    pub fn features(&self) -> (r: &[Feature])
        ensures
            r@ == self.features@,
    {
        self.features.as_slice()
    }

    pub fn add_feature(&mut self, feature: Feature)
        ensures
            final(self)@ == (RecordView { features: old(self)@.features.push(feature), ..old(self)@ }),
    {
        self.features.push(feature);
    }
}

} // verus!
