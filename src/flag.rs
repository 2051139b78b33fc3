//! BAM alignment flags.
use vstd::prelude::*;

verus! {

/// The 16 bit flags of a BAM/SAM alignment record.
#[derive(Clone, Copy, Debug)]
pub struct Flag(u16);

/// Whether `mask` is set in the flag word `bits`.
pub open spec fn has_bits(bits: u16, mask: u16) -> bool {
    bits & mask != 0
}

impl View for Flag {
    type V = u16;

    closed spec fn view(&self) -> u16 {
        self.0
    }
}

impl Flag {
    pub fn new(flag: u16) -> (r: Flag)
        ensures
            r@ == flag,
    {
        Flag(flag)
    }

    pub fn inner(&self) -> (r: u16)
        ensures
            r == self@,
    {
        self.0
    }

    /// The template has more than one segment (0x1).
    pub fn is_paired(&self) -> (r: bool)
        ensures
            r == has_bits(self@, 0x01),
    {
        self.0 & 0x01 != 0
    }

    /// Each segment is properly aligned (0x2).
    pub fn is_proper_pair(&self) -> (r: bool)
        ensures
            r == has_bits(self@, 0x02),
    {
        self.0 & 0x02 != 0
    }

    /// The segment is unmapped (0x4).
    pub fn is_unmapped(&self) -> (r: bool)
        ensures
            r == has_bits(self@, 0x04),
    {
        self.0 & 0x04 != 0
    }

    /// The next segment in the template is unmapped (0x8).
    pub fn is_mate_unmapped(&self) -> (r: bool)
        ensures
            r == has_bits(self@, 0x08),
    {
        self.0 & 0x08 != 0
    }

    /// The sequence is reverse complemented (0x10).
    pub fn is_reverse(&self) -> (r: bool)
        ensures
            r == has_bits(self@, 0x10),
    {
        self.0 & 0x10 != 0
    }

    /// The sequence of the next segment is reverse complemented (0x20).
    pub fn is_mate_reverse(&self) -> (r: bool)
        ensures
            r == has_bits(self@, 0x20),
    {
        self.0 & 0x20 != 0
    }

    /// The first segment in the template (0x40).
    pub fn is_read_1(&self) -> (r: bool)
        ensures
            r == has_bits(self@, 0x40),
    {
        self.0 & 0x40 != 0
    }

    /// The last segment in the template (0x80).
    pub fn is_read_2(&self) -> (r: bool)
        ensures
            r == has_bits(self@, 0x80),
    {
        self.0 & 0x80 != 0
    }

    /// A secondary alignment (0x100).
    pub fn is_secondary(&self) -> (r: bool)
        ensures
            r == has_bits(self@, 0x0100),
    {
        self.0 & 0x0100 != 0
    }

    /// The read fails quality controls (0x200).
    pub fn is_qc_fail(&self) -> (r: bool)
        ensures
            r == has_bits(self@, 0x0200),
    {
        self.0 & 0x0200 != 0
    }

    /// A PCR or optical duplicate (0x400).
    pub fn is_dup(&self) -> (r: bool)
        ensures
            r == has_bits(self@, 0x0400),
    {
        self.0 & 0x0400 != 0
    }

    /// A supplementary alignment (0x800).
    pub fn is_supplementary(&self) -> (r: bool)
        ensures
            r == has_bits(self@, 0x0800),
    {
        self.0 & 0x0800 != 0
    }
}

} // verus!
