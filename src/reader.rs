//! The record reader: decodes the columns of one record after another from the core
//! data block and the external blocks, as the compression header directs.
use vstd::prelude::*;

use crate::bit_reader::{bits_at, BitReader};
use crate::block::{block_views, Block, BlockView};
use crate::compression_header::{ByteArrayEncoding, CompressionHeader, Encoding};
use crate::error::DecodeError;
use crate::header::ReferenceSequenceId;
use crate::itf8::{itf8_at, read_itf8};
use crate::record::{
    empty_record_view, has_mate_downstream_bits, is_detached_bits, Record, RecordView,
};

verus! {

/// What stays fixed while the records of a slice are read.
pub struct ReadContext {
    pub compression_header: CompressionHeader,
    pub core_data: Seq<u8>,
    pub blocks: Seq<BlockView>,
    pub reference_sequence_id: ReferenceSequenceId,
}

/// Where reading stands: the next bit of the core data block, the next byte of each
/// external block, and the alignment start of the previous record.
pub struct ReadState {
    pub core_position: int,
    pub external_positions: Seq<int>,
    pub previous_alignment_start: i64,
}

/// The index of the last block with content id `id` among the first `n` blocks.
pub open spec fn block_index(bs: Seq<BlockView>, id: i32, n: int) -> Option<int>
    decreases n,
{
    if n <= 0 {
        None
    } else if bs[n - 1].content_id == id {
        Some(n - 1)
    } else {
        block_index(bs, id, n - 1)
    }
}

/// The first index from `pos` at which `data` holds `stop`.
pub open spec fn stop_at(data: Seq<u8>, pos: int, stop: u8) -> Option<int>
    decreases data.len() - pos,
{
    if pos < 0 || pos >= data.len() {
        None
    } else if data[pos] == stop {
        Some(pos)
    } else {
        stop_at(data, pos + 1, stop)
    }
}

/// Reads one integer of a column.
pub open spec fn decode_int(cx: ReadContext, enc: Encoding, st: ReadState) -> Option<(i32, ReadState)> {
    match enc {
        Encoding::External(id) => match block_index(cx.blocks, id, cx.blocks.len() as int) {
            Some(b) => match itf8_at(cx.blocks[b].data, st.external_positions[b]) {
                Some((v, next)) => Some(
                    (
                        v,
                        ReadState {
                            external_positions: st.external_positions.update(b, next),
                            ..st
                        },
                    ),
                ),
                None => None,
            },
            None => None,
        },
        Encoding::Beta { offset, len } => if len <= 32 && st.core_position + len <= cx.core_data.len()
            * 8 {
            let v = bits_at(cx.core_data, st.core_position, len as nat) - offset;
            if i32::MIN <= v <= i32::MAX {
                Some((v as i32, ReadState { core_position: st.core_position + len, ..st }))
            } else {
                None
            }
        } else {
            None
        },
        Encoding::Constant(v) => Some((v, st)),
    }
}

/// Reads one byte array of a column.
pub open spec fn decode_bytes(cx: ReadContext, enc: ByteArrayEncoding, st: ReadState) -> Option<
    (Seq<u8>, ReadState),
> {
    match enc {
        ByteArrayEncoding::Stop { stop_byte, block_content_id } => match block_index(
            cx.blocks,
            block_content_id,
            cx.blocks.len() as int,
        ) {
            Some(b) => {
                let data = cx.blocks[b].data;
                let pos = st.external_positions[b];
                match stop_at(data, pos, stop_byte) {
                    Some(q) => Some(
                        (
                            data.subrange(pos, q),
                            ReadState {
                                external_positions: st.external_positions.update(b, q + 1),
                                ..st
                            },
                        ),
                    ),
                    None => None,
                }
            },
            None => None,
        },
    }
}

/// The BAM and CRAM flags.
pub open spec fn read_flags(cx: ReadContext, r: RecordView, st: ReadState) -> Option<
    (RecordView, ReadState),
> {
    match decode_int(cx, cx.compression_header.bam_bit_flags, st) {
        Some((bf, st1)) => match decode_int(cx, cx.compression_header.cram_bit_flags, st1) {
            Some((cf, st2)) => Some(
                (RecordView { bam_bit_flags: bf, cram_bit_flags: cf, ..r }, st2),
            ),
            None => None,
        },
        None => None,
    }
}

/// The reference id: read when the slice spans several references, else the slice's.
pub open spec fn read_reference_id(cx: ReadContext, st: ReadState) -> Option<(i32, ReadState)> {
    match cx.reference_sequence_id {
        ReferenceSequenceId::Multiple => decode_int(cx, cx.compression_header.reference_id, st),
        ReferenceSequenceId::Id(id) => Some((id, st)),
        ReferenceSequenceId::Unmapped => Some((-1i32, st)),
    }
}

/// The alignment start from the stored value `ap`, which may be relative to the
/// previous record's.
pub open spec fn alignment_start_of(cx: ReadContext, ap: i32, st: ReadState) -> Option<(i32, ReadState)> {
    let start: int = if cx.compression_header.ap_delta {
        st.previous_alignment_start + ap
    } else {
        ap as int
    };
    if i32::MIN <= start <= i32::MAX {
        Some((start as i32, ReadState { previous_alignment_start: start as i64, ..st }))
    } else {
        None
    }
}

/// The reference id, read length, alignment start and read group.
pub open spec fn read_positions(cx: ReadContext, r: RecordView, st: ReadState) -> Option<
    (RecordView, ReadState),
> {
    match read_reference_id(cx, st) {
        Some((ri, st1)) => match decode_int(cx, cx.compression_header.read_lengths, st1) {
            Some((rl, st2)) => match decode_int(cx, cx.compression_header.in_seq_positions, st2) {
                Some((ap, st3)) => match alignment_start_of(cx, ap, st3) {
                    Some((start, st4)) => match decode_int(
                        cx,
                        cx.compression_header.read_groups,
                        st4,
                    ) {
                        Some((rg, st5)) => Some(
                            (
                                RecordView {
                                    reference_id: ri,
                                    read_length: rl,
                                    alignment_start: start,
                                    read_group: rg,
                                    ..r
                                },
                                st5,
                            ),
                        ),
                        None => None,
                    },
                    None => None,
                },
                None => None,
            },
            None => None,
        },
        None => None,
    }
}

/// The read name, when names are stored.
pub open spec fn read_name(cx: ReadContext, r: RecordView, st: ReadState) -> Option<
    (RecordView, ReadState),
> {
    if cx.compression_header.read_names_included {
        match decode_bytes(cx, cx.compression_header.read_names, st) {
            Some((name, st1)) => Some((RecordView { read_name: name, ..r }, st1)),
            None => None,
        }
    } else {
        Some((r, st))
    }
}

/// The mate data of a detached record, or the distance to the next fragment of a
/// record whose mate is downstream.
pub open spec fn read_mate_data(cx: ReadContext, r: RecordView, st: ReadState) -> Option<
    (RecordView, ReadState),
> {
    let ch = cx.compression_header;
    if is_detached_bits(r.cram_bit_flags) {
        match decode_int(cx, ch.next_mate_bit_flags, st) {
            Some((mf, st1)) => match decode_int(cx, ch.next_fragment_reference_sequence_id, st1) {
                Some((ns, st2)) => match decode_int(cx, ch.next_mate_alignment_start, st2) {
                    Some((np, st3)) => match decode_int(cx, ch.template_size, st3) {
                        Some((ts, st4)) => Some(
                            (
                                RecordView {
                                    next_mate_bit_flags: mf,
                                    next_fragment_reference_sequence_id: ns,
                                    next_mate_alignment_start: np,
                                    template_size: ts,
                                    ..r
                                },
                                st4,
                            ),
                        ),
                        None => None,
                    },
                    None => None,
                },
                None => None,
            },
            None => None,
        }
    } else if has_mate_downstream_bits(r.cram_bit_flags) {
        match decode_int(cx, ch.distance_to_next_fragment, st) {
            Some((nf, st1)) => Some((RecordView { distance_to_next_fragment: nf, ..r }, st1)),
            None => None,
        }
    } else {
        Some((r, st))
    }
}

/// The mapping quality of a mapped record.
pub open spec fn read_mapping_quality(cx: ReadContext, r: RecordView, st: ReadState) -> Option<
    (RecordView, ReadState),
> {
    if r.bam_bit_flags & 0x04 == 0 {
        match decode_int(cx, cx.compression_header.mapping_qualities, st) {
            Some((mq, st1)) => Some((RecordView { mapping_quality: mq, ..r }, st1)),
            None => None,
        }
    } else {
        Some((r, st))
    }
}

/// The columns of a record read at `st` into `r0`, with the state after them.
#[verifier::opaque]
pub open spec fn read_record(cx: ReadContext, r0: RecordView, st: ReadState) -> Option<
    (RecordView, ReadState),
> {
    match read_flags(cx, r0, st) {
        Some((r1, st1)) => match read_positions(cx, r1, st1) {
            Some((r2, st2)) => match read_name(cx, r2, st2) {
                Some((r3, st3)) => match read_mate_data(cx, r3, st3) {
                    Some((r4, st4)) => read_mapping_quality(cx, r4, st4),
                    None => None,
                },
                None => None,
            },
            None => None,
        },
        None => None,
    }
}

/// Records `i .. n` of a slice whose first record has id `counter`, read from `st`.
pub open spec fn read_records(cx: ReadContext, counter: int, i: nat, n: nat, st: ReadState) -> Option<
    Seq<RecordView>,
>
    decreases n - i,
{
    if i >= n {
        Some(Seq::empty())
    } else {
        match read_record(cx, RecordView { id: (counter + i) as i64, ..empty_record_view() }, st) {
            Some((r, st1)) => match read_records(cx, counter, i + 1, n, st1) {
                Some(rest) => Some(seq![r] + rest),
                None => None,
            },
            None => None,
        }
    }
}

/// The state before the first record: every block read from its start, and the
/// slice's alignment start (0 for none) as the previous alignment start.
pub open spec fn initial_state(n_blocks: nat, alignment_start: i64) -> ReadState {
    ReadState {
        core_position: 0,
        external_positions: Seq::new(n_blocks, |i: int| 0),
        previous_alignment_start: alignment_start,
    }
}

pub open spec fn positions_view(ps: Seq<usize>) -> Seq<int> {
    ps.map_values(|p: usize| p as int)
}

/// Reads records column by column.
pub struct RecordReader<'a> {
    compression_header: CompressionHeader,
    core: BitReader<'a>,
    blocks: &'a [Block],
    external_positions: Vec<usize>,
    reference_sequence_id: ReferenceSequenceId,
    previous_alignment_start: i64,
}

impl<'a> RecordReader<'a> {
    pub closed spec fn context(&self) -> ReadContext {
        ReadContext {
            compression_header: self.compression_header,
            core_data: self.core@.data,
            blocks: block_views(self.blocks@),
            reference_sequence_id: self.reference_sequence_id,
        }
    }

    pub closed spec fn state(&self) -> ReadState {
        ReadState {
            core_position: self.core@.position,
            external_positions: positions_view(self.external_positions@),
            previous_alignment_start: self.previous_alignment_start,
        }
    }

    pub closed spec fn well_formed(&self) -> bool {
        &&& self.core.well_formed()
        &&& self.external_positions@.len() == self.blocks@.len()
        &&& forall|b: int|
            0 <= b < self.blocks@.len() ==> #[trigger] self.external_positions@[b]
                <= self.blocks@[b]@.data.len()
    }

    pub fn new(
        compression_header: &CompressionHeader,
        core_data: &'a [u8],
        blocks: &'a [Block],
        reference_sequence_id: ReferenceSequenceId,
        alignment_start: i64,
    ) -> (r: RecordReader<'a>)
        ensures
            r.well_formed(),
            r.context() == (ReadContext {
                compression_header: *compression_header,
                core_data: core_data@,
                blocks: block_views(blocks@),
                reference_sequence_id,
            }),
            r.state() == initial_state(blocks@.len(), alignment_start),
    {
        let mut external_positions: Vec<usize> = Vec::new();
        let mut i: usize = 0;
        while i < blocks.len()
            invariant
                i <= blocks@.len(),
                external_positions@.len() == i,
                forall|k: int| 0 <= k < i ==> external_positions@[k] == 0,
            decreases blocks@.len() - i,
        {
            external_positions.push(0);
            i = i + 1;
        }
        let r = RecordReader {
            compression_header: *compression_header,
            core: BitReader::new(core_data),
            blocks,
            external_positions,
            reference_sequence_id,
            previous_alignment_start: alignment_start,
        };
        proof {
            assert(r.state().external_positions =~= initial_state(
                blocks@.len(),
                alignment_start,
            ).external_positions);
        }
        r
    }

    fn find_block(&self, id: i32) -> (r: Option<usize>)
        ensures
            match r {
                Some(b) => block_index(self.context().blocks, id, self.blocks@.len() as int) == Some(
                    b as int,
                ) && b < self.blocks@.len(),
                None => block_index(self.context().blocks, id, self.blocks@.len() as int) is None,
            },
    {
        let ghost bs = self.context().blocks;
        let mut n: usize = self.blocks.len();
        while n > 0
            invariant
                n <= self.blocks@.len(),
                bs == block_views(self.blocks@),
                bs == self.context().blocks,
                block_index(bs, id, self.blocks@.len() as int) == block_index(bs, id, n as int),
            decreases n,
        {
            if self.blocks[n - 1].content_id() == id {
                return Some(n - 1);
            }
            n = n - 1;
        }
        None
    }

    /// Reads one integer of a column.
    fn read_int(&mut self, enc: Encoding) -> (r: Result<i32, DecodeError>)
        requires
            old(self).well_formed(),
        ensures
            final(self).well_formed(),
            final(self).context() == old(self).context(),
            match decode_int(old(self).context(), enc, old(self).state()) {
                Some((v, st)) => r == Ok::<i32, DecodeError>(v) && final(self).state() == st,
                None => r == Err::<i32, DecodeError>(DecodeError::FieldDecode),
            },
    {
        match enc {
            Encoding::External(id) => {
                let b = match self.find_block(id) {
                    Some(b) => b,
                    None => {
                        return Err(DecodeError::FieldDecode);
                    },
                };
                let pos = self.external_positions[b];
                proof {
                    assert(self.context().blocks[b as int] == self.blocks@[b as int]@);
                    assert(self.state().external_positions[b as int] == pos as int);
                }
                match read_itf8(self.blocks[b].decompressed_data(), pos) {
                    Some((v, next)) => {
                        self.external_positions.set(b, next);
                        proof {
                            assert(self.state().external_positions =~= old(
                                self,
                            ).state().external_positions.update(b as int, next as int));
                        }
                        Ok(v)
                    },
                    None => Err(DecodeError::FieldDecode),
                }
            },
            Encoding::Beta { offset, len } => {
                if len > 32 {
                    return Err(DecodeError::FieldDecode);
                }
                match self.core.read_bits(len) {
                    Some(bits) => {
                        let v: i64 = bits as i64 - offset as i64;
                        if v < i32::MIN as i64 || v > i32::MAX as i64 {
                            return Err(DecodeError::FieldDecode);
                        }
                        Ok(v as i32)
                    },
                    None => Err(DecodeError::FieldDecode),
                }
            },
            Encoding::Constant(v) => Ok(v),
        }
    }

    /// Reads one byte array of a column.
    fn read_bytes(&mut self, enc: ByteArrayEncoding) -> (r: Result<Vec<u8>, DecodeError>)
        requires
            old(self).well_formed(),
        ensures
            final(self).well_formed(),
            final(self).context() == old(self).context(),
            match decode_bytes(old(self).context(), enc, old(self).state()) {
                Some((v, st)) => r is Ok && r->Ok_0@ == v && final(self).state() == st,
                None => r == Err::<Vec<u8>, DecodeError>(DecodeError::FieldDecode),
            },
    {
        match enc {
            ByteArrayEncoding::Stop { stop_byte, block_content_id } => {
                let b = match self.find_block(block_content_id) {
                    Some(b) => b,
                    None => {
                        return Err(DecodeError::FieldDecode);
                    },
                };
                let start = self.external_positions[b];
                let data = self.blocks[b].decompressed_data();
                let ghost d = data@;
                proof {
                    assert(self.context().blocks[b as int] == self.blocks@[b as int]@);
                    assert(self.state().external_positions[b as int] == start as int);
                }
                let mut out: Vec<u8> = Vec::new();
                let mut q: usize = start;
                while q < data.len() && data[q] != stop_byte
                    invariant
                        d == data@,
                        start <= q <= d.len(),
                        stop_at(d, start as int, stop_byte) == stop_at(d, q as int, stop_byte),
                        out@ == d.subrange(start as int, q as int),
                    decreases d.len() - q,
                {
                    out.push(data[q]);
                    q = q + 1;
                    proof {
                        assert(out@ =~= d.subrange(start as int, q as int));
                    }
                }
                if q >= data.len() {
                    return Err(DecodeError::FieldDecode);
                }
                self.external_positions.set(b, q + 1);
                proof {
                    assert(self.state().external_positions =~= old(
                        self,
                    ).state().external_positions.update(b as int, q + 1));
                }
                Ok(out)
            },
        }
    }

    fn read_flags_into(&mut self, record: &mut Record) -> (r: Result<(), DecodeError>)
        requires
            old(self).well_formed(),
        ensures
            final(self).well_formed(),
            final(self).context() == old(self).context(),
            match read_flags(old(self).context(), old(record)@, old(self).state()) {
                Some((v, st)) => r is Ok && final(record)@ == v && final(self).state() == st,
                None => r == Err::<(), DecodeError>(DecodeError::FieldDecode),
            },
    {
        let bf = self.read_int(self.compression_header.bam_bit_flags)?;
        let cf = self.read_int(self.compression_header.cram_bit_flags)?;
        record.bam_bit_flags = bf;
        record.cram_bit_flags = cf;
        Ok(())
    }

    fn read_positions_into(&mut self, record: &mut Record) -> (r: Result<(), DecodeError>)
        requires
            old(self).well_formed(),
        ensures
            final(self).well_formed(),
            final(self).context() == old(self).context(),
            match read_positions(old(self).context(), old(record)@, old(self).state()) {
                Some((v, st)) => r is Ok && final(record)@ == v && final(self).state() == st,
                None => r == Err::<(), DecodeError>(DecodeError::FieldDecode),
            },
    {
        let ri = match self.reference_sequence_id {
            ReferenceSequenceId::Multiple => self.read_int(self.compression_header.reference_id)?,
            ReferenceSequenceId::Id(id) => id,
            ReferenceSequenceId::Unmapped => -1,
        };
        let rl = self.read_int(self.compression_header.read_lengths)?;
        let ap = self.read_int(self.compression_header.in_seq_positions)?;
        let start: i64 = if self.compression_header.ap_delta {
            if (ap >= 0 && self.previous_alignment_start > i64::MAX - ap as i64) || (ap < 0
                && self.previous_alignment_start < i64::MIN - ap as i64) {
                return Err(DecodeError::FieldDecode);
            }
            self.previous_alignment_start + ap as i64
        } else {
            ap as i64
        };
        if start < i32::MIN as i64 || start > i32::MAX as i64 {
            return Err(DecodeError::FieldDecode);
        }
        self.previous_alignment_start = start;
        let rg = self.read_int(self.compression_header.read_groups)?;
        record.reference_id = ri;
        record.read_length = rl;
        record.alignment_start = start as i32;
        record.read_group = rg;
        Ok(())
    }

    fn read_name_into(&mut self, record: &mut Record) -> (r: Result<(), DecodeError>)
        requires
            old(self).well_formed(),
        ensures
            final(self).well_formed(),
            final(self).context() == old(self).context(),
            match read_name(old(self).context(), old(record)@, old(self).state()) {
                Some((v, st)) => r is Ok && final(record)@ == v && final(self).state() == st,
                None => r == Err::<(), DecodeError>(DecodeError::FieldDecode),
            },
    {
        if self.compression_header.read_names_included {
            let name = self.read_bytes(self.compression_header.read_names)?;
            record.read_name = name;
        }
        Ok(())
    }

    fn read_mate_data_into(&mut self, record: &mut Record) -> (r: Result<(), DecodeError>)
        requires
            old(self).well_formed(),
        ensures
            final(self).well_formed(),
            final(self).context() == old(self).context(),
            match read_mate_data(old(self).context(), old(record)@, old(self).state()) {
                Some((v, st)) => r is Ok && final(record)@ == v && final(self).state() == st,
                None => r == Err::<(), DecodeError>(DecodeError::FieldDecode),
            },
    {
        if record.cram_bit_flags & 0x02 != 0 {
            let mf = self.read_int(self.compression_header.next_mate_bit_flags)?;
            let ns = self.read_int(self.compression_header.next_fragment_reference_sequence_id)?;
            let np = self.read_int(self.compression_header.next_mate_alignment_start)?;
            let ts = self.read_int(self.compression_header.template_size)?;
            record.next_mate_bit_flags = mf;
            record.next_fragment_reference_sequence_id = ns;
            record.next_mate_alignment_start = np;
            record.template_size = ts;
        } else if record.cram_bit_flags & 0x04 != 0 {
            let nf = self.read_int(self.compression_header.distance_to_next_fragment)?;
            record.distance_to_next_fragment = nf;
        }
        Ok(())
    }

    fn read_mapping_quality_into(&mut self, record: &mut Record) -> (r: Result<(), DecodeError>)
        requires
            old(self).well_formed(),
        ensures
            final(self).well_formed(),
            final(self).context() == old(self).context(),
            match read_mapping_quality(old(self).context(), old(record)@, old(self).state()) {
                Some((v, st)) => r is Ok && final(record)@ == v && final(self).state() == st,
                None => r == Err::<(), DecodeError>(DecodeError::FieldDecode),
            },
    {
        if record.bam_bit_flags & 0x04 == 0 {
            let mq = self.read_int(self.compression_header.mapping_qualities)?;
            record.mapping_quality = mq;
        }
        Ok(())
    }

    /// Reads the columns of the next record into `record`.
    pub fn read_record(&mut self, record: &mut Record) -> (r: Result<(), DecodeError>)
        requires
            old(self).well_formed(),
        ensures
            final(self).well_formed(),
            final(self).context() == old(self).context(),
            match read_record(old(self).context(), old(record)@, old(self).state()) {
                Some((v, st)) => r is Ok && final(record)@ == v && final(self).state() == st,
                None => r == Err::<(), DecodeError>(DecodeError::FieldDecode),
            },
    {
        reveal(read_record);
        self.read_flags_into(record)?;
        self.read_positions_into(record)?;
        self.read_name_into(record)?;
        self.read_mate_data_into(record)?;
        self.read_mapping_quality_into(record)?;
        Ok(())
    }
}

} // verus!
