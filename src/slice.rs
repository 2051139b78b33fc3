//! A slice: its header, its core data block and its external blocks.
use vstd::prelude::*;

use crate::block::{block_views, Block, BlockView};
use crate::error::DecodeError;
use crate::compression_header::CompressionHeader;
use crate::header::{parse_header, read_header, Header, HeaderView};
use crate::mate::{mates_in_range, resolved, views};
use crate::reader::{initial_state, read_record, read_records, ReadContext, ReadState, RecordReader};
use crate::record::{empty_record_view, Record, RecordView};

verus! {

/// The value of a [`Slice`].
pub struct SliceView {
    pub header: HeaderView,
    pub core_data_block: BlockView,
    pub external_blocks: Seq<BlockView>,
}

/// A slice of a CRAM container.
#[derive(Debug)]
pub struct Slice {
    header: Header,
    core_data_block: Block,
    external_blocks: Vec<Block>,
}

impl View for Slice {
    type V = SliceView;

    closed spec fn view(&self) -> SliceView {
        SliceView {
            header: self.header@,
            core_data_block: self.core_data_block@,
            external_blocks: block_views(self.external_blocks@),
        }
    }
}

/// The slice that the blocks `bs` form, or why they form none: block 0 holds the
/// header, block 1 is the core data block, and blocks `1 .. 1 + block_count` are the
/// external blocks.
pub open spec fn assemble(bs: Seq<BlockView>) -> Result<SliceView, DecodeError> {
    if bs.len() == 0 {
        Err(DecodeError::BlockBounds)
    } else {
        match parse_header(bs[0].data) {
            None => Err(DecodeError::HeaderDecode),
            Some(h) => if bs.len() >= 2 && bs.len() >= 1 + h.block_count {
                Ok(
                    SliceView {
                        header: h,
                        core_data_block: bs[1],
                        external_blocks: bs.subrange(1, 1 + h.block_count),
                    },
                )
            } else {
                Err(DecodeError::BlockBounds)
            },
        }
    }
}

/// A slice assembled from blocks holds as many external blocks as its header counts,
/// and a block list that holds its header but fewer blocks than that header requires
/// (the header block, and `block_count` blocks from the core data block on, at least
/// one) is refused with a bounds error.
pub proof fn lemma_assembled_block_count(bs: Seq<BlockView>)
    ensures
        assemble(bs) is Ok ==> assemble(bs)->Ok_0.external_blocks.len()
            == assemble(bs)->Ok_0.header.block_count,
        bs.len() > 0 && parse_header(bs[0].data) is Some && (bs.len() < 2 || bs.len() < 1
            + parse_header(bs[0].data)->Some_0.block_count) ==> assemble(bs)
            == Err::<SliceView, DecodeError>(DecodeError::BlockBounds),
{
}

/// What stays fixed while the records of slice `s` are read.
pub open spec fn read_context(s: SliceView, compression_header: CompressionHeader) -> ReadContext {
    ReadContext {
        compression_header,
        core_data: s.core_data_block.data,
        blocks: s.external_blocks,
        reference_sequence_id: s.header.reference_sequence_id,
    }
}

/// The state before the first record of slice `s` is read.
pub open spec fn start_state(s: SliceView) -> ReadState {
    initial_state(
        s.external_blocks.len(),
        match s.header.alignment_start {
            Some(p) => p as i64,
            None => 0,
        },
    )
}

/// The ids of the header's records, from the record counter on, fit in 64 bits.
pub open spec fn ids_fit(h: HeaderView) -> bool {
    h.record_counter + h.record_count <= i64::MAX + 1
}

/// Reading a record leaves its id as it was.
proof fn lemma_read_record_keeps_id(cx: ReadContext, r0: RecordView, st: ReadState)
    requires
        read_record(cx, r0, st) is Some,
    ensures
        read_record(cx, r0, st)->Some_0.0.id == r0.id,
{
    reveal(read_record);
}

/// Records `i .. n` that were read carry the ids `counter + i ..`.
proof fn lemma_read_records_ids(cx: ReadContext, counter: int, i: nat, n: nat, st: ReadState)
    requires
        i <= n,
        read_records(cx, counter, i, n, st) is Some,
        counter + n <= i64::MAX + 1,
        counter >= i64::MIN,
    ensures
        read_records(cx, counter, i, n, st)->Some_0.len() == n - i,
        forall|k: int|
            0 <= k < n - i ==> #[trigger] read_records(cx, counter, i, n, st)->Some_0[k].id
                == counter + i + k,
    decreases n - i,
{
    if i < n {
        let r0 = RecordView { id: (counter + i) as i64, ..empty_record_view() };
        lemma_read_record_keeps_id(cx, r0, st);
        let st1 = read_record(cx, r0, st)->Some_0.1;
        lemma_read_records_ids(cx, counter, i + 1, n, st1);
        let rs = read_records(cx, counter, i, n, st)->Some_0;
        let rest = read_records(cx, counter, i + 1, n, st1)->Some_0;
        assert forall|k: int| 0 <= k < n - i implies #[trigger] rs[k].id == counter + i + k by {
            if k > 0 {
                assert(rs[k] == rest[k - 1]);
            }
        }
    }
}

impl Slice {
    /// The slice holds as many external blocks as its header counts.
    pub open spec fn well_formed(&self) -> bool {
        self@.external_blocks.len() == self@.header.block_count
    }

    pub fn new(header: Header, core_data_block: Block, external_blocks: Vec<Block>) -> (r: Self)
        requires
            external_blocks@.len() == header@.block_count,
        ensures
            r@ == (SliceView {
                header: header@,
                core_data_block: core_data_block@,
                external_blocks: block_views(external_blocks@),
            }),
            r.well_formed(),
    {
        Slice { header, core_data_block, external_blocks }
    }

    pub fn header(&self) -> (r: &Header)
        ensures
            r@ == self@.header,
    {
        &self.header
    }

    pub fn core_data_block(&self) -> (r: &Block)
        ensures
            r@ == self@.core_data_block,
    {
        &self.core_data_block
    }

    pub fn external_blocks(&self) -> (r: &[Block])
        ensures
            block_views(r@) == self@.external_blocks,
    {
        self.external_blocks.as_slice()
    }

    /// Assembles a slice from its blocks (see [`assemble`]).
    pub fn try_from(blocks: &[Block]) -> (r: Result<Slice, DecodeError>)
        ensures
            match assemble(block_views(blocks@)) {
                Ok(v) => r is Ok && r->Ok_0@ == v && r->Ok_0.well_formed(),
                Err(e) => r == Err::<Slice, DecodeError>(e),
            },
    {
        let ghost bs = block_views(blocks@);
        if blocks.len() == 0 {
            return Err(DecodeError::BlockBounds);
        }
        let header = match read_header(blocks[0].decompressed_data()) {
            Ok(h) => h,
            Err(e) => {
                return Err(e);
            },
        };
        let external_blocks_len = header.block_count();
        if blocks.len() < 2 || blocks.len() - 1 < external_blocks_len {
            return Err(DecodeError::BlockBounds);
        }
        let core_data_block = blocks[1].duplicate();
        let mut external_blocks: Vec<Block> = Vec::new();
        let mut i: usize = 0;
        while i < external_blocks_len
            invariant
                i <= external_blocks_len,
                1 + external_blocks_len <= blocks@.len(),
                bs == block_views(blocks@),
                block_views(external_blocks@) == bs.subrange(1, 1 + i),
            decreases external_blocks_len - i,
        {
            let block = blocks[i + 1].duplicate();
            let ghost prev = external_blocks@;
            external_blocks.push(block);
            proof {
                assert(bs[i + 1] == block@);
                assert(block_views(external_blocks@) =~= block_views(prev).push(block@));
                assert(block_views(external_blocks@) =~= bs.subrange(1, 1 + i + 1));
            }
            i = i + 1;
        }
        Ok(Slice::new(header, core_data_block, external_blocks))
    }
}

impl Slice {
    /// Decodes the slice's records: `record_count` of them, in the order stored, with
    /// ids counting up from the record counter. Fails with a header error when those
    /// ids do not fit in 64 bits, and with a field error when a column cannot be read.
    pub fn records(&self, compression_header: &CompressionHeader) -> (r: Result<
        Vec<Record>,
        DecodeError,
    >)
        ensures
            !ids_fit(self@.header) ==> r == Err::<Vec<Record>, DecodeError>(
                DecodeError::HeaderDecode,
            ),
            ids_fit(self@.header) ==> match read_records(
                read_context(self@, *compression_header),
                self@.header.record_counter as int,
                0,
                self@.header.record_count as nat,
                start_state(self@),
            ) {
                Some(rs) => r is Ok && views(r->Ok_0@) == rs,
                None => r == Err::<Vec<Record>, DecodeError>(DecodeError::FieldDecode),
            },
            r is Ok ==> r->Ok_0@.len() == self@.header.record_count,
            r is Ok ==> forall|i: int|
                0 <= i < r->Ok_0@.len() ==> #[trigger] r->Ok_0@[i].id == self@.header.record_counter
                    + i,
    {
        let record_counter = self.header.record_counter();
        let records_len = self.header.record_count();
        if record_counter as i128 + records_len as i128 > i64::MAX as i128 + 1 {
            return Err(DecodeError::HeaderDecode);
        }
        let alignment_start: i64 = match self.header.alignment_start() {
            Some(p) => #[verifier::truncate] (p.get() as i64),
            None => 0,
        };
        let mut record_reader = RecordReader::new(
            compression_header,
            self.core_data_block.decompressed_data(),
            self.external_blocks.as_slice(),
            self.header.reference_sequence_id(),
            alignment_start,
        );
        let ghost cx = read_context(self@, *compression_header);
        let ghost counter = record_counter as int;
        let ghost n = records_len as nat;
        let ghost whole = read_records(cx, counter, 0, n, start_state(self@));
        let mut records: Vec<Record> = Vec::new();
        let mut i: usize = 0;
        while i < records_len
            invariant
                record_reader.well_formed(),
                record_reader.context() == cx,
                cx == read_context(self@, *compression_header),
                i <= records_len,
                n == records_len,
                ids_fit(self@.header),
                self@.header.record_count == records_len,
                self@.header.record_counter == record_counter,
                counter == record_counter,
                counter + n <= i64::MAX + 1,
                records@.len() == i,
                whole == read_records(cx, counter, 0, n, start_state(self@)),
                whole == match read_records(cx, counter, i as nat, n, record_reader.state()) {
                    Some(rest) => Some(views(records@) + rest),
                    None => None,
                },
            decreases records_len - i,
        {
            let mut record = Record::default();
            record.id = (record_counter as i128 + i as i128) as i64;
            let ghost st = record_reader.state();
            let ghost r0 = record@;
            match record_reader.read_record(&mut record) {
                Ok(()) => {},
                Err(e) => {
                    proof {
                        assert(read_records(cx, counter, i as nat, n, st) is None);
                    }
                    return Err(e);
                },
            }
            proof {
                assert(r0 == RecordView { id: (counter + i) as i64, ..empty_record_view() });
                let rest = read_records(cx, counter, (i + 1) as nat, n, record_reader.state());
                if let Some(rest) = rest {
                    assert(views(records@.push(record)) + rest =~= views(records@) + (seq![record@]
                        + rest));
                }
            }
            records.push(record);
            i = i + 1;
        }
        proof {
            assert(views(records@) + Seq::<RecordView>::empty() =~= views(records@));
            lemma_read_records_ids(cx, counter, 0, n, start_state(self@));
            let rs = whole->Some_0;
            assert forall|k: int| 0 <= k < records@.len() implies #[trigger] records@[k].id
                == record_counter + k by {
                assert(views(records@)[k] == records@[k]@);
                assert(rs[k].id == counter + k);
            }
        }
        Ok(records)
    }

    /// Resolves the mates of the slice's decoded records (see the `mate` module). Fails
    /// with an out-of-range error, returning no records, when a record's mate lies
    /// outside the slice.
    pub fn resolve_mates(&self, records: Vec<Record>) -> (r: Result<Vec<Record>, DecodeError>)
        ensures
            mates_in_range(views(records@)) ==> r is Ok && views(r->Ok_0@) == resolved(
                views(records@),
            ),
            !mates_in_range(views(records@)) ==> r == Err::<Vec<Record>, DecodeError>(
                DecodeError::MateIndexOutOfRange,
            ),
    {
        crate::mate::resolve_mates(records)
    }
}

} // verus!
