use cram_slice::block::Block;
use cram_slice::compression_header::{ByteArrayEncoding, CompressionHeader, Encoding};
use cram_slice::error::DecodeError;
use cram_slice::header::{read_header, Header, Position, ReferenceSequenceId};
use cram_slice::record::Record;
use cram_slice::slice::Slice;

/// The ITF8 bytes of -1.
const MINUS_ONE: [u8; 5] = [0xFF, 0xFF, 0xFF, 0xFF, 0x0F];

fn header_bytes(record_count: u8, record_counter: u8, block_content_ids: &[u8]) -> Vec<u8> {
    let mut bytes = vec![0x00, 0x01, 0x0A, record_count, record_counter];
    bytes.push(block_content_ids.len() as u8);
    bytes.push(block_content_ids.len() as u8);
    bytes.extend_from_slice(block_content_ids);
    bytes.extend_from_slice(&MINUS_ONE);
    bytes.extend_from_slice(&[0u8; 16]);
    bytes
}

fn compression_header(read_names_included: bool) -> CompressionHeader {
    CompressionHeader {
        read_names_included,
        ap_delta: false,
        bam_bit_flags: Encoding::External(1),
        cram_bit_flags: Encoding::External(1),
        reference_id: Encoding::Constant(0),
        read_lengths: Encoding::Beta { offset: 0, len: 8 },
        in_seq_positions: Encoding::Beta { offset: 0, len: 8 },
        read_groups: Encoding::Constant(-1),
        read_names: ByteArrayEncoding::Stop { stop_byte: 0, block_content_id: 2 },
        next_mate_bit_flags: Encoding::External(1),
        next_fragment_reference_sequence_id: Encoding::External(1),
        next_mate_alignment_start: Encoding::External(1),
        template_size: Encoding::External(1),
        distance_to_next_fragment: Encoding::External(1),
        mapping_qualities: Encoding::Beta { offset: 0, len: 8 },
    }
}

/// Two records, the first with its mate directly after it.
fn pair_blocks(core: Vec<u8>) -> Vec<Block> {
    vec![
        Block::new(0, header_bytes(2, 10, &[0, 1])),
        Block::new(0, core),
        Block::new(1, vec![0x41, 0x04, 0x00, 0x51, 0x00]),
    ]
}

#[test]
fn slice_holds_as_many_external_blocks_as_its_header_counts() {
    let blocks = pair_blocks(vec![100, 5, 30, 100, 50, 40]);
    let slice = Slice::try_from(&blocks).unwrap();
    assert_eq!(slice.header().block_count(), 2);
    assert_eq!(slice.external_blocks().len(), 2);
    assert_eq!(slice.core_data_block().decompressed_data(), &[100, 5, 30, 100, 50, 40]);
    assert_eq!(slice.external_blocks()[0].content_id(), 0);
    assert_eq!(slice.external_blocks()[1].content_id(), 1);
}

#[test]
fn one_block_short_is_a_bounds_error() {
    let blocks = pair_blocks(vec![100, 5, 30, 100, 50, 40]);
    let result = Slice::try_from(&blocks[..2]);
    assert_eq!(result.err(), Some(DecodeError::BlockBounds));
    assert_eq!(blocks.len(), 3);
}

#[test]
fn no_blocks_is_a_bounds_error() {
    assert_eq!(Slice::try_from(&[]).err(), Some(DecodeError::BlockBounds));
}

#[test]
fn header_only_with_no_external_blocks_is_a_bounds_error() {
    let blocks = vec![Block::new(0, header_bytes(0, 0, &[]))];
    assert_eq!(Slice::try_from(&blocks).err(), Some(DecodeError::BlockBounds));
}

#[test]
fn malformed_header_is_a_header_error() {
    let blocks = vec![Block::new(0, vec![0x00, 0x80]), Block::new(0, vec![])];
    assert_eq!(Slice::try_from(&blocks).err(), Some(DecodeError::HeaderDecode));
}

#[test]
fn header_fields_are_read_in_order() {
    let mut bytes = vec![0xFF, 0xFF, 0xFF, 0xFF, 0x0E, 0x80, 0xC8, 0x0A, 0x03, 0x81, 0x00, 0x02, 0x02, 0x05, 0x06, 0x07];
    bytes.extend_from_slice(&[1u8; 16]);
    bytes.extend_from_slice(b"XY");
    let header = read_header(&bytes).unwrap();
    assert_eq!(header.reference_sequence_id(), ReferenceSequenceId::Multiple);
    assert_eq!(header.alignment_start().map(|p| p.get()), Some(200));
    assert_eq!(header.alignment_span(), 10);
    assert_eq!(header.record_count(), 3);
    assert_eq!(header.record_counter(), 256);
    assert_eq!(header.block_count(), 2);
    assert_eq!(header.block_content_ids(), &[5, 6]);
    assert_eq!(header.embedded_reference_bases_block_content_id(), Some(7));
    assert_eq!(header.reference_md5(), &[1u8; 16]);
    assert_eq!(header.optional_tags(), b"XY");
}

#[test]
fn header_with_a_bad_reference_sequence_id_is_refused() {
    let mut bytes = vec![0xFF, 0xFF, 0xFF, 0xFF, 0x0D];
    bytes.extend_from_slice(&header_bytes(0, 0, &[])[1..]);
    assert_eq!(read_header(&bytes).err(), Some(DecodeError::HeaderDecode));
}

#[test]
fn header_without_its_digest_is_refused() {
    let bytes = header_bytes(0, 0, &[]);
    assert_eq!(read_header(&bytes[..bytes.len() - 1]).err(), Some(DecodeError::HeaderDecode));
}

#[test]
fn builder_sets_each_field() {
    let header = Header::builder()
        .set_reference_sequence_id(ReferenceSequenceId::Id(2))
        .set_alignment_start(Position::new(8).unwrap())
        .set_alignment_span(13)
        .set_record_count(4)
        .set_record_counter(21)
        .set_block_count(3)
        .set_block_content_ids(vec![1, 2, 3])
        .set_embedded_reference_bases_block_content_id(9)
        .set_reference_md5([7; 16])
        .set_optional_tags(vec![1, 2])
        .build();
    assert_eq!(header.reference_sequence_id(), ReferenceSequenceId::Id(2));
    assert_eq!(header.alignment_start().map(|p| p.get()), Some(8));
    assert_eq!(header.alignment_span(), 13);
    assert_eq!(header.record_count(), 4);
    assert_eq!(header.record_counter(), 21);
    assert_eq!(header.block_count(), 3);
    assert_eq!(header.block_content_ids(), &[1, 2, 3]);
    assert_eq!(header.embedded_reference_bases_block_content_id(), Some(9));
    assert_eq!(header.reference_md5(), &[7u8; 16]);
    assert_eq!(header.optional_tags(), &[1, 2]);
}

#[test]
fn builder_defaults() {
    let header = Header::builder().build();
    assert_eq!(header.reference_sequence_id(), ReferenceSequenceId::Unmapped);
    assert!(header.alignment_start().is_none());
    assert_eq!(header.record_count(), 0);
    assert_eq!(header.block_content_ids().len(), 0);
    assert_eq!(header.embedded_reference_bases_block_content_id(), None);
    assert_eq!(header.reference_md5(), &[0u8; 16]);
}

#[test]
fn position_zero_is_none() {
    assert!(Position::new(0).is_none());
    assert_eq!(Position::new(5).unwrap().get(), 5);
}

#[test]
fn records_are_decoded_with_contiguous_ids() {
    let blocks = pair_blocks(vec![100, 5, 30, 100, 50, 40]);
    let slice = Slice::try_from(&blocks).unwrap();
    let records = slice.records(&compression_header(false)).unwrap();
    assert_eq!(records.len(), 2);
    assert_eq!(records[0].id, 10);
    assert_eq!(records[1].id, 11);
    assert_eq!(records[0].bam_bit_flags, 0x41);
    assert_eq!(records[0].cram_bit_flags, 0x04);
    assert_eq!(records[0].distance_to_next_fragment, 0);
    assert_eq!(records[0].reference_id, 0);
    assert_eq!(records[0].read_length, 100);
    assert_eq!(records[0].alignment_start, 5);
    assert_eq!(records[0].read_group, -1);
    assert_eq!(records[0].mapping_quality, 30);
    assert_eq!(records[1].bam_bit_flags, 0x51);
    assert_eq!(records[1].cram_bit_flags, 0);
    assert_eq!(records[1].alignment_start, 50);
    assert_eq!(records[1].mapping_quality, 40);
    assert!(records[1].read_name.is_empty());
}

#[test]
fn truncated_core_data_is_a_field_error() {
    let blocks = pair_blocks(vec![100, 5, 30, 100]);
    let slice = Slice::try_from(&blocks).unwrap();
    let result = slice.records(&compression_header(false));
    assert_eq!(result.err(), Some(DecodeError::FieldDecode));
}

#[test]
fn missing_external_block_is_a_field_error() {
    let blocks = vec![
        Block::new(0, header_bytes(1, 0, &[0])),
        Block::new(0, vec![100, 5, 30]),
    ];
    let slice = Slice::try_from(&blocks).unwrap();
    let result = slice.records(&compression_header(false));
    assert_eq!(result.err(), Some(DecodeError::FieldDecode));
}

#[test]
fn read_names_end_at_the_stop_byte() {
    let blocks = vec![
        Block::new(0, header_bytes(2, 0, &[0, 1, 2])),
        Block::new(0, vec![100, 5, 30, 100, 50, 40]),
        Block::new(1, vec![0x41, 0x00, 0x01, 0x00]),
        Block::new(2, b"r1\0r22\0".to_vec()),
    ];
    let slice = Slice::try_from(&blocks).unwrap();
    let records = slice.records(&compression_header(true)).unwrap();
    assert_eq!(records[0].read_name, b"r1".to_vec());
    assert_eq!(records[1].read_name, b"r22".to_vec());
}

#[test]
fn alignment_starts_may_be_deltas() {
    let blocks = pair_blocks(vec![100, 5, 30, 100, 50, 40]);
    let slice = Slice::try_from(&blocks).unwrap();
    let mut ch = compression_header(false);
    ch.ap_delta = true;
    let records = slice.records(&ch).unwrap();
    assert_eq!(records[0].alignment_start, 6);
    assert_eq!(records[1].alignment_start, 56);
}

#[test]
fn too_many_records_for_the_counter_is_a_header_error() {
    let header = Header::builder()
        .set_record_counter(i64::MAX)
        .set_record_count(2)
        .build();
    let slice = Slice::new(header, Block::new(0, vec![]), vec![]);
    let result = slice.records(&compression_header(false));
    assert_eq!(result.err(), Some(DecodeError::HeaderDecode));
}

#[test]
fn decoded_mate_pair_is_resolved() {
    let blocks = pair_blocks(vec![100, 5, 30, 100, 50, 40]);
    let slice = Slice::try_from(&blocks).unwrap();
    let records = slice.records(&compression_header(false)).unwrap();
    let records = slice.resolve_mates(records).unwrap();
    assert_eq!(records[0].read_name, b"10".to_vec());
    assert_eq!(records[1].read_name, b"10".to_vec());
    assert_eq!(records[0].next_mate_alignment_start, 50);
    assert_eq!(records[1].next_mate_alignment_start, 5);
    // record 1 is reverse complemented (0x10): record 0 gets the mate-reverse bit (0x20)
    assert_eq!(records[0].bam_bit_flags, 0x41 | 0x20);
    assert_eq!(records[1].bam_bit_flags, 0x51);
}

#[test]
fn unmapped_records_have_no_mapping_quality() {
    let blocks = vec![
        Block::new(0, header_bytes(1, 0, &[0, 1])),
        Block::new(0, vec![100, 5]),
        Block::new(1, vec![0x04, 0x00]),
    ];
    let slice = Slice::try_from(&blocks).unwrap();
    let records = slice.records(&compression_header(false)).unwrap();
    assert_eq!(records[0].mapping_quality, 0);
    let empty: Vec<Record> = Vec::new();
    assert_eq!(slice.resolve_mates(empty).unwrap().len(), 0);
}
