use cram_slice::bit_reader::BitReader;
use cram_slice::block::Block;
use cram_slice::flag::Flag;
use cram_slice::itf8::{read_itf8, read_ltf8};
use cram_slice::record::{Feature, Flags, Record, Tag};

#[test]
fn flag_bits() {
    let flag = Flag::new(0x0001 | 0x0004 | 0x0010 | 0x0040 | 0x0100 | 0x0400);
    assert_eq!(flag.inner(), 0x0555);
    assert!(flag.is_paired());
    assert!(!flag.is_proper_pair());
    assert!(flag.is_unmapped());
    assert!(!flag.is_mate_unmapped());
    assert!(flag.is_reverse());
    assert!(!flag.is_mate_reverse());
    assert!(flag.is_read_1());
    assert!(!flag.is_read_2());
    assert!(flag.is_secondary());
    assert!(!flag.is_qc_fail());
    assert!(flag.is_dup());
    assert!(!flag.is_supplementary());
    let other = Flag::new(0x0AAA);
    assert!(other.is_proper_pair());
    assert!(other.is_mate_unmapped());
    assert!(other.is_mate_reverse());
    assert!(other.is_read_2());
    assert!(other.is_qc_fail());
    assert!(other.is_supplementary());
    assert!(!other.is_paired());
}

#[test]
fn cram_flag_bits() {
    let flags = Flags::new(0x05);
    assert!(flags.are_quality_scores_stored_as_array());
    assert!(!flags.is_detached());
    assert!(flags.has_mate_downstream());
    assert!(!flags.decode_sequence_as_unknown());
    assert!(Flags::new(0x0A).is_detached());
    assert!(Flags::new(0x0A).decode_sequence_as_unknown());
}

#[test]
fn itf8_values() {
    assert_eq!(read_itf8(&[0x05], 0), Some((5, 1)));
    assert_eq!(read_itf8(&[0x80, 0xFF], 0), Some((255, 2)));
    assert_eq!(read_itf8(&[0x00, 0xC1, 0x02, 0x03], 1), Some((0x010203, 4)));
    assert_eq!(read_itf8(&[0xE1, 0x02, 0x03, 0x04], 0), Some((0x01020304, 4)));
    assert_eq!(read_itf8(&[0xFF, 0xFF, 0xFF, 0xFF, 0x0F], 0), Some((-1, 5)));
    assert_eq!(read_itf8(&[0xF1, 0x23, 0x45, 0x67, 0x08], 0), Some((0x12345678, 5)));
    assert_eq!(read_itf8(&[0xC0, 0x00], 0), None);
    assert_eq!(read_itf8(&[], 0), None);
}

#[test]
fn ltf8_values() {
    assert_eq!(read_ltf8(&[0x7F], 0), Some((127, 1)));
    assert_eq!(read_ltf8(&[0x81, 0x00], 0), Some((256, 2)));
    assert_eq!(read_ltf8(&[0xFF, 0, 0, 0, 0, 0, 0, 0, 0x2A], 0), Some((42, 9)));
    assert_eq!(read_ltf8(&[0xFF, 0xFF, 0xFF, 0xFF, 0xFF, 0xFF, 0xFF, 0xFF, 0xFF], 0), Some((-1, 9)));
    assert_eq!(read_ltf8(&[0xFE, 1, 0, 0, 0, 0, 0, 0], 0), Some((1 << 48, 8)));
    assert_eq!(read_ltf8(&[0xFE, 1, 0], 0), None);
}

#[test]
fn bits_are_read_most_significant_first() {
    let data = [0b1010_0000u8, 0b1111_0000];
    let mut reader = BitReader::new(&data);
    assert_eq!(reader.read_bit(), Some(1));
    assert_eq!(reader.read_bit(), Some(0));
    assert_eq!(reader.read_bits(3), Some(0b100));
    assert_eq!(reader.read_bits(7), Some(0b000_1111));
    assert_eq!(reader.position(), 12);
    assert_eq!(reader.read_bits(5), None);
    assert_eq!(reader.position(), 12);
    assert_eq!(reader.read_bits(4), Some(0));
    assert_eq!(reader.read_bit(), None);
}

#[test]
fn block_accessors() {
    let block = Block::new(3, vec![1, 2, 3]);
    assert_eq!(block.content_id(), 3);
    assert_eq!(block.duplicate().decompressed_data(), &[1, 2, 3]);
}

#[test]
fn record_accessors() {
    let mut record = Record::default();
    record.bam_bit_flags = 0x14;
    record.cram_bit_flags = 0x04;
    record.read_length = 12;
    record.alignment_start = 34;
    assert!(record.bam_bit_flags().is_reverse());
    assert!(record.bam_bit_flags().is_unmapped());
    assert!(record.cram_bit_flags().has_mate_downstream());
    assert_eq!(record.read_length(), 12);
    assert_eq!(record.alignment_start(), 34);
    record.add_tag(Tag { key: *b"NM", ty: b'c', value: vec![1] });
    record.add_feature(Feature { code: b'X', position: 3, data: vec![b'A'] });
    assert_eq!(record.tags.len(), 1);
    assert_eq!(record.features().len(), 1);
    assert_eq!(record.features()[0].position, 3);
}
