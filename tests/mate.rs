use cram_slice::error::DecodeError;
use cram_slice::mate::resolve_mates;
use cram_slice::record::Record;

fn record(id: i64, reference_id: i32, alignment_start: i32) -> Record {
    let mut r = Record::default();
    r.id = id;
    r.reference_id = reference_id;
    r.alignment_start = alignment_start;
    r
}

fn downstream(mut r: Record, distance: i32) -> Record {
    r.cram_bit_flags |= 0x04;
    r.distance_to_next_fragment = distance;
    r
}

#[test]
fn mate_pair_is_linked_both_ways() {
    let records = vec![downstream(record(7, 1, 100), 0), record(8, 2, 300)];
    let resolved = resolve_mates(records).unwrap();
    assert_eq!(resolved[0].next_fragment_reference_sequence_id, 2);
    assert_eq!(resolved[0].next_mate_alignment_start, 300);
    assert_eq!(resolved[1].next_fragment_reference_sequence_id, 1);
    assert_eq!(resolved[1].next_mate_alignment_start, 100);
    assert_eq!(resolved[0].read_name, b"7".to_vec());
    assert_eq!(resolved[1].read_name, b"7".to_vec());
}

#[test]
fn three_record_ring_shares_the_first_name() {
    let records = vec![
        downstream(record(42, 0, 10), 0),
        downstream(record(43, 1, 20), 0),
        record(44, 2, 30),
    ];
    let resolved = resolve_mates(records).unwrap();
    for r in &resolved {
        assert_eq!(r.read_name, b"42".to_vec());
    }
    assert_eq!(resolved[0].next_fragment_reference_sequence_id, 1);
    assert_eq!(resolved[0].next_mate_alignment_start, 20);
    assert_eq!(resolved[1].next_fragment_reference_sequence_id, 2);
    assert_eq!(resolved[1].next_mate_alignment_start, 30);
    assert_eq!(resolved[2].next_fragment_reference_sequence_id, 0);
    assert_eq!(resolved[2].next_mate_alignment_start, 10);
}

#[test]
fn explicit_name_is_shared() {
    let mut first = downstream(record(1, 0, 10), 1);
    first.read_name = b"frag".to_vec();
    let records = vec![first, record(2, 5, 15), record(3, 0, 20)];
    let resolved = resolve_mates(records).unwrap();
    assert_eq!(resolved[2].read_name, b"frag".to_vec());
    assert_eq!(resolved[0].next_mate_alignment_start, 20);
    assert_eq!(resolved[2].next_mate_alignment_start, 10);
    assert!(resolved[1].read_name.is_empty());
}

#[test]
fn unlinked_record_is_untouched() {
    let mut lone = record(5, 3, 77);
    lone.bam_bit_flags = 0x10;
    lone.next_fragment_reference_sequence_id = -1;
    lone.next_mate_alignment_start = 9;
    let records = vec![lone, downstream(record(6, 0, 1), 0), record(7, 0, 2)];
    let resolved = resolve_mates(records).unwrap();
    assert_eq!(resolved[0].bam_bit_flags, 0x10);
    assert_eq!(resolved[0].next_fragment_reference_sequence_id, -1);
    assert_eq!(resolved[0].next_mate_alignment_start, 9);
    assert!(resolved[0].read_name.is_empty());
}

#[test]
fn mate_flags_are_taken_from_the_mate() {
    let mut second = record(2, 0, 5);
    second.bam_bit_flags = 0x10 | 0x04;
    let records = vec![downstream(record(1, 0, 1), 0), second];
    let resolved = resolve_mates(records).unwrap();
    assert_eq!(resolved[0].bam_bit_flags, 0x20 | 0x08);
    assert_eq!(resolved[1].bam_bit_flags, 0x14);
}

#[test]
fn negative_id_gives_a_signed_name() {
    let records = vec![downstream(record(-15, 0, 1), 0), record(-14, 0, 2)];
    let resolved = resolve_mates(records).unwrap();
    assert_eq!(resolved[0].read_name, b"-15".to_vec());
    assert_eq!(resolved[1].read_name, b"-15".to_vec());
}

#[test]
fn resolving_twice_changes_nothing() {
    let make = || {
        let mut second = record(11, 4, 40);
        second.bam_bit_flags = 0x10;
        vec![
            downstream(record(10, 3, 30), 0),
            downstream(second, 0),
            record(12, 5, 50),
            record(13, 6, 60),
        ]
    };
    let once = resolve_mates(make()).unwrap();
    let snapshot: Vec<(i32, Vec<u8>, i32, i32)> = once
        .iter()
        .map(|r| {
            (
                r.bam_bit_flags,
                r.read_name.clone(),
                r.next_fragment_reference_sequence_id,
                r.next_mate_alignment_start,
            )
        })
        .collect();
    let twice = resolve_mates(once).unwrap();
    for (r, s) in twice.iter().zip(snapshot.iter()) {
        assert_eq!(r.bam_bit_flags, s.0);
        assert_eq!(r.read_name, s.1);
        assert_eq!(r.next_fragment_reference_sequence_id, s.2);
        assert_eq!(r.next_mate_alignment_start, s.3);
    }
}

#[test]
fn mate_past_the_end_is_out_of_range() {
    let records = vec![downstream(record(1, 0, 1), 1), record(2, 0, 2)];
    assert_eq!(resolve_mates(records).err(), Some(DecodeError::MateIndexOutOfRange));
}

#[test]
fn negative_distance_is_out_of_range() {
    let records = vec![record(1, 0, 1), downstream(record(2, 0, 2), -2)];
    assert_eq!(resolve_mates(records).err(), Some(DecodeError::MateIndexOutOfRange));
}
