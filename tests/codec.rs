use d2s::bits::{decode_into, encode_bytes, push_bits, put_bits, read_bits};
use d2s::{FormatError, Stats, StatsError, StatsKind};

const BLOCK: [u8; 11] = [0x00, 0x5a, 0x60, 0xe0, 0x79, 0x20, 0x4d, 0x00, 0xe0, 0xff, 0xff];

fn find(stats: &Stats, kind: StatsKind) -> (bool, usize, u32) {
    let info = &stats.stats()[kind.id() as usize];
    assert_eq!(info.kind(), kind);
    (info.is_present(), info.offset(), info.value())
}

#[test]
fn encode_orders_bytes_from_the_top() {
    let bits = encode_bytes(&[0x01, 0x80]);
    let expected = vec![
        true, false, false, false, false, false, false, false, false, false, false, false,
        false, false, false, true,
    ];
    assert_eq!(bits, expected);
}

#[test]
fn decode_inverts_encode() {
    let data: Vec<u8> = vec![0x00, 0x01, 0x7f, 0x80, 0xfe, 0xff, 0x69, 0x66];
    let bits = encode_bytes(&data);
    assert_eq!(bits.len(), 64);
    let mut out = vec![0u8; 8];
    assert_eq!(decode_into(&mut out, &bits), Ok(()));
    assert_eq!(out, data);
}

#[test]
fn decode_rejects_unaligned_length() {
    let mut out = vec![7u8; 2];
    let bits = vec![true; 9];
    assert_eq!(decode_into(&mut out, &bits), Err(FormatError::Unaligned));
    assert_eq!(out, vec![7u8, 7u8]);
}

#[test]
fn decode_short_sequence_fills_top_bytes() {
    let mut out = vec![7u8; 3];
    let bits = encode_bytes(&[0xab]);
    assert_eq!(decode_into(&mut out, &bits), Ok(()));
    assert_eq!(out, vec![7u8, 7u8, 0xab]);
}

#[test]
fn bit_fields_read_and_write_msb_first() {
    let mut bits = vec![false; 12];
    put_bits(&mut bits, 2, 45, 10);
    assert_eq!(read_bits(&bits, 2, 10), 45);
    assert_eq!(read_bits(&bits, 2, 6), 45 >> 4);
    assert!(!bits[0] && !bits[1]);
    let mut more = Vec::new();
    push_bits(&mut more, 5, 4);
    assert_eq!(more, vec![false, true, false, true]);
}

#[test]
fn parse_reports_values_and_offsets() {
    let stats = Stats::load(&BLOCK).unwrap();
    assert_eq!(find(&stats, StatsKind::Strength), (true, 69, 45));
    assert_eq!(find(&stats, StatsKind::Level), (true, 53, 30));
    assert_eq!(find(&stats, StatsKind::GoldStash), (true, 19, 1234));
    assert_eq!(find(&stats, StatsKind::Energy), (false, 0, 0));
    assert_eq!(stats.stats().len(), 16);
}

#[test]
fn parse_stops_after_terminal_kind() {
    // The nineteen bits in front of the terminal field are all ones, which would read
    // as the unknown tag 511 if the scan went on.
    let stats = Stats::load(&BLOCK).unwrap();
    assert!(find(&stats, StatsKind::GoldStash).0);
}

#[test]
fn set_and_save_change_only_the_field_span() {
    let mut stats = Stats::load(&BLOCK).unwrap();
    assert_eq!(stats.set(StatsKind::Strength, 60), Ok(()));
    let mut data = BLOCK.to_vec();
    assert_eq!(data, BLOCK.to_vec());
    stats.save(&mut data);
    let before = encode_bytes(&BLOCK);
    let after = encode_bytes(&data);
    for i in 0..before.len() {
        if !(69..79).contains(&i) {
            assert_eq!(before[i], after[i], "bit {}", i);
        }
    }
    assert_eq!(read_bits(&after, 69, 10), 60);
    assert_eq!(data, vec![0x00, 0x78, 0x60, 0xe0, 0x79, 0x20, 0x4d, 0x00, 0xe0, 0xff, 0xff]);
    let again = Stats::load(&data).unwrap();
    assert_eq!(find(&again, StatsKind::Strength), (true, 69, 60));
    assert_eq!(find(&again, StatsKind::Level), (true, 53, 30));
}

#[test]
fn write_back_unmodified_keeps_bytes() {
    let stats = Stats::load(&BLOCK).unwrap();
    let mut data = BLOCK.to_vec();
    stats.save(&mut data);
    assert_eq!(data, BLOCK.to_vec());
    let again = Stats::load(&data).unwrap();
    for kind in [StatsKind::Strength, StatsKind::Level, StatsKind::GoldStash, StatsKind::Gold] {
        assert_eq!(find(&again, kind), find(&stats, kind));
    }
}

#[test]
fn set_rejects_value_wider_than_field() {
    let mut stats = Stats::load(&BLOCK).unwrap();
    assert_eq!(stats.set(StatsKind::Level, 128), Err(StatsError::ValueTooLarge));
    assert_eq!(find(&stats, StatsKind::Level), (true, 53, 30));
    assert_eq!(stats.set(StatsKind::Level, 127), Ok(()));
    assert_eq!(find(&stats, StatsKind::Level), (true, 53, 127));
}

#[test]
fn set_rejects_absent_kind() {
    let mut stats = Stats::load(&BLOCK).unwrap();
    assert_eq!(stats.set(StatsKind::Energy, 1), Err(StatsError::NotPresent));
    let mut fresh = Stats::new();
    assert_eq!(fresh.set(StatsKind::Strength, 1), Err(StatsError::NotPresent));
}

#[test]
fn unknown_tag_fails_parse() {
    // The last nine bits of the sequence are the low bit of the second byte and the
    // whole first byte: tag id 16.
    assert_eq!(Stats::load(&[16, 0]).err(), Some(FormatError::UnknownTag(16)));
    // Tag id 300 further into the scan, after a valid Level field.
    let mut bits = vec![false; 7];
    push_bits(&mut bits, 300, 9);
    push_bits(&mut bits, 30, 7);
    push_bits(&mut bits, 12, 9);
    assert_eq!(bits.len(), 32);
    let mut block = vec![0u8; 4];
    assert_eq!(decode_into(&mut block, &bits), Ok(()));
    assert_eq!(Stats::load(&block).err(), Some(FormatError::UnknownTag(300)));
}

#[test]
fn truncated_field_fails_parse() {
    // Tag id 13 (Experience, 32 bits) with only seven bits in front of it.
    assert_eq!(Stats::load(&[13, 0]).err(), Some(FormatError::TruncatedField));
}

#[test]
fn empty_block_parses_to_nothing_present() {
    let stats = Stats::load(&[]).unwrap();
    for info in stats.stats() {
        assert!(!info.is_present());
    }
}

#[test]
fn widths_follow_the_catalog() {
    let ids: Vec<u16> = (0..16).collect();
    for id in ids {
        let kind = StatsKind::from_id(id).unwrap();
        assert_eq!(kind.id(), id);
    }
    assert_eq!(StatsKind::from_id(16), None);
    assert_eq!(StatsKind::from_id(511), None);
}
