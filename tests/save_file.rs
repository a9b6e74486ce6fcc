use d2s::checksum::checksum_of;
use d2s::{CharacterClass, D2SaveFile, FormatError, StatsError, StatsKind};

const BLOCK: [u8; 11] = [0x00, 0x5a, 0x60, 0xe0, 0x79, 0x20, 0x4d, 0x00, 0xe0, 0xff, 0xff];

fn sample() -> Vec<u8> {
    let mut d = vec![0u8; 767];
    d[0..4].copy_from_slice(&[0x55, 0xaa, 0x55, 0xaa]);
    d[4] = 0x60;
    d[8] = (810 & 0xff) as u8;
    d[9] = (810 >> 8) as u8;
    d[12..16].copy_from_slice(&[0xde, 0xad, 0xbe, 0xef]);
    d[40] = 4;
    d[43] = 30;
    d.extend_from_slice(&BLOCK);
    d.extend_from_slice(&[0x69, 0x66]);
    d.extend(1..=30u8);
    d
}

fn naive_checksum(d: &[u8]) -> u32 {
    let mut c = d[0] as u32;
    for b in &d[1..] {
        c = c.rotate_left(1).wrapping_add(*b as u32);
    }
    c
}

#[test]
fn locator_finds_marker_at_820() {
    let mut d = vec![0u8; 900];
    d[100] = 0x69;
    d[101] = 0x66;
    d[820] = 0x69;
    d[821] = 0x66;
    assert_eq!(D2SaveFile::skills_offset(&d), Some(820));
}

#[test]
fn locator_reports_missing_marker() {
    let mut d = vec![0u8; 900];
    d[899] = 0x69;
    assert_eq!(D2SaveFile::skills_offset(&d), None);
    assert_eq!(D2SaveFile::skills_offset(&vec![0u8; 10]), None);
    assert_eq!(D2SaveFile::from_bytes(d).err(), Some(FormatError::MarkerNotFound));
}

#[test]
fn truncated_skills_section_is_rejected() {
    let mut d = sample();
    d.truncate(d.len() - 1);
    assert_eq!(D2SaveFile::from_bytes(d).err(), Some(FormatError::Truncated));
}

#[test]
fn corrupt_block_is_rejected() {
    let mut e = vec![0u8; 767];
    e.extend_from_slice(&[16, 0]);
    e.extend_from_slice(&[0x69, 0x66]);
    e.extend(1..=30u8);
    assert_eq!(D2SaveFile::from_bytes(e).err(), Some(FormatError::UnknownTag(16)));
}

#[test]
fn header_fields_read_little_endian() {
    let f = D2SaveFile::from_bytes(sample()).unwrap();
    assert_eq!(f.header(), 0xaa55aa55);
    assert_eq!(f.version(), 0x60);
    assert_eq!(f.size(), 810);
    assert_eq!(f.checksum(), 0xefbeadde);
    assert_eq!(f.level(), 30);
    assert_eq!(f.character_class(), Some(CharacterClass::Barbarian));
    assert_eq!(f.file_size(), 810);
}

#[test]
fn unknown_class_byte_gives_none() {
    let mut d = sample();
    d[40] = 7;
    let f = D2SaveFile::from_bytes(d).unwrap();
    assert_eq!(f.character_class(), None);
}

#[test]
fn skills_follow_the_marker() {
    let mut f = D2SaveFile::from_bytes(sample()).unwrap();
    assert_eq!(f.skills(), (1..=30u8).collect::<Vec<u8>>());
    f.set_skill(29, 99);
    f.set_skill(0, 0);
    let skills = f.skills();
    assert_eq!(skills[29], 99);
    assert_eq!(skills[0], 0);
    assert_eq!(f.bytes()[780], 0);
    assert_eq!(f.bytes()[809], 99);
}

#[test]
fn file_checksum_zeroes_the_stored_field() {
    let f = D2SaveFile::from_bytes(sample()).unwrap();
    assert_eq!(f.file_checksum(), 0x36722);
    let mut zeroed = sample();
    zeroed[12..16].copy_from_slice(&[0, 0, 0, 0]);
    assert_eq!(f.file_checksum(), naive_checksum(&zeroed));
    assert_eq!(f.file_checksum(), f.file_checksum());
}

#[test]
fn checksum_of_small_buffers() {
    assert_eq!(checksum_of(&vec![]), 0);
    assert_eq!(checksum_of(&vec![0x80]), 0x80);
    assert_eq!(checksum_of(&vec![1, 2, 3]), 0xb);
    assert_eq!(checksum_of(&vec![0x80; 40]), 0x7f00);
}

#[test]
fn checksum_changes_with_any_data_byte() {
    let base = D2SaveFile::from_bytes(sample()).unwrap().file_checksum();
    for i in [0usize, 11, 16, 43, 500, 777, 809] {
        let mut d = sample();
        d[i] ^= 0x01;
        let f = D2SaveFile::from_bytes(d).unwrap();
        assert_ne!(f.file_checksum(), base, "byte {}", i);
    }
    let mut d = sample();
    d[13] = 0;
    assert_eq!(D2SaveFile::from_bytes(d).unwrap().file_checksum(), base);
}

#[test]
fn update_checksum_stores_recomputed_value() {
    let mut f = D2SaveFile::from_bytes(sample()).unwrap();
    f.update_checksum();
    assert_eq!(f.checksum(), 0x36722);
    assert_eq!(f.file_checksum(), 0x36722);
    assert_eq!(&f.bytes()[12..16], &[0x22, 0x67, 0x03, 0x00]);
}

#[test]
fn set_stats_end_to_end() {
    let mut f = D2SaveFile::from_bytes(sample()).unwrap();
    let strength = &f.stats()[StatsKind::Strength.id() as usize];
    assert_eq!((strength.value(), strength.offset()), (45, 69));
    let level = &f.stats()[StatsKind::Level.id() as usize];
    assert_eq!((level.value(), level.offset()), (30, 53));
    assert_eq!(f.set_stats(StatsKind::Strength, 60), Ok(()));
    let mut expected = sample();
    expected[768] = 0x78;
    assert_eq!(f.bytes(), &expected);
    assert_eq!(f.set_stats(StatsKind::Mana, 1), Err(StatsError::NotPresent));
    assert_eq!(f.set_stats(StatsKind::Strength, 1024), Err(StatsError::ValueTooLarge));
    assert_eq!(f.bytes(), &expected);
    let g = D2SaveFile::from_bytes(expected).unwrap();
    assert_eq!(g.stats()[StatsKind::Strength.id() as usize].value(), 60);
    assert_eq!(g.stats()[StatsKind::Level.id() as usize].value(), 30);
}
