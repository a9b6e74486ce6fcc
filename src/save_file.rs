use vstd::prelude::*;

use crate::checksum::{checksum, checksum_of};
use crate::error::{FormatError, StatsError};
use crate::file::FileOffset;
use crate::stats::{
    parse_block, records_fit, records_of, save_block, FieldRecord, Stats, StatsInfo, StatsKind,
};

verus! {

/// The character classes, by their byte in the file.
#[derive(Debug, Clone, Copy, PartialEq, Eq, Structural)]
pub enum CharacterClass {
    Amazon,
    Sorceress,
    Necromancer,
    Paladin,
    Barbarian,
    Druid,
    Assassin,
}

/// The class whose byte is `b`, if any.
pub open spec fn class_of(b: u8) -> Option<CharacterClass> {
    if b == 0 {
        Some(CharacterClass::Amazon)
    } else if b == 1 {
        Some(CharacterClass::Sorceress)
    } else if b == 2 {
        Some(CharacterClass::Necromancer)
    } else if b == 3 {
        Some(CharacterClass::Paladin)
    } else if b == 4 {
        Some(CharacterClass::Barbarian)
    } else if b == 5 {
        Some(CharacterClass::Druid)
    } else if b == 6 {
        Some(CharacterClass::Assassin)
    } else {
        None
    }
}

impl CharacterClass {
    pub fn from_u8(b: u8) -> (r: Option<CharacterClass>)
        ensures
            r == class_of(b),
    {
        match b {
            0 => Some(CharacterClass::Amazon),
            1 => Some(CharacterClass::Sorceress),
            2 => Some(CharacterClass::Necromancer),
            3 => Some(CharacterClass::Paladin),
            4 => Some(CharacterClass::Barbarian),
            5 => Some(CharacterClass::Druid),
            6 => Some(CharacterClass::Assassin),
            _ => None,
        }
    }
}

/// The number of skill bytes.
pub const SKILL_COUNT: usize = 30;

/// The start of the attribute block.
pub open spec fn stats_start() -> nat {
    FileOffset::CharacterStats.spec_offset()
}

/// The little-endian 32-bit number at `off`.
pub open spec fn le32(d: Seq<u8>, off: int) -> nat {
    d[off] as nat + d[off + 1] as nat * 0x100 + d[off + 2] as nat * 0x1_0000 + d[off + 3] as nat
        * 0x100_0000
}

/// The little-endian 16-bit number at `off`.
pub open spec fn le16(d: Seq<u8>, off: int) -> nat {
    d[off] as nat + d[off + 1] as nat * 0x100
}

/// `d` with the four bytes of `v`, little-endian, at `off`.
pub open spec fn put_le32(d: Seq<u8>, off: int, v: u32) -> Seq<u8> {
    d.update(off, (v % 0x100) as u8).update(off + 1, (v / 0x100 % 0x100) as u8).update(
        off + 2,
        (v / 0x1_0000 % 0x100) as u8,
    ).update(off + 3, (v / 0x100_0000 % 0x100) as u8)
}

/// Whether the skills section marker starts at `off`.
pub open spec fn is_marker(d: Seq<u8>, off: int) -> bool {
    0 <= off && off + 1 < d.len() && d[off] == 0x69 && d[off + 1] == 0x66
}

/// `off` is the first place at or after the attribute block's start where the marker stands.
pub open spec fn is_first_marker(d: Seq<u8>, off: nat) -> bool {
    &&& stats_start() <= off
    &&& is_marker(d, off as int)
    &&& forall|j: int| stats_start() <= j < off ==> !is_marker(d, j)
}

/// The marker does not occur at or after the attribute block's start.
pub open spec fn no_marker(d: Seq<u8>) -> bool {
    forall|j: int| stats_start() <= j ==> !is_marker(d, j)
}

/// The bytes whose checksum the file stores: the file with its checksum field zeroed.
pub open spec fn checksum_input(d: Seq<u8>) -> Seq<u8> {
    put_le32(d, FileOffset::Checksum.spec_offset() as int, 0)
}

/// The checksum the file should store.
pub open spec fn file_checksum_of(d: Seq<u8>) -> u32 {
    checksum(checksum_input(d))
}

/// What a loaded save file holds, as the contracts speak of it.
pub struct SaveView {
    pub bytes: Seq<u8>,
    pub records: Seq<FieldRecord>,
    /// Where the skills section marker stands, the end of the attribute block.
    pub skills_offset: nat,
}

impl SaveView {
    /// The attribute block's bytes.
    pub open spec fn block(self) -> Seq<u8> {
        self.bytes.subrange(stats_start() as int, self.skills_offset as int)
    }

    /// The bytes of the skill levels.
    pub open spec fn skill_bytes(self) -> Seq<u8> {
        self.bytes.subrange(self.skills_offset + 2int, self.skills_offset + 32int)
    }
}

/// A save file held in memory.
#[derive(Clone)]
pub struct D2SaveFile {
    data: Vec<u8>,
    stats: Stats,
    skills_offset: usize,
}

impl View for D2SaveFile {
    type V = SaveView;

    closed spec fn view(&self) -> SaveView {
        SaveView {
            bytes: self.data@,
            records: self.stats@,
            skills_offset: self.skills_offset as nat,
        }
    }
}

/// The checksum ignores what the checksum field holds: two buffers that agree outside
/// it give the same checksum, so recomputing it after storing it gives it again.
pub proof fn lemma_checksum_reproducible(d1: Seq<u8>, d2: Seq<u8>)
    requires
        d1.len() == d2.len(),
        16 <= d1.len(),
        forall|j: int| 0 <= j < d1.len() && !(12 <= j < 16) ==> d1[j] == d2[j],
    ensures
        file_checksum_of(d1) == file_checksum_of(d2),
{
    assert(checksum_input(d1) =~= checksum_input(d2));
}

/// Reading back a number stored little-endian gives the number.
pub proof fn lemma_le32_put(d: Seq<u8>, off: int, v: u32)
    requires
        0 <= off,
        off + 4 <= d.len(),
    ensures
        le32(put_le32(d, off, v), off) == v,
{
    let e = put_le32(d, off, v);
    assert(e[off] == (v % 0x100) as u8);
    assert(e[off + 1] == (v / 0x100 % 0x100) as u8);
    assert(e[off + 2] == (v / 0x1_0000 % 0x100) as u8);
    assert(e[off + 3] == (v / 0x100_0000 % 0x100) as u8);
    assert((v % 0x100) as nat + (v / 0x100 % 0x100) as nat * 0x100 + (v / 0x1_0000 % 0x100) as nat
        * 0x1_0000 + (v / 0x100_0000 % 0x100) as nat * 0x100_0000 == v) by (nonlinear_arith);
}

/// Changing one byte of a file outside its checksum field changes its checksum.
pub proof fn lemma_file_checksum_detects_change(d1: Seq<u8>, d2: Seq<u8>, i: int)
    requires
        d1.len() == d2.len(),
        16 <= d1.len(),
        0 <= i < d1.len(),
        !(12 <= i < 16),
        d1[i] != d2[i],
        forall|j: int| 0 <= j < d1.len() && j != i ==> d1[j] == d2[j],
    ensures
        file_checksum_of(d1) != file_checksum_of(d2),
{
    crate::checksum::lemma_checksum_detects_change(checksum_input(d1), checksum_input(d2), i);
}

/// A copy of `d[start..end]`.
fn copy_range(d: &Vec<u8>, start: usize, end: usize) -> (r: Vec<u8>)
    requires
        start <= end <= d@.len(),
    ensures
        r@ == d@.subrange(start as int, end as int),
{
    let mut r: Vec<u8> = Vec::new();
    let mut i: usize = start;
    while i < end
        invariant
            start <= i <= end <= d@.len(),
            r@ == d@.subrange(start as int, i as int),
        decreases end - i,
    {
        r.push(d[i]);
        i = i + 1;
        assert(r@ =~= d@.subrange(start as int, i as int));
    }
    r
}

/// Stores `v` little-endian in the four bytes at `off`.
fn write_long(d: &mut Vec<u8>, off: usize, v: u32)
    requires
        off + 4 <= old(d)@.len(),
    ensures
        final(d)@ == put_le32(old(d)@, off as int, v),
{
    let _n = d.len();
    d.set(off, (v % 0x100) as u8);
    d.set(off + 1, (v / 0x100 % 0x100) as u8);
    d.set(off + 2, (v / 0x1_0000 % 0x100) as u8);
    d.set(off + 3, (v / 0x100_0000 % 0x100) as u8);
}

impl D2SaveFile {
    pub closed spec fn wf(&self) -> bool {
        &&& stats_start() <= self.skills_offset
        &&& self.skills_offset + 32 <= self.data@.len()
        &&& is_marker(self.data@, self.skills_offset as int)
        &&& self.stats.wf()
        &&& records_fit(self.stats@, (self.skills_offset - stats_start()) as nat)
        &&& 8 * self.data@.len() <= usize::MAX
    }

    /// What a well-formed save file guarantees of its view.
    pub proof fn lemma_wf(&self)
        requires
            self.wf(),
        ensures
            stats_start() <= self@.skills_offset,
            self@.skills_offset + 32 <= self@.bytes.len(),
            is_marker(self@.bytes, self@.skills_offset as int),
            crate::stats::records_valid(self@.records),
            records_fit(self@.records, (self@.skills_offset - stats_start()) as nat),
    {
        self.stats.lemma_wf();
    }

    /// Reads a save file from its bytes: finds the skills section, then parses the
    /// attribute block in front of it.
    pub fn from_bytes(data: Vec<u8>) -> (r: Result<Self, FormatError>)
        requires
            8 * data@.len() <= usize::MAX,
        ensures
            match r {
                Ok(f) => {
                    &&& f.wf()
                    &&& f@.bytes == data@
                    &&& is_first_marker(data@, f@.skills_offset)
                    &&& parse_block(f@.block()) == Ok::<Seq<FieldRecord>, FormatError>(f@.records)
                },
                Err(e) => {
                    ||| (e == FormatError::MarkerNotFound && no_marker(data@))
                    ||| (e == FormatError::Truncated && exists|o: nat|
                        is_first_marker(data@, o) && o + 32 > data@.len())
                    ||| exists|o: nat|
                        is_first_marker(data@, o) && o + 32 <= data@.len() && parse_block(
                            data@.subrange(stats_start() as int, o as int),
                        ) == Err::<Seq<FieldRecord>, FormatError>(e)
                },
            },
    {
        let skills_offset = match D2SaveFile::skills_offset(&data) {
            Some(o) => o,
            None => {
                return Err(FormatError::MarkerNotFound);
            },
        };
        if data.len() - skills_offset < 32 {
            return Err(FormatError::Truncated);
        }
        let stats_offset = FileOffset::CharacterStats.offset();
        let block = copy_range(&data, stats_offset, skills_offset);
        match Stats::load(block.as_slice()) {
            Ok(stats) => Ok(D2SaveFile { data, stats, skills_offset }),
            Err(e) => Err(e),
        }
    }

    /// The file's bytes, as they would be written out.
    pub fn bytes(&self) -> (r: &Vec<u8>)
        ensures
            r@ == self@.bytes,
    {
        &self.data
    }

    pub fn header(&self) -> (r: u32)
        requires
            self.wf(),
        ensures
            r as nat == le32(self@.bytes, 0),
    {
        self.get_long(FileOffset::Header)
    }

    pub fn version(&self) -> (r: u32)
        requires
            self.wf(),
        ensures
            r as nat == le32(self@.bytes, 4),
    {
        self.get_long(FileOffset::Version)
    }

    pub fn size(&self) -> (r: u32)
        requires
            self.wf(),
        ensures
            r as nat == le32(self@.bytes, 8),
    {
        self.get_long(FileOffset::Size)
    }

    pub fn checksum(&self) -> (r: u32)
        requires
            self.wf(),
        ensures
            r as nat == le32(self@.bytes, 12),
    {
        self.get_long(FileOffset::Checksum)
    }

    pub fn level(&self) -> (r: u8)
        requires
            self.wf(),
        ensures
            r == self@.bytes[43],
    {
        self.get_byte(FileOffset::Level)
    }

    pub fn character_class(&self) -> (r: Option<CharacterClass>)
        requires
            self.wf(),
        ensures
            r == class_of(self@.bytes[40]),
    {
        CharacterClass::from_u8(self.get_byte(FileOffset::Class))
    }

    pub fn file_size(&self) -> (r: usize)
        ensures
            r == self@.bytes.len(),
    {
        self.data.len()
    }

    /// The checksum of the file's bytes with the checksum field zeroed.
    pub fn file_checksum(&self) -> (r: u32)
        requires
            self.wf(),
        ensures
            r == file_checksum_of(self@.bytes),
    {
        let mut clone = copy_range(&self.data, 0, self.data.len());
        assert(clone@ =~= self.data@);
        write_long(&mut clone, FileOffset::Checksum.offset(), 0);
        checksum_of(&clone)
    }

    /// Stores the recomputed checksum in the checksum field, as done before writing
    /// the file out.
    pub fn update_checksum(&mut self)
        requires
            old(self).wf(),
        ensures
            final(self).wf(),
            final(self)@ == (SaveView {
                bytes: put_le32(old(self)@.bytes, 12, file_checksum_of(old(self)@.bytes)),
                ..old(self)@
            }),
            file_checksum_of(final(self)@.bytes) == file_checksum_of(old(self)@.bytes),
            le32(final(self)@.bytes, 12) == file_checksum_of(final(self)@.bytes),
    {
        let c = self.file_checksum();
        self.set(FileOffset::Checksum, c);
        proof {
            lemma_checksum_reproducible(self@.bytes, old(self)@.bytes);
            lemma_le32_put(old(self)@.bytes, 12, c);
        }
    }

    pub fn stats(&self) -> (r: &Vec<StatsInfo>)
        ensures
            records_of(r@) == self@.records,
    {
        self.stats.stats()
    }

    /// Changes one attribute's value and writes it into the attribute block, leaving
    /// every other bit of the block as it was.
    pub fn set_stats(&mut self, kind: StatsKind, value: u32) -> (r: Result<(), StatsError>)
        requires
            old(self).wf(),
        ensures
            final(self).wf(),
            ({
                let i = kind.spec_id() as int;
                let before = old(self)@.records[i];
                let after = final(self)@;
                let so = old(self)@.skills_offset;
                match r {
                    Ok(()) => {
                        &&& before.present
                        &&& value < crate::bits::two_pow(kind.spec_width())
                        &&& after.records == old(self)@.records.update(
                            i,
                            FieldRecord { value: value as nat, ..before },
                        )
                        &&& after.skills_offset == so
                        &&& after.bytes == old(self)@.bytes.subrange(0, stats_start() as int)
                            + save_block(after.records, old(self)@.block()) + old(
                            self,
                        )@.bytes.subrange(so as int, old(self)@.bytes.len() as int)
                    },
                    Err(StatsError::NotPresent) => !before.present && after == old(self)@,
                    Err(StatsError::ValueTooLarge) => before.present && value
                        >= crate::bits::two_pow(kind.spec_width()) && after == old(self)@,
                }
            }),
    {
        match self.stats.set(kind, value) {
            Ok(()) => {},
            Err(e) => {
                return Err(e);
            },
        }
        let stats_offset = FileOffset::CharacterStats.offset();
        let mut block = copy_range(&self.data, stats_offset, self.skills_offset);
        proof {
            let recs = self.stats@;
            let prev = old(self).stats@;
            old(self).stats.lemma_wf();
            self.stats.lemma_wf();
            crate::stats::lemma_kind_id(kind);
            assert forall|j: int| 0 <= j < recs.len() implies (#[trigger] recs[j]).present
                == prev[j].present && recs[j].offset == prev[j].offset && recs[j].kind
                == prev[j].kind by {
                if j == kind.spec_id() {
                } else {
                    assert(recs[j] == prev[j]);
                }
            }
            assert forall|j: int|
                0 <= j < recs.len() && (#[trigger] recs[j]).present implies recs[j].offset
                + recs[j].kind.spec_width() <= 8 * block@.len() by {
                assert(prev[j].present);
            }
        }
        self.stats.save(&mut block);
        let ghost written = block@;
        let ghost set_recs = self.stats@;
        let n = block.len();
        let mut i: usize = 0;
        while i < n
            invariant
                i <= n,
                n == block@.len(),
                block@ == written,
                stats_offset == stats_start(),
                stats_offset + n == self.skills_offset,
                self.skills_offset == old(self).skills_offset,
                old(self).wf(),
                self.stats.wf(),
                self.stats@ == set_recs,
                self.stats@.len() == old(self).stats@.len(),
                forall|j: int|
                    0 <= j < self.stats@.len() ==> (#[trigger] self.stats@[j]).present
                        == old(self).stats@[j].present && self.stats@[j].offset == old(
                        self,
                    ).stats@[j].offset && self.stats@[j].kind == old(self).stats@[j].kind,
                self.data@.len() == old(self).data@.len(),
                forall|j: int|
                    0 <= j < self.data@.len() ==> #[trigger] self.data@[j] == if stats_offset <= j
                        < stats_offset + i {
                        written[j - stats_offset]
                    } else {
                        old(self).data@[j]
                    },
            decreases n - i,
        {
            self.data.set(stats_offset + i, block[i]);
            i = i + 1;
        }
        assert(self.data@ =~= old(self)@.bytes.subrange(0, stats_start() as int) + written + old(
            self,
        )@.bytes.subrange(self.skills_offset as int, old(self)@.bytes.len() as int));
        Ok(())
    }

    /// The skill levels.
    pub fn skills(&self) -> (r: Vec<u8>)
        requires
            self.wf(),
        ensures
            r@ == self@.skill_bytes(),
    {
        let skills_offset = self.skills_offset + 2;
        copy_range(&self.data, skills_offset, skills_offset + SKILL_COUNT)
    }

    /// Sets the level of the skill `skill_id`.
    pub fn set_skill(&mut self, skill_id: usize, skill_value: u8)
        requires
            old(self).wf(),
            skill_id < SKILL_COUNT,
        ensures
            final(self).wf(),
            final(self)@ == (SaveView {
                bytes: old(self)@.bytes.update(
                    old(self)@.skills_offset + 2 + skill_id,
                    skill_value,
                ),
                ..old(self)@
            }),
    {
        let skill_offset = self.skills_offset + 2 + skill_id;
        self.data.set(skill_offset, skill_value);
    }

    fn get_byte(&self, offset: FileOffset) -> (r: u8)
        requires
            self.wf(),
            offset.spec_offset() < stats_start(),
        ensures
            r == self@.bytes[offset.spec_offset() as int],
    {
        self.data[offset.offset()]
    }

    fn get_short(&self, offset: FileOffset) -> (r: u16)
        requires
            self.wf(),
            offset.spec_offset() + 2 <= stats_start(),
        ensures
            r as nat == le16(self@.bytes, offset.spec_offset() as int),
    {
        self._get_short(offset.offset())
    }

    fn get_long(&self, offset: FileOffset) -> (r: u32)
        requires
            self.wf(),
            offset.spec_offset() + 4 <= stats_start(),
        ensures
            r as nat == le32(self@.bytes, offset.spec_offset() as int),
    {
        self._get_long(offset.offset())
    }

    fn _get_short(&self, offset: usize) -> (r: u16)
        requires
            offset + 2 <= self@.bytes.len(),
        ensures
            r as nat == le16(self@.bytes, offset as int),
    {
        let _n = self.data.len();
        (self.data[offset + 0] as u16) + (self.data[offset + 1] as u16) * 0x100
    }

    fn _get_long(&self, offset: usize) -> (r: u32)
        requires
            offset + 4 <= self@.bytes.len(),
        ensures
            r as nat == le32(self@.bytes, offset as int),
    {
        let _n = self.data.len();
        (self.data[offset + 0] as u32) + (self.data[offset + 1] as u32) * 0x100 + (self.data[offset
            + 2] as u32) * 0x1_0000 + (self.data[offset + 3] as u32) * 0x100_0000
    }

    fn set(&mut self, offset: FileOffset, value: u32)
        requires
            old(self).wf(),
            offset.spec_offset() + 4 <= stats_start(),
        ensures
            final(self).wf(),
            final(self)@ == (SaveView {
                bytes: put_le32(old(self)@.bytes, offset.spec_offset() as int, value),
                ..old(self)@
            }),
    {
        write_long(&mut self.data, offset.offset(), value);
    }

    /// Finds the skills section: the first place, at or after the attribute block's
    /// start, where the bytes 0x69 0x66 stand.
    pub fn skills_offset(data: &Vec<u8>) -> (r: Option<usize>)
        ensures
            match r {
                Some(o) => is_first_marker(data@, o as nat),
                None => no_marker(data@),
            },
    {
        let mut offset = FileOffset::CharacterStats.offset();
        let n = data.len();
        while offset + 1 < n
            invariant
                n == data@.len(),
                stats_start() <= offset,
                offset == stats_start() || offset < data@.len(),
                forall|j: int| stats_start() <= j < offset ==> !is_marker(data@, j),
            decreases data@.len() - offset,
        {
            if data[offset] == 0x69 && data[offset + 1] == 0x66 {
                return Some(offset);
            }
            offset += 1;
        }
        None
    }
}

} // verus!
