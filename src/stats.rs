use vstd::prelude::*;

use crate::bits::{
    bits_value, decode, decode_into, encode, encode_bytes, lemma_bits_value_bound,
    lemma_bits_value_render, lemma_encode_len, lemma_round_trip, lemma_round_trip_bits,
    lemma_two_pow_32,
    lemma_two_pow_mono, lemma_value_bits_len, put_bits, read_bits, splice, two_pow, value_bits,
};
use crate::error::{FormatError, StatsError};

verus! {

/// The attribute kinds of the attribute block, in the order of their tag ids.
#[derive(Debug, PartialEq, Eq, Clone, Copy, Structural)]
pub enum StatsKind {
    Strength,
    Energy,
    Dexterity,
    Vitality,
    NewPoints,
    NewSkills,
    HitPoints,
    MaxHealth,
    Mana,
    MaxMana,
    Stamina,
    MaxStamina,
    Level,
    Experience,
    Gold,
    GoldStash,
}

/// The number of attribute kinds.
pub const KIND_COUNT: usize = 16;

/// The width of a tag id in bits.
pub const ID_SIZE: usize = 9;

/// The kind whose tag id is `id`, if any.
pub open spec fn kind_of_id(id: nat) -> Option<StatsKind> {
    if id == 0 {
        Some(StatsKind::Strength)
    } else if id == 1 {
        Some(StatsKind::Energy)
    } else if id == 2 {
        Some(StatsKind::Dexterity)
    } else if id == 3 {
        Some(StatsKind::Vitality)
    } else if id == 4 {
        Some(StatsKind::NewPoints)
    } else if id == 5 {
        Some(StatsKind::NewSkills)
    } else if id == 6 {
        Some(StatsKind::HitPoints)
    } else if id == 7 {
        Some(StatsKind::MaxHealth)
    } else if id == 8 {
        Some(StatsKind::Mana)
    } else if id == 9 {
        Some(StatsKind::MaxMana)
    } else if id == 10 {
        Some(StatsKind::Stamina)
    } else if id == 11 {
        Some(StatsKind::MaxStamina)
    } else if id == 12 {
        Some(StatsKind::Level)
    } else if id == 13 {
        Some(StatsKind::Experience)
    } else if id == 14 {
        Some(StatsKind::Gold)
    } else if id == 15 {
        Some(StatsKind::GoldStash)
    } else {
        None
    }
}

/// The kind at position `i` of the catalog, which is ordered by tag id.
pub open spec fn kind_at(i: int) -> StatsKind {
    match kind_of_id(i as nat) {
        Some(k) => k,
        None => StatsKind::GoldStash,
    }
}

impl StatsKind {
    /// The tag id that announces this kind in the attribute block.
    pub open spec fn spec_id(self) -> nat {
        match self {
            StatsKind::Strength => 0,
            StatsKind::Energy => 1,
            StatsKind::Dexterity => 2,
            StatsKind::Vitality => 3,
            StatsKind::NewPoints => 4,
            StatsKind::NewSkills => 5,
            StatsKind::HitPoints => 6,
            StatsKind::MaxHealth => 7,
            StatsKind::Mana => 8,
            StatsKind::MaxMana => 9,
            StatsKind::Stamina => 10,
            StatsKind::MaxStamina => 11,
            StatsKind::Level => 12,
            StatsKind::Experience => 13,
            StatsKind::Gold => 14,
            StatsKind::GoldStash => 15,
        }
    }

    /// The number of bits of this kind's value.
    pub open spec fn spec_width(self) -> nat {
        match self {
            StatsKind::NewSkills => 8,
            StatsKind::HitPoints | StatsKind::MaxHealth | StatsKind::Mana | StatsKind::MaxMana
            | StatsKind::Stamina | StatsKind::MaxStamina => 21,
            StatsKind::Level => 7,
            StatsKind::Experience => 32,
            StatsKind::Gold | StatsKind::GoldStash => 25,
            _ => 10,
        }
    }

    pub fn id(self) -> (r: u16)
        ensures
            r as nat == self.spec_id(),
    {
        match self {
            StatsKind::Strength => 0,
            StatsKind::Energy => 1,
            StatsKind::Dexterity => 2,
            StatsKind::Vitality => 3,
            StatsKind::NewPoints => 4,
            StatsKind::NewSkills => 5,
            StatsKind::HitPoints => 6,
            StatsKind::MaxHealth => 7,
            StatsKind::Mana => 8,
            StatsKind::MaxMana => 9,
            StatsKind::Stamina => 10,
            StatsKind::MaxStamina => 11,
            StatsKind::Level => 12,
            StatsKind::Experience => 13,
            StatsKind::Gold => 14,
            StatsKind::GoldStash => 15,
        }
    }

    pub fn from_id(id: u16) -> (r: Option<StatsKind>)
        ensures
            r == kind_of_id(id as nat),
    {
        match id {
            0 => Some(StatsKind::Strength),
            1 => Some(StatsKind::Energy),
            2 => Some(StatsKind::Dexterity),
            3 => Some(StatsKind::Vitality),
            4 => Some(StatsKind::NewPoints),
            5 => Some(StatsKind::NewSkills),
            6 => Some(StatsKind::HitPoints),
            7 => Some(StatsKind::MaxHealth),
            8 => Some(StatsKind::Mana),
            9 => Some(StatsKind::MaxMana),
            10 => Some(StatsKind::Stamina),
            11 => Some(StatsKind::MaxStamina),
            12 => Some(StatsKind::Level),
            13 => Some(StatsKind::Experience),
            14 => Some(StatsKind::Gold),
            15 => Some(StatsKind::GoldStash),
            _ => None,
        }
    }
}

pub proof fn lemma_kind_id(k: StatsKind)
    ensures
        kind_of_id(k.spec_id()) == Some(k),
        k.spec_id() < 16,
        kind_at(k.spec_id() as int) == k,
        k.spec_width() <= 32,
{
}

pub proof fn lemma_id_kind(id: nat)
    ensures
        kind_of_id(id) matches Some(k) ==> k.spec_id() == id,
        kind_of_id(id) is None <==> id >= 16,
{
}

/// What a field record holds, as the contracts speak of it.
pub struct FieldRecord {
    pub kind: StatsKind,
    /// Where the value starts in the logical bit sequence.
    pub offset: nat,
    pub value: nat,
    /// Whether the block holds this kind.
    pub present: bool,
}

/// The records before any parse: every kind, in catalog order, absent, value zero.
pub open spec fn empty_records() -> Seq<FieldRecord> {
    Seq::new(
        16,
        |i: int| FieldRecord { kind: kind_at(i), offset: 0, value: 0, present: false },
    )
}

/// One record per kind in catalog order, and each present value fits its width.
pub open spec fn records_valid(recs: Seq<FieldRecord>) -> bool {
    &&& recs.len() == 16
    &&& forall|i: int|
        0 <= i < 16 ==> {
            &&& (#[trigger] recs[i]).kind == kind_at(i)
            &&& recs[i].present ==> recs[i].value < two_pow(recs[i].kind.spec_width())
        }
}

/// Every present record's span lies within a block of `n` bytes.
pub open spec fn records_fit(recs: Seq<FieldRecord>, n: nat) -> bool {
    forall|i: int|
        0 <= i < recs.len() && (#[trigger] recs[i]).present ==> recs[i].offset
            + recs[i].kind.spec_width() <= 8 * n
}

/// The scan of the attribute block, from `cursor` towards the head of `bits`: a tag id
/// before the cursor, then its kind's value before the tag, until the terminal kind
/// has been read or fewer than a tag's bits remain.
pub open spec fn parse_from(bits: Seq<bool>, cursor: nat, recs: Seq<FieldRecord>) -> Result<
    Seq<FieldRecord>,
    FormatError,
>
    decreases cursor,
{
    if cursor < 9 || cursor > bits.len() {
        Ok(recs)
    } else {
        let tag_at = (cursor - 9) as nat;
        let id = bits_value(bits.subrange(tag_at as int, cursor as int));
        match kind_of_id(id) {
            None => Err(FormatError::UnknownTag(id as u16)),
            Some(k) => {
                if tag_at < k.spec_width() {
                    Err(FormatError::TruncatedField)
                } else {
                    let off = (tag_at - k.spec_width()) as nat;
                    let rec = FieldRecord {
                        kind: k,
                        offset: off,
                        value: bits_value(bits.subrange(off as int, tag_at as int)),
                        present: true,
                    };
                    let next = recs.update(k.spec_id() as int, rec);
                    if k == StatsKind::GoldStash {
                        Ok(next)
                    } else {
                        parse_from(bits, off, next)
                    }
                }
            },
        }
    }
}

/// The records that parsing the attribute block `data` yields.
pub open spec fn parse_block(data: Seq<u8>) -> Result<Seq<FieldRecord>, FormatError> {
    parse_from(encode(data), 8 * data.len(), empty_records())
}

/// `bits` with a present record's value written over its span.
pub open spec fn overwrite(bits: Seq<bool>, rec: FieldRecord) -> Seq<bool> {
    if rec.present {
        splice(bits, rec.offset as int, value_bits(rec.value, rec.kind.spec_width()))
    } else {
        bits
    }
}

/// `bits` with every present record written over its span, in order.
pub open spec fn write_records(bits: Seq<bool>, recs: Seq<FieldRecord>) -> Seq<bool>
    decreases recs.len(),
{
    if recs.len() == 0 {
        bits
    } else {
        overwrite(write_records(bits, recs.drop_last()), recs.last())
    }
}

/// The attribute block `data` after writing back `recs`.
pub open spec fn save_block(recs: Seq<FieldRecord>, data: Seq<u8>) -> Seq<u8> {
    decode(write_records(encode(data), recs))
}

/// Each present record's span lies in `bits` and holds its value.
pub open spec fn records_match(bits: Seq<bool>, recs: Seq<FieldRecord>) -> bool {
    forall|i: int|
        0 <= i < recs.len() && (#[trigger] recs[i]).present ==> {
            &&& recs[i].offset + recs[i].kind.spec_width() <= bits.len()
            &&& recs[i].value == bits_value(
                bits.subrange(recs[i].offset as int, (recs[i].offset + recs[i].kind.spec_width()) as int),
            )
        }
}

proof fn lemma_parse_match(bits: Seq<bool>, cursor: nat, recs: Seq<FieldRecord>)
    requires
        cursor <= bits.len(),
        records_valid(recs),
        records_match(bits, recs),
    ensures
        parse_from(bits, cursor, recs) matches Ok(r) ==> records_valid(r) && records_match(bits, r),
    decreases cursor,
{
    if cursor >= 9 {
        let tag_at = (cursor - 9) as nat;
        let id = bits_value(bits.subrange(tag_at as int, cursor as int));
        if let Some(k) = kind_of_id(id) {
            if tag_at >= k.spec_width() {
                lemma_kind_id(k);
                lemma_id_kind(id);
                let off = (tag_at - k.spec_width()) as nat;
                let sub = bits.subrange(off as int, tag_at as int);
                lemma_bits_value_bound(sub);
                let rec = FieldRecord { kind: k, offset: off, value: bits_value(sub), present: true };
                let next = recs.update(k.spec_id() as int, rec);
                assert(records_valid(next));
                assert(records_match(bits, next));
                if k != StatsKind::GoldStash {
                    lemma_parse_match(bits, off, next);
                }
            }
        }
    }
}

proof fn lemma_write_matching(bits: Seq<bool>, recs: Seq<FieldRecord>)
    requires
        records_match(bits, recs),
    ensures
        write_records(bits, recs) == bits,
    decreases recs.len(),
{
    if recs.len() > 0 {
        let init = recs.drop_last();
        assert(records_match(bits, init)) by {
            assert forall|i: int| 0 <= i < init.len() && (#[trigger] init[i]).present implies {
                &&& init[i].offset + init[i].kind.spec_width() <= bits.len()
                &&& init[i].value == bits_value(
                    bits.subrange(init[i].offset as int, (init[i].offset + init[i].kind.spec_width()) as int),
                )
            } by {
                assert(init[i] == recs[i]);
            }
        }
        lemma_write_matching(bits, init);
        let rec = recs.last();
        assert(rec == recs[recs.len() - 1]);
        if rec.present {
            let sub = bits.subrange(rec.offset as int, (rec.offset + rec.kind.spec_width()) as int);
            lemma_bits_value_render(sub);
            assert(overwrite(bits, rec) =~= bits);
        }
    }
}

/// Parsing a block and writing its records back unmodified leaves the bytes as they
/// were, so parsing again gives the same records, values and offsets alike.
pub proof fn lemma_write_back_unmodified(data: Seq<u8>)
    requires
        parse_block(data) is Ok,
    ensures
        save_block(parse_block(data)->Ok_0, data) == data,
        parse_block(save_block(parse_block(data)->Ok_0, data)) == parse_block(data),
{
    let bits = encode(data);
    lemma_encode_len(data);
    assert(records_valid(empty_records()));
    assert(records_match(bits, empty_records()));
    lemma_parse_match(bits, 8 * data.len(), empty_records());
    lemma_write_matching(bits, parse_block(data)->Ok_0);
    lemma_round_trip(data);
}

/// Scanning stops right after the terminal kind's value: once its tag stands before the
/// cursor, no bit further towards the head of the sequence is read.
pub proof fn lemma_terminal_stops(bits: Seq<bool>, cursor: nat, recs: Seq<FieldRecord>)
    requires
        34 <= cursor <= bits.len(),
        bits_value(bits.subrange(cursor - 9, cursor as int)) == StatsKind::GoldStash.spec_id(),
    ensures
        parse_from(bits, cursor, recs) == Ok::<Seq<FieldRecord>, FormatError>(
            recs.update(
                15,
                FieldRecord {
                    kind: StatsKind::GoldStash,
                    offset: (cursor - 34) as nat,
                    value: bits_value(bits.subrange(cursor - 34, cursor - 9)),
                    present: true,
                },
            ),
        ),
{
}

/// The spans of two records do not overlap.
pub open spec fn spans_disjoint(a: FieldRecord, b: FieldRecord) -> bool {
    a.offset + a.kind.spec_width() <= b.offset || b.offset + b.kind.spec_width() <= a.offset
}

/// No two present records share a bit.
pub open spec fn records_disjoint(recs: Seq<FieldRecord>) -> bool {
    forall|i: int, j: int|
        #![trigger recs[i], recs[j]]
        0 <= i < recs.len() && 0 <= j < recs.len() && i != j && recs[i].present
            && recs[j].present ==> spans_disjoint(recs[i], recs[j])
}

proof fn lemma_parse_disjoint(bits: Seq<bool>, cursor: nat, recs: Seq<FieldRecord>)
    requires
        records_valid(recs),
        records_disjoint(recs),
        forall|i: int| 0 <= i < recs.len() && (#[trigger] recs[i]).present ==> cursor <= recs[i].offset,
    ensures
        parse_from(bits, cursor, recs) matches Ok(r) ==> records_disjoint(r),
    decreases cursor,
{
    if 9 <= cursor <= bits.len() {
        let tag_at = (cursor - 9) as nat;
        let id = bits_value(bits.subrange(tag_at as int, cursor as int));
        if let Some(k) = kind_of_id(id) {
            if tag_at >= k.spec_width() {
                lemma_kind_id(k);
                let off = (tag_at - k.spec_width()) as nat;
                let rec = FieldRecord {
                    kind: k,
                    offset: off,
                    value: bits_value(bits.subrange(off as int, tag_at as int)),
                    present: true,
                };
                let next = recs.update(k.spec_id() as int, rec);
                assert(records_disjoint(next));
                if k != StatsKind::GoldStash {
                    lemma_bits_value_bound(bits.subrange(off as int, tag_at as int));
                    assert(records_valid(next));
                    lemma_parse_disjoint(bits, off, next);
                }
            }
        }
    }
}

proof fn lemma_write_single(
    bits: Seq<bool>,
    recs: Seq<FieldRecord>,
    i: int,
    off: nat,
    w: nat,
)
    requires
        0 <= i,
        off + w <= bits.len(),
        i < recs.len() ==> recs[i].present && recs[i].offset == off && recs[i].kind.spec_width()
            == w,
        forall|j: int|
            0 <= j < recs.len() && j != i && (#[trigger] recs[j]).present ==> {
                &&& recs[j].offset + recs[j].kind.spec_width() <= off || off + w <= recs[j].offset
                &&& recs[j].offset + recs[j].kind.spec_width() <= bits.len()
                &&& recs[j].value == bits_value(
                    bits.subrange(
                        recs[j].offset as int,
                        (recs[j].offset + recs[j].kind.spec_width()) as int,
                    ),
                )
            },
    ensures
        write_records(bits, recs) == if i < recs.len() {
            splice(bits, off as int, value_bits(recs[i].value, w))
        } else {
            bits
        },
    decreases recs.len(),
{
    if recs.len() > 0 {
        let init = recs.drop_last();
        let last = recs.len() - 1;
        assert forall|j: int| 0 <= j < init.len() && j != i && (#[trigger] init[j]).present implies {
            &&& init[j].offset + init[j].kind.spec_width() <= off || off + w <= init[j].offset
            &&& init[j].offset + init[j].kind.spec_width() <= bits.len()
            &&& init[j].value == bits_value(
                bits.subrange(
                    init[j].offset as int,
                    (init[j].offset + init[j].kind.spec_width()) as int,
                ),
            )
        } by {
            assert(init[j] == recs[j]);
        }
        lemma_write_single(bits, init, i, off, w);
        let prev = write_records(bits, init);
        let rec = recs[last];
        if i == last {
            lemma_value_bits_len(rec.value, w);
            assert(i >= init.len());
        } else if rec.present {
            let rw = rec.kind.spec_width();
            let sub = bits.subrange(rec.offset as int, (rec.offset + rw) as int);
            lemma_bits_value_render(sub);
            if i < recs.len() {
                lemma_value_bits_len(recs[i].value, w);
            }
            assert(overwrite(prev, rec) =~= prev);
        }
    }
}

/// Changing one present field of a parsed block and writing the records back alters
/// that field's span of the logical bit sequence and no other bit.
pub proof fn lemma_set_changes_only_span(data: Seq<u8>, i: int, v: nat)
    requires
        parse_block(data) is Ok,
        0 <= i < 16,
        parse_block(data)->Ok_0[i].present,
        v < two_pow(parse_block(data)->Ok_0[i].kind.spec_width()),
    ensures
        ({
            let recs = parse_block(data)->Ok_0;
            let r = recs[i];
            encode(save_block(recs.update(i, FieldRecord { value: v, ..r }), data)) == splice(
                encode(data),
                r.offset as int,
                value_bits(v, r.kind.spec_width()),
            )
        }),
{
    let bits = encode(data);
    let recs = parse_block(data)->Ok_0;
    let r = recs[i];
    let w = r.kind.spec_width();
    lemma_encode_len(data);
    assert(records_valid(empty_records()));
    assert(records_match(bits, empty_records()));
    assert(records_disjoint(empty_records()));
    lemma_parse_match(bits, 8 * data.len(), empty_records());
    lemma_parse_disjoint(bits, 8 * data.len(), empty_records());
    let changed = recs.update(i, FieldRecord { value: v, ..r });
    assert forall|j: int|
        0 <= j < changed.len() && j != i && (#[trigger] changed[j]).present implies {
        &&& changed[j].offset + changed[j].kind.spec_width() <= r.offset || r.offset + w
            <= changed[j].offset
        &&& changed[j].offset + changed[j].kind.spec_width() <= bits.len()
        &&& changed[j].value == bits_value(
            bits.subrange(
                changed[j].offset as int,
                (changed[j].offset + changed[j].kind.spec_width()) as int,
            ),
        )
    } by {
        assert(changed[j] == recs[j]);
        assert(spans_disjoint(recs[i], recs[j]));
    }
    lemma_write_single(bits, changed, i, r.offset, w);
    let written = write_records(bits, changed);
    lemma_value_bits_len(v, w);
    assert(written.len() == bits.len());
    lemma_round_trip_bits(written);
}

/// A tag id that names no kind fails the whole parse with that id.
pub proof fn lemma_unknown_tag_fails(bits: Seq<bool>, cursor: nat, recs: Seq<FieldRecord>)
    requires
        9 <= cursor <= bits.len(),
        kind_of_id(bits_value(bits.subrange(cursor - 9, cursor as int))) is None,
    ensures
        parse_from(bits, cursor, recs) == Err::<Seq<FieldRecord>, FormatError>(
            FormatError::UnknownTag(bits_value(bits.subrange(cursor - 9, cursor as int)) as u16),
        ),
{
}

/// One attribute of the block: its kind, width, where its value lies, and the value.
#[derive(Clone, Copy)]
pub struct StatsInfo {
    kind: StatsKind,
    size: usize,
    offset: usize,
    value: u32,
    present: bool,
}

impl View for StatsInfo {
    type V = FieldRecord;

    closed spec fn view(&self) -> FieldRecord {
        FieldRecord {
            kind: self.kind,
            offset: self.offset as nat,
            value: self.value as nat,
            present: self.present,
        }
    }
}

/// The records of `v` as the contracts see them.
pub open spec fn records_of(v: Seq<StatsInfo>) -> Seq<FieldRecord> {
    v.map_values(|s: StatsInfo| s@)
}

/// The record vector is the catalog with each size equal to its kind's width.
spec fn records_ok(v: Seq<StatsInfo>) -> bool {
    &&& records_valid(records_of(v))
    &&& forall|i: int| 0 <= i < v.len() ==> (#[trigger] v[i]).size == v[i].kind.spec_width()
}

impl StatsInfo {
    fn new(kind: StatsKind, size: usize) -> (r: Self)
        ensures
            r@ == (FieldRecord { kind, offset: 0, value: 0, present: false }),
            r.size == size,
    {
        StatsInfo { kind, size, offset: 0, value: 0, present: false }
    }

    pub fn kind(&self) -> (r: StatsKind)
        ensures
            r == self@.kind,
    {
        self.kind
    }

    pub fn value(&self) -> (r: u32)
        ensures
            r as nat == self@.value,
    {
        self.value
    }

    /// Where the value starts in the block's logical bit sequence.
    pub fn offset(&self) -> (r: usize)
        ensures
            r as nat == self@.offset,
    {
        self.offset
    }

    pub fn is_present(&self) -> (r: bool)
        ensures
            r == self@.present,
    {
        self.present
    }
}

/// The attribute block of one save file: a record for every kind.
#[derive(Clone)]
pub struct Stats {
    stats: Vec<StatsInfo>,
}

impl View for Stats {
    type V = Seq<FieldRecord>;

    closed spec fn view(&self) -> Seq<FieldRecord> {
        records_of(self.stats@)
    }
}

/// Whether `value` fits in `width` bits.
fn fits_width(value: u32, width: usize) -> (r: bool)
    requires
        width <= 32,
    ensures
        r == (value < two_pow(width as nat)),
{
    let mut limit: u64 = 1;
    let mut i: usize = 0;
    while i < width
        invariant
            i <= width <= 32,
            limit == two_pow(i as nat),
        decreases width - i,
    {
        proof {
            lemma_two_pow_mono((i + 1) as nat, 32);
            lemma_two_pow_32();
        }
        limit = limit * 2;
        i = i + 1;
    }
    (value as u64) < limit
}

impl Stats {
    pub closed spec fn wf(&self) -> bool {
        records_ok(self.stats@)
    }

    /// A well-formed block holds one record per kind, in catalog order, and every
    /// present value fits in its kind's width.
    pub proof fn lemma_wf(&self)
        requires
            self.wf(),
        ensures
            records_valid(self@),
    {
    }

    pub fn new() -> (r: Self)
        ensures
            r.wf(),
            r@ == empty_records(),
    {
        Stats { stats: Stats::stats_info() }
    }

    /// Parses an attribute block.
    pub fn load(data: &[u8]) -> (r: Result<Self, FormatError>)
        requires
            8 * data@.len() <= usize::MAX,
        ensures
            match r {
                Ok(s) => s.wf() && parse_block(data@) == Ok::<Seq<FieldRecord>, FormatError>(s@)
                    && records_fit(s@, data@.len() as nat),
                Err(e) => parse_block(data@) == Err::<Seq<FieldRecord>, FormatError>(e),
            },
    {
        let mut stats = Stats::new();
        let res = Stats::parse_stats(data, &mut stats.stats);
        proof {
            let bits = encode(data@);
            lemma_encode_len(data@);
            assert(records_valid(empty_records()));
            assert(records_match(bits, empty_records()));
            lemma_parse_match(bits, 8 * data@.len(), empty_records());
        }
        match res {
            Ok(()) => {
                proof {
                    let recs = stats@;
                    assert forall|i: int|
                        0 <= i < recs.len() && (#[trigger] recs[i]).present implies recs[i].offset
                        + recs[i].kind.spec_width() <= 8 * data@.len() by {}
                }
                Ok(stats)
            },
            Err(e) => Err(e),
        }
    }

    /// Writes the value of every present record over its span of the block `data`,
    /// leaving every other bit as it was.
    pub fn save(&self, data: &mut Vec<u8>)
        requires
            self.wf(),
            records_fit(self@, old(data)@.len() as nat),
            8 * old(data)@.len() <= usize::MAX,
        ensures
            final(data)@ == save_block(self@, old(data)@),
            final(data)@.len() == old(data)@.len(),
    {
        let mut bits = encode_bytes(data.as_slice());
        let ghost start = bits@;
        proof {
            lemma_encode_len(old(data)@);
        }
        let mut i: usize = 0;
        while i < KIND_COUNT
            invariant
                self.wf(),
                records_fit(self@, old(data)@.len() as nat),
                i <= KIND_COUNT,
                bits@.len() == start.len(),
                start.len() == 8 * old(data)@.len(),
                data@ == old(data)@,
                start == encode(old(data)@),
                bits@ == write_records(start, self@.subrange(0, i as int)),
            decreases KIND_COUNT - i,
        {
            let s = &self.stats[i];
            let ghost prev = bits@;
            proof {
                assert(self@[i as int] == s@);
                lemma_kind_id(s.kind);
            }
            if s.present {
                put_bits(&mut bits, s.offset, s.value, s.size);
                proof {
                    lemma_value_bits_len(s.value as nat, s.size as nat);
                }
            }
            proof {
                assert(self@.subrange(0, i + 1).drop_last() =~= self@.subrange(0, i as int));
            }
            i = i + 1;
        }
        assert(self@.subrange(0, 16) =~= self@);
        let written = decode_into(data, &bits);
        assert(written is Ok);
        assert(old(data)@.subrange(0, 0) + decode(bits@) =~= decode(bits@));
    }

    pub fn stats(&self) -> (r: &Vec<StatsInfo>)
        ensures
            records_of(r@) == self@,
    {
        &self.stats
    }

    /// Changes the value of a kind that the block holds; nothing is written until `save`.
    pub fn set(&mut self, kind: StatsKind, value: u32) -> (r: Result<(), StatsError>)
        requires
            old(self).wf(),
        ensures
            final(self).wf(),
            ({
                let i = kind.spec_id() as int;
                let before = old(self)@[i];
                let after = final(self)@;
                match r {
                    Ok(()) => before.present && value < two_pow(kind.spec_width())
                        && after == old(self)@.update(i, FieldRecord { value: value as nat, ..before }),
                    Err(StatsError::NotPresent) => !before.present && after == old(self)@,
                    Err(StatsError::ValueTooLarge) => before.present
                        && value >= two_pow(kind.spec_width()) && after == old(self)@,
                }
            }),
    {
        let idx = kind.id() as usize;
        proof {
            lemma_kind_id(kind);
            assert(self@[idx as int] == self.stats@[idx as int]@);
        }
        let s = self.stats[idx];
        if !s.present {
            return Err(StatsError::NotPresent);
        }
        if !fits_width(value, s.size) {
            return Err(StatsError::ValueTooLarge);
        }
        self.stats.set(idx, StatsInfo { value, ..s });
        assert(self@ =~= old(self)@.update(
            idx as int,
            FieldRecord { value: value as nat, ..old(self)@[idx as int] },
        ));
        Ok(())
    }

    /// The catalog: every kind with its width, none of them present.
    fn stats_info() -> (r: Vec<StatsInfo>)
        ensures
            records_ok(r@),
            records_of(r@) == empty_records(),
    {
        let mut stats = Vec::new();
        stats.push(StatsInfo::new(StatsKind::Strength, 10));
        stats.push(StatsInfo::new(StatsKind::Energy, 10));
        stats.push(StatsInfo::new(StatsKind::Dexterity, 10));
        stats.push(StatsInfo::new(StatsKind::Vitality, 10));
        stats.push(StatsInfo::new(StatsKind::NewPoints, 10));
        stats.push(StatsInfo::new(StatsKind::NewSkills, 8));
        stats.push(StatsInfo::new(StatsKind::HitPoints, 21));
        stats.push(StatsInfo::new(StatsKind::MaxHealth, 21));
        stats.push(StatsInfo::new(StatsKind::Mana, 21));
        stats.push(StatsInfo::new(StatsKind::MaxMana, 21));
        stats.push(StatsInfo::new(StatsKind::Stamina, 21));
        stats.push(StatsInfo::new(StatsKind::MaxStamina, 21));
        stats.push(StatsInfo::new(StatsKind::Level, 7));
        stats.push(StatsInfo::new(StatsKind::Experience, 32));
        stats.push(StatsInfo::new(StatsKind::Gold, 25));
        stats.push(StatsInfo::new(StatsKind::GoldStash, 25));
        assert(records_of(stats@) =~= empty_records());
        stats
    }

    /// Scans the attribute block `data` into `stats`.
    fn parse_stats(data: &[u8], stats: &mut Vec<StatsInfo>) -> (r: Result<(), FormatError>)
        requires
            8 * data@.len() <= usize::MAX,
            records_ok(old(stats)@),
        ensures
            records_ok(final(stats)@),
            match r {
                Ok(()) => parse_from(encode(data@), 8 * data@.len(), records_of(old(stats)@))
                    == Ok::<Seq<FieldRecord>, FormatError>(records_of(final(stats)@)),
                Err(e) => parse_from(encode(data@), 8 * data@.len(), records_of(old(stats)@))
                    == Err::<Seq<FieldRecord>, FormatError>(e),
            },
    {
        let binary_stream = encode_bytes(data);
        proof {
            lemma_encode_len(data@);
        }
        let mut offset: usize = binary_stream.len();
        while offset >= ID_SIZE
            invariant
                binary_stream@ == encode(data@),
                binary_stream@.len() == 8 * data@.len(),
                offset <= binary_stream@.len(),
                records_ok(stats@),
                parse_from(encode(data@), 8 * data@.len(), records_of(old(stats)@)) == parse_from(
                    binary_stream@,
                    offset as nat,
                    records_of(stats@),
                ),
            decreases offset,
        {
            offset = offset - ID_SIZE;
            let raw = read_bits(&binary_stream, offset, ID_SIZE);
            proof {
                lemma_bits_value_bound(binary_stream@.subrange(offset as int, offset + 9));
                lemma_two_pow_32();
            }
            let id = raw as u16;
            match StatsKind::from_id(id) {
                None => {
                    return Err(FormatError::UnknownTag(id));
                },
                Some(kind) => {
                    proof {
                        lemma_id_kind(id as nat);
                        lemma_kind_id(kind);
                    }
                    let idx = kind.id() as usize;
                    let size = stats[idx].size;
                    proof {
                        assert(records_of(stats@)[idx as int] == stats@[idx as int]@);
                        assert(size == kind.spec_width());
                    }
                    if offset < size {
                        return Err(FormatError::TruncatedField);
                    }
                    let tag_at = offset;
                    offset = offset - size;
                    let value = read_bits(&binary_stream, offset, size);
                    proof {
                        lemma_bits_value_bound(binary_stream@.subrange(offset as int, tag_at as int));
                    }
                    let ghost before = stats@;
                    stats.set(idx, StatsInfo { kind, size, offset, value, present: true });
                    proof {
                        assert forall|i: int| 0 <= i < stats@.len() implies (#[trigger] stats@[i]).size
                            == stats@[i].kind.spec_width() by {
                            if i != idx {
                                assert(stats@[i] == before[i]);
                            }
                        }
                        assert forall|i: int| 0 <= i < 16 implies {
                            &&& (#[trigger] records_of(stats@)[i]).kind == kind_at(i)
                            &&& records_of(stats@)[i].present ==> records_of(stats@)[i].value
                                < two_pow(records_of(stats@)[i].kind.spec_width())
                        } by {
                            assert(records_of(stats@)[i] == stats@[i]@);
                            assert(records_of(before)[i] == before[i]@);
                        }
                    }
                    assert(records_of(stats@) =~= records_of(before).update(
                        idx as int,
                        FieldRecord {
                            kind,
                            offset: offset as nat,
                            value: value as nat,
                            present: true,
                        },
                    ));
                    if kind == StatsKind::GoldStash {
                        return Ok(());
                    }
                },
            }
        }
        Ok(())
    }
}

} // verus!
