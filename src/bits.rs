use vstd::prelude::*;

use crate::error::FormatError;

verus! {

/// Two to the power `n`.
pub open spec fn two_pow(n: nat) -> nat
    decreases n,
{
    if n == 0 {
        1
    } else {
        2 * two_pow((n - 1) as nat)
    }
}

/// The value of a bit string read most-significant-bit first.
pub open spec fn bits_value(s: Seq<bool>) -> nat
    decreases s.len(),
{
    if s.len() == 0 {
        0
    } else {
        2 * bits_value(s.drop_last()) + if s.last() { 1nat } else { 0nat }
    }
}

/// The `w` low bits of `v`, most significant first.
pub open spec fn value_bits(v: nat, w: nat) -> Seq<bool>
    decreases w,
{
    if w == 0 {
        Seq::empty()
    } else {
        value_bits(v / 2, (w - 1) as nat).push(v % 2 == 1)
    }
}

/// The logical bit sequence of a byte range: bytes from the highest address down,
/// each byte's bits most significant first.
pub open spec fn encode(data: Seq<u8>) -> Seq<bool>
    decreases data.len(),
{
    if data.len() == 0 {
        Seq::empty()
    } else {
        value_bits(data.last() as nat, 8) + encode(data.drop_last())
    }
}

/// The bytes of a logical bit sequence: each group of eight bits, from the start,
/// becomes one byte, placed from the highest address down.
pub open spec fn decode(bits: Seq<bool>) -> Seq<u8>
    decreases bits.len(),
{
    if bits.len() < 8 {
        Seq::empty()
    } else {
        decode(bits.subrange(8, bits.len() as int)).push(
            bits_value(bits.subrange(0, 8)) as u8,
        )
    }
}

/// `bits` with the span starting at `off` replaced by `v`.
pub open spec fn splice(bits: Seq<bool>, off: int, v: Seq<bool>) -> Seq<bool> {
    Seq::new(
        bits.len(),
        |i: int|
            if off <= i < off + v.len() {
                v[i - off]
            } else {
                bits[i]
            },
    )
}

pub proof fn lemma_two_pow_32()
    ensures
        two_pow(32) == 0x1_0000_0000,
        two_pow(8) == 256,
        two_pow(9) == 512,
{
    reveal_with_fuel(two_pow, 33);
}

pub proof fn lemma_two_pow_mono(a: nat, b: nat)
    requires
        a <= b,
    ensures
        1 <= two_pow(a) <= two_pow(b),
    decreases b,
{
    if b > 0 {
        if a < b {
            lemma_two_pow_mono(a, (b - 1) as nat);
        } else {
            lemma_two_pow_mono((b - 1) as nat, (b - 1) as nat);
        }
    }
}

pub proof fn lemma_bits_value_bound(s: Seq<bool>)
    ensures
        bits_value(s) < two_pow(s.len()),
    decreases s.len(),
{
    if s.len() > 0 {
        lemma_bits_value_bound(s.drop_last());
    }
}

pub proof fn lemma_value_bits_len(v: nat, w: nat)
    ensures
        value_bits(v, w).len() == w,
    decreases w,
{
    if w > 0 {
        lemma_value_bits_len(v / 2, (w - 1) as nat);
    }
}

/// Rendering a value that fits in `w` bits and reading it back gives the value.
pub proof fn lemma_value_bits_read(v: nat, w: nat)
    requires
        v < two_pow(w),
    ensures
        bits_value(value_bits(v, w)) == v,
    decreases w,
{
    if w > 0 {
        lemma_value_bits_read(v / 2, (w - 1) as nat);
        lemma_value_bits_len(v / 2, (w - 1) as nat);
        assert(value_bits(v, w).drop_last() =~= value_bits(v / 2, (w - 1) as nat));
    }
}

/// Reading a bit string and rendering the value at the same width gives the string back.
pub proof fn lemma_bits_value_render(s: Seq<bool>)
    ensures
        value_bits(bits_value(s), s.len()) == s,
    decreases s.len(),
{
    if s.len() > 0 {
        let v = bits_value(s);
        lemma_bits_value_render(s.drop_last());
        assert(v / 2 == bits_value(s.drop_last()));
        lemma_value_bits_len(v / 2, (s.len() - 1) as nat);
        assert(value_bits(v, s.len()) =~= s);
    }
}

pub proof fn lemma_encode_len(data: Seq<u8>)
    ensures
        encode(data).len() == 8 * data.len(),
    decreases data.len(),
{
    if data.len() > 0 {
        lemma_encode_len(data.drop_last());
        lemma_value_bits_len(data.last() as nat, 8);
    }
}

/// Appending a group of eight bits puts its byte at the low end of the decoded range.
pub proof fn lemma_decode_append(b: Seq<bool>, g: Seq<bool>)
    requires
        b.len() % 8 == 0,
        g.len() == 8,
    ensures
        decode(b + g) == seq![bits_value(g) as u8] + decode(b),
    decreases b.len(),
{
    if b.len() == 0 {
        assert((b + g).subrange(8, 8) =~= Seq::<bool>::empty());
        assert((b + g).subrange(0, 8) =~= g);
        assert(decode(Seq::<bool>::empty()) =~= Seq::<u8>::empty());
        assert(decode(b + g) =~= seq![bits_value(g) as u8] + decode(b));
    } else {
        let rest = b.subrange(8, b.len() as int);
        lemma_decode_append(rest, g);
        assert((b + g).subrange(8, (b + g).len() as int) =~= rest + g);
        assert((b + g).subrange(0, 8) =~= b.subrange(0, 8));
        assert(decode(b + g) =~= seq![bits_value(g) as u8] + decode(b));
    }
}

/// Decoding the logical bit sequence of a byte range gives the bytes back.
pub proof fn lemma_round_trip(data: Seq<u8>)
    ensures
        decode(encode(data)) == data,
    decreases data.len(),
{
    if data.len() > 0 {
        let head = value_bits(data.last() as nat, 8);
        let tail = encode(data.drop_last());
        lemma_round_trip(data.drop_last());
        lemma_value_bits_len(data.last() as nat, 8);
        lemma_encode_len(data.drop_last());
        lemma_two_pow_32();
        lemma_value_bits_read(data.last() as nat, 8);
        assert((head + tail).subrange(8, (head + tail).len() as int) =~= tail);
        assert((head + tail).subrange(0, 8) =~= head);
        assert(decode(encode(data)) =~= data);
    }
}

/// Encoding the bytes of a whole-byte bit sequence gives the sequence back.
pub proof fn lemma_round_trip_bits(bits: Seq<bool>)
    requires
        bits.len() % 8 == 0,
    ensures
        encode(decode(bits)) == bits,
    decreases bits.len(),
{
    if bits.len() > 0 {
        let rest = bits.subrange(8, bits.len() as int);
        let g = bits.subrange(0, 8);
        lemma_round_trip_bits(rest);
        lemma_bits_value_bound(g);
        lemma_two_pow_32();
        lemma_bits_value_render(g);
        let d = decode(bits);
        assert(d.drop_last() =~= decode(rest));
        assert(encode(d) =~= bits);
    }
}

/// Reads `w` bits starting at `off` as an unsigned number, most significant bit first.
pub fn read_bits(bits: &Vec<bool>, off: usize, w: usize) -> (r: u32)
    requires
        w <= 32,
        off + w <= bits@.len(),
    ensures
        r as nat == bits_value(bits@.subrange(off as int, off + w)),
    decreases w,
{
    let _n = bits.len();
    proof {
        lemma_bits_value_bound(bits@.subrange(off as int, off + w));
        lemma_two_pow_mono(w as nat, 32);
        lemma_two_pow_32();
    }
    if w == 0 {
        assert(bits@.subrange(off as int, off as int) =~= Seq::<bool>::empty());
        0
    } else {
        let high = read_bits(bits, off, w - 1);
        assert(bits@.subrange(off as int, off + w).drop_last() =~= bits@.subrange(
            off as int,
            off + w - 1,
        ));
        let low: u32 = if bits[off + w - 1] {
            1
        } else {
            0
        };
        2 * high + low
    }
}

/// Writes the `w` low bits of `v` over the span of `bits` that starts at `off`.
pub fn put_bits(bits: &mut Vec<bool>, off: usize, v: u32, w: usize)
    requires
        off + w <= old(bits)@.len(),
    ensures
        final(bits)@ == splice(old(bits)@, off as int, value_bits(v as nat, w as nat)),
    decreases w,
{
    let _n = bits.len();
    proof {
        lemma_value_bits_len(v as nat, w as nat);
    }
    if w == 0 {
        assert(bits@ =~= splice(old(bits)@, off as int, value_bits(v as nat, w as nat)));
    } else {
        bits.set(off + w - 1, v % 2 == 1);
        put_bits(bits, off, v / 2, w - 1);
        proof {
            lemma_value_bits_len((v / 2) as nat, (w - 1) as nat);
        }
        assert(bits@ =~= splice(old(bits)@, off as int, value_bits(v as nat, w as nat)));
    }
}

/// Appends the `w` low bits of `v`, most significant first.
pub fn push_bits(bits: &mut Vec<bool>, v: u32, w: usize)
    requires
        old(bits)@.len() + w <= usize::MAX,
    ensures
        final(bits)@ == old(bits)@ + value_bits(v as nat, w as nat),
{
    let start = bits.len();
    let mut i: usize = 0;
    while i < w
        invariant
            i <= w,
            start + w <= usize::MAX,
            bits@.len() == start + i,
            bits@.subrange(0, start as int) == old(bits)@,
        decreases w - i,
    {
        bits.push(false);
        i = i + 1;
        assert(bits@.subrange(0, start as int) =~= old(bits)@);
    }
    put_bits(bits, start, v, w);
    proof {
        lemma_value_bits_len(v as nat, w as nat);
    }
    assert(bits@ =~= old(bits)@ + value_bits(v as nat, w as nat));
}

/// The logical bit sequence of `data`.
pub fn encode_bytes(data: &[u8]) -> (r: Vec<bool>)
    requires
        8 * data@.len() <= usize::MAX,
    ensures
        r@ == encode(data@),
{
    let n = data.len();
    let mut bits: Vec<bool> = Vec::new();
    let mut k: usize = 0;
    proof {
        assert(data@.subrange(0, n as int) =~= data@);
    }
    while k < n
        invariant
            k <= n,
            n == data@.len(),
            8 * n <= usize::MAX,
            bits@.len() == 8 * k,
            bits@ + encode(data@.subrange(0, n - k)) == encode(data@),
        decreases n - k,
    {
        let ghost before = bits@;
        let ghost rest = data@.subrange(0, n - k);
        push_bits(&mut bits, data[n - 1 - k] as u32, 8);
        proof {
            lemma_value_bits_len(data[n - 1 - k] as nat, 8);
            assert(rest.drop_last() =~= data@.subrange(0, n - k - 1));
            assert(rest.last() == data[n - 1 - k]);
            assert(bits@ + encode(data@.subrange(0, n - k - 1)) =~= before + encode(rest));
        }
        k = k + 1;
    }
    assert(bits@ + encode(data@.subrange(0, 0)) =~= bits@);
    bits
}

/// Writes the bytes of `bits` into `data`, from its highest address down.
pub fn decode_into(data: &mut Vec<u8>, bits: &Vec<bool>) -> (r: Result<(), FormatError>)
    requires
        bits@.len() <= 8 * old(data)@.len(),
    ensures
        match r {
            Ok(()) => bits@.len() % 8 == 0 && final(data)@.len() == old(data)@.len()
                && final(data)@ == old(data)@.subrange(
                0,
                old(data)@.len() - bits@.len() / 8,
            ) + decode(bits@),
            Err(e) => bits@.len() % 8 != 0 && e == FormatError::Unaligned && final(data)@ == old(
                data,
            )@,
        },
{
    if bits.len() % 8 != 0 {
        return Err(FormatError::Unaligned);
    }
    let n = data.len();
    let m = bits.len() / 8;
    let mut k: usize = 0;
    assert(bits@.subrange(0, 0) =~= Seq::<bool>::empty());
    assert(data@ =~= old(data)@.subrange(0, n - 0) + decode(bits@.subrange(0, 0)));
    while k < m
        invariant
            k <= m,
            8 * m == bits@.len(),
            bits@.len() <= usize::MAX,
            m <= n,
            n == old(data)@.len(),
            data@.len() == n,
            data@ == old(data)@.subrange(0, n - k) + decode(bits@.subrange(0, 8 * k)),
        decreases m - k,
    {
        let value = read_bits(bits, 8 * k, 8);
        proof {
            let g = bits@.subrange(8 * k, 8 * k + 8);
            lemma_bits_value_bound(g);
            lemma_two_pow_32();
            lemma_decode_append(bits@.subrange(0, 8 * k), g);
            assert(bits@.subrange(0, 8 * k) + g =~= bits@.subrange(0, 8 * (k + 1)));
        }
        data.set(n - 1 - k, value as u8);
        k = k + 1;
        assert(data@ =~= old(data)@.subrange(0, n - k) + decode(bits@.subrange(0, 8 * k)));
    }
    assert(bits@.subrange(0, 8 * m) =~= bits@);
    Ok(())
}

} // verus!
