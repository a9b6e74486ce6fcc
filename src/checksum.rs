use vstd::prelude::*;

verus! {

/// The accumulator rotated left by one bit.
pub open spec fn rotl(c: u32) -> u32 {
    (c << 1u32) | (c >> 31u32)
}

/// One step of the checksum: rotate, then add the byte, wrapping at 32 bits.
pub open spec fn step(c: u32, b: u8) -> u32 {
    ((rotl(c) as int + b as int) % 0x1_0000_0000) as u32
}

/// The checksum of `d`: the first byte as is, then one step for each further byte.
pub open spec fn checksum(d: Seq<u8>) -> u32
    decreases d.len(),
{
    if d.len() == 0 {
        0
    } else if d.len() == 1 {
        d[0] as u32
    } else {
        step(checksum(d.drop_last()), d.last())
    }
}

proof fn lemma_step_injective(c1: u32, c2: u32, b1: u8, b2: u8)
    requires
        step(c1, b1) == step(c2, b2),
        c1 == c2 || b1 == b2,
    ensures
        c1 == c2 && b1 == b2,
{
    assert(forall|x: u32, y: u32| #[trigger] rotl(x) == #[trigger] rotl(y) ==> x == y) by {
        assert forall|x: u32, y: u32| (#[trigger] rotl(x)) == (#[trigger] rotl(y)) implies x == y by {
            assert(((x << 1u32) | (x >> 31u32)) == ((y << 1u32) | (y >> 31u32)) ==> x == y)
                by (bit_vector);
        }
    }
}

/// Two buffers that differ in exactly one byte have different checksums.
pub proof fn lemma_checksum_detects_change(d1: Seq<u8>, d2: Seq<u8>, i: int)
    requires
        d1.len() == d2.len(),
        0 <= i < d1.len(),
        d1[i] != d2[i],
        forall|j: int| 0 <= j < d1.len() && j != i ==> d1[j] == d2[j],
    ensures
        checksum(d1) != checksum(d2),
    decreases d1.len(),
{
    let n = d1.len();
    if i == n - 1 {
        if n > 1 {
            assert(d1.drop_last() =~= d2.drop_last());
            if checksum(d1) == checksum(d2) {
                lemma_step_injective(
                    checksum(d1.drop_last()),
                    checksum(d2.drop_last()),
                    d1.last(),
                    d2.last(),
                );
            }
        }
    } else {
        lemma_checksum_detects_change(d1.drop_last(), d2.drop_last(), i);
        if checksum(d1) == checksum(d2) {
            lemma_step_injective(
                checksum(d1.drop_last()),
                checksum(d2.drop_last()),
                d1.last(),
                d2.last(),
            );
        }
    }
}

/// The checksum of `d`, computed by folding its bytes.
pub fn checksum_of(d: &Vec<u8>) -> (r: u32)
    ensures
        r == checksum(d@),
{
    let n = d.len();
    if n == 0 {
        return 0;
    }
    let mut c: u32 = d[0] as u32;
    let mut i: usize = 1;
    assert(d@.subrange(0, 1).drop_last().len() == 0);
    while i < n
        invariant
            1 <= i <= n,
            n == d@.len(),
            c == checksum(d@.subrange(0, i as int)),
        decreases n - i,
    {
        assert(d@.subrange(0, i + 1).drop_last() =~= d@.subrange(0, i as int));
        let r = (c << 1u32) | (c >> 31u32);
        c = r.wrapping_add(d[i] as u32);
        i = i + 1;
    }
    assert(d@.subrange(0, n as int) =~= d@);
    c
}

} // verus!
