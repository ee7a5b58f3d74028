use vstd::prelude::*;

verus! {

/// Bit `n` of `m` is set (`n` below 64).
pub open spec fn has_bit(m: u64, n: int) -> bool {
    0 <= n < 64 && (m >> (n as u64)) & 1 == 1
}

pub proof fn lemma_and_single_bit(m: u64, n: u64)
    requires
        n < 64,
    ensures
        (m & (1u64 << n) != 0) == has_bit(m, n as int),
{
    assert((m & (1u64 << n) != 0) == ((m >> n) & 1 == 1)) by (bit_vector)
        requires
            n < 64,
    ;
}

pub proof fn lemma_or_bits(a: u64, b: u64)
    ensures
        forall|n: int| #[trigger] has_bit(a | b, n) == (has_bit(a, n) || has_bit(b, n)),
{
    assert forall|n: int| #[trigger] has_bit(a | b, n) == (has_bit(a, n) || has_bit(b, n)) by {
        if 0 <= n < 64 {
            let k = n as u64;
            assert((((a | b) >> k) & 1 == 1) == (((a >> k) & 1 == 1) || ((b >> k) & 1 == 1)))
                by (bit_vector)
                requires
                    k < 64,
            ;
        }
    }
}

pub proof fn lemma_single_bit(k: u64)
    requires
        k < 64,
    ensures
        forall|n: int| #[trigger] has_bit(1u64 << k, n) == (n == k),
        1u64 << k != 0,
{
    assert(1u64 << k != 0) by (bit_vector)
        requires
            k < 64,
    ;
    assert forall|n: int| #[trigger] has_bit(1u64 << k, n) == (n == k) by {
        if 0 <= n < 64 {
            let j = n as u64;
            assert(((((1u64 << k) >> j) & 1) == 1) == (j == k)) by (bit_vector)
                requires
                    k < 64,
                    j < 64,
            ;
        }
    }
}

pub proof fn lemma_zero_bits()
    ensures
        forall|n: int| !#[trigger] has_bit(0u64, n),
{
    assert forall|n: int| !#[trigger] has_bit(0u64, n) by {
        if 0 <= n < 64 {
            let j = n as u64;
            assert((0u64 >> j) & 1 == 0) by (bit_vector);
        }
    }
}

/// A nonzero mask whose bits below `i` are all clear has its lowest set bit at `i` or above;
/// this scans for it.
pub fn lowest_set_bit(m: u64) -> (bit: u64)
    requires
        m != 0,
    ensures
        bit < 64,
        has_bit(m, bit as int),
        forall|j: int| 0 <= j < bit ==> !#[trigger] has_bit(m, j),
{
    let mut i: u64 = 0;
    assert(m & (((1u64 << 0u64) - 1) as u64) == 0) by (bit_vector);
    while i < 63
        invariant
            i <= 63,
            m != 0,
            m & (((1u64 << i) - 1) as u64) == 0,
            forall|j: int| 0 <= j < i ==> !#[trigger] has_bit(m, j),
        decreases 63 - i,
    {
        if (m >> i) & 1 == 1 {
            return i;
        }
        assert(m & (((1u64 << ((i + 1) as u64)) - 1) as u64) == 0) by (bit_vector)
            requires
                i < 63,
                m & (((1u64 << i) - 1) as u64) == 0,
                (m >> i) & 1 != 1,
        ;
        i = i + 1;
    }
    assert((m >> 63u64) & 1 == 1) by (bit_vector)
        requires
            m != 0,
            m & (((1u64 << 63u64) - 1) as u64) == 0,
    ;
    63
}

/// Two masks with the same bits are the same mask.
pub proof fn lemma_same_bits(a: u64, b: u64)
    requires
        forall|n: int| #[trigger] has_bit(a, n) == has_bit(b, n),
    ensures
        a == b,
{
    let x = a ^ b;
    assert forall|k: u64| k < 64 implies #[trigger] ((x >> k) & 1) == 0 by {
        assert(has_bit(a, k as int) == has_bit(b, k as int));
        assert((((a >> k) & 1 == 1) == ((b >> k) & 1 == 1)) ==> ((a ^ b) >> k) & 1 == 0) by (bit_vector)
            requires
                k < 64,
        ;
    }
    lemma_no_bits_zero(x);
    assert(a == b) by (bit_vector)
        requires
            a ^ b == 0,
    ;
}

proof fn lemma_no_bits_zero(x: u64)
    by (bit_vector)
    requires
        (x >> 0u64) & 1 == 0,
        (x >> 1u64) & 1 == 0,
        (x >> 2u64) & 1 == 0,
        (x >> 3u64) & 1 == 0,
        (x >> 4u64) & 1 == 0,
        (x >> 5u64) & 1 == 0,
        (x >> 6u64) & 1 == 0,
        (x >> 7u64) & 1 == 0,
        (x >> 8u64) & 1 == 0,
        (x >> 9u64) & 1 == 0,
        (x >> 10u64) & 1 == 0,
        (x >> 11u64) & 1 == 0,
        (x >> 12u64) & 1 == 0,
        (x >> 13u64) & 1 == 0,
        (x >> 14u64) & 1 == 0,
        (x >> 15u64) & 1 == 0,
        (x >> 16u64) & 1 == 0,
        (x >> 17u64) & 1 == 0,
        (x >> 18u64) & 1 == 0,
        (x >> 19u64) & 1 == 0,
        (x >> 20u64) & 1 == 0,
        (x >> 21u64) & 1 == 0,
        (x >> 22u64) & 1 == 0,
        (x >> 23u64) & 1 == 0,
        (x >> 24u64) & 1 == 0,
        (x >> 25u64) & 1 == 0,
        (x >> 26u64) & 1 == 0,
        (x >> 27u64) & 1 == 0,
        (x >> 28u64) & 1 == 0,
        (x >> 29u64) & 1 == 0,
        (x >> 30u64) & 1 == 0,
        (x >> 31u64) & 1 == 0,
        (x >> 32u64) & 1 == 0,
        (x >> 33u64) & 1 == 0,
        (x >> 34u64) & 1 == 0,
        (x >> 35u64) & 1 == 0,
        (x >> 36u64) & 1 == 0,
        (x >> 37u64) & 1 == 0,
        (x >> 38u64) & 1 == 0,
        (x >> 39u64) & 1 == 0,
        (x >> 40u64) & 1 == 0,
        (x >> 41u64) & 1 == 0,
        (x >> 42u64) & 1 == 0,
        (x >> 43u64) & 1 == 0,
        (x >> 44u64) & 1 == 0,
        (x >> 45u64) & 1 == 0,
        (x >> 46u64) & 1 == 0,
        (x >> 47u64) & 1 == 0,
        (x >> 48u64) & 1 == 0,
        (x >> 49u64) & 1 == 0,
        (x >> 50u64) & 1 == 0,
        (x >> 51u64) & 1 == 0,
        (x >> 52u64) & 1 == 0,
        (x >> 53u64) & 1 == 0,
        (x >> 54u64) & 1 == 0,
        (x >> 55u64) & 1 == 0,
        (x >> 56u64) & 1 == 0,
        (x >> 57u64) & 1 == 0,
        (x >> 58u64) & 1 == 0,
        (x >> 59u64) & 1 == 0,
        (x >> 60u64) & 1 == 0,
        (x >> 61u64) & 1 == 0,
        (x >> 62u64) & 1 == 0,
        (x >> 63u64) & 1 == 0,
    ensures
        x == 0,
{
}

} // verus!
