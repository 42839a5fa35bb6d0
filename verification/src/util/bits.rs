use vstd::prelude::*;

verus! {

/// Bit `i` of a 16-bit mask.
pub open spec fn bit16(m: u16, i: u16) -> bool {
    (m >> i) & 1u16 == 1u16
}

/// Bit `i` of a 128-bit mask.
pub open spec fn bit128(m: u128, i: u128) -> bool {
    (m >> i) & 1u128 == 1u128
}

pub proof fn lemma_bit16_or(a: u16, b: u16, i: u16)
    requires
        i < 16,
    ensures
        bit16(a | b, i) == (bit16(a, i) || bit16(b, i)),
{
    assert(((a | b) >> i) & 1u16 == 1u16 <==> ((a >> i) & 1u16 == 1u16 || (b >> i) & 1u16 == 1u16))
        by (bit_vector)
        requires
            i < 16,
    ;
}

pub proof fn lemma_bit16_and(a: u16, b: u16, i: u16)
    requires
        i < 16,
    ensures
        bit16(a & b, i) == (bit16(a, i) && bit16(b, i)),
{
    assert(((a & b) >> i) & 1u16 == 1u16 <==> ((a >> i) & 1u16 == 1u16 && (b >> i) & 1u16 == 1u16))
        by (bit_vector)
        requires
            i < 16,
    ;
}

pub proof fn lemma_bit16_and_not(a: u16, b: u16, i: u16)
    requires
        i < 16,
    ensures
        bit16(a & !b, i) == (bit16(a, i) && !bit16(b, i)),
{
    assert(((a & !b) >> i) & 1u16 == 1u16 <==> ((a >> i) & 1u16 == 1u16 && !((b >> i) & 1u16
        == 1u16))) by (bit_vector)
        requires
            i < 16,
    ;
}

pub proof fn lemma_bit16_single(j: u16, i: u16)
    requires
        i < 16,
        j < 16,
    ensures
        bit16(1u16 << j, i) == (i == j),
{
    assert((((1u16 << j) >> i) & 1u16 == 1u16) <==> i == j) by (bit_vector)
        requires
            i < 16,
            j < 16,
    ;
}

pub proof fn lemma_bit16_zero(i: u16)
    requires
        i < 16,
    ensures
        !bit16(0u16, i),
{
    assert(!((0u16 >> i) & 1u16 == 1u16)) by (bit_vector);
}

/// Two masks with the same nine low bits and nothing above are equal.
pub proof fn lemma_bit16_ext(a: u16, b: u16)
    requires
        a < 512,
        b < 512,
        forall|i: u16| i < 9 ==> bit16(a, i) == bit16(b, i),
    ensures
        a == b,
{
    assert(bit16(a, 0) == bit16(b, 0));
    assert(bit16(a, 1) == bit16(b, 1));
    assert(bit16(a, 2) == bit16(b, 2));
    assert(bit16(a, 3) == bit16(b, 3));
    assert(bit16(a, 4) == bit16(b, 4));
    assert(bit16(a, 5) == bit16(b, 5));
    assert(bit16(a, 6) == bit16(b, 6));
    assert(bit16(a, 7) == bit16(b, 7));
    assert(bit16(a, 8) == bit16(b, 8));
    assert(a == b) by (bit_vector)
        requires
            a < 512,
            b < 512,
            ((a >> 0) & 1u16 == 1u16) == ((b >> 0) & 1u16 == 1u16),
            ((a >> 1) & 1u16 == 1u16) == ((b >> 1) & 1u16 == 1u16),
            ((a >> 2) & 1u16 == 1u16) == ((b >> 2) & 1u16 == 1u16),
            ((a >> 3) & 1u16 == 1u16) == ((b >> 3) & 1u16 == 1u16),
            ((a >> 4) & 1u16 == 1u16) == ((b >> 4) & 1u16 == 1u16),
            ((a >> 5) & 1u16 == 1u16) == ((b >> 5) & 1u16 == 1u16),
            ((a >> 6) & 1u16 == 1u16) == ((b >> 6) & 1u16 == 1u16),
            ((a >> 7) & 1u16 == 1u16) == ((b >> 7) & 1u16 == 1u16),
            ((a >> 8) & 1u16 == 1u16) == ((b >> 8) & 1u16 == 1u16),
    ;
}

pub proof fn lemma_bit16_bounds(a: u16, b: u16)
    requires
        a < 512,
    ensures
        a & b < 512,
        a & !b < 512,
        (a | b) & 0x1ffu16 < 512,
{
    assert(a & b < 512 && a & !b < 512 && (a | b) & 0x1ffu16 < 512) by (bit_vector)
        requires
            a < 512,
    ;
}

pub proof fn lemma_bit16_mask(a: u16, i: u16)
    requires
        i < 9,
    ensures
        bit16(a & 0x1ffu16, i) == bit16(a, i),
{
    assert((((a & 0x1ffu16) >> i) & 1u16 == 1u16) == ((a >> i) & 1u16 == 1u16)) by (bit_vector)
        requires
            i < 9,
    ;
}

pub proof fn lemma_bit16_set_small(a: u16, j: u16)
    requires
        a < 512,
        j < 9,
    ensures
        a | (1u16 << j) < 512,
{
    assert(a | (1u16 << j) < 512) by (bit_vector)
        requires
            a < 512,
            j < 9,
    ;
}

pub proof fn lemma_bit128_or(a: u128, b: u128, i: u128)
    requires
        i < 128,
    ensures
        bit128(a | b, i) == (bit128(a, i) || bit128(b, i)),
{
    assert(((a | b) >> i) & 1u128 == 1u128 <==> ((a >> i) & 1u128 == 1u128 || (b >> i) & 1u128
        == 1u128)) by (bit_vector)
        requires
            i < 128,
    ;
}

pub proof fn lemma_bit128_and(a: u128, b: u128, i: u128)
    requires
        i < 128,
    ensures
        bit128(a & b, i) == (bit128(a, i) && bit128(b, i)),
{
    assert(((a & b) >> i) & 1u128 == 1u128 <==> ((a >> i) & 1u128 == 1u128 && (b >> i) & 1u128
        == 1u128)) by (bit_vector)
        requires
            i < 128,
    ;
}

pub proof fn lemma_bit128_and_not(a: u128, b: u128, i: u128)
    requires
        i < 128,
    ensures
        bit128(a & !b, i) == (bit128(a, i) && !bit128(b, i)),
{
    assert(((a & !b) >> i) & 1u128 == 1u128 <==> ((a >> i) & 1u128 == 1u128 && !((b >> i)
        & 1u128 == 1u128))) by (bit_vector)
        requires
            i < 128,
    ;
}

pub proof fn lemma_bit128_single(j: u128, i: u128)
    requires
        i < 128,
        j < 128,
    ensures
        bit128(1u128 << j, i) == (i == j),
{
    assert((((1u128 << j) >> i) & 1u128 == 1u128) <==> i == j) by (bit_vector)
        requires
            i < 128,
            j < 128,
    ;
}

pub proof fn lemma_bit128_zero(i: u128)
    requires
        i < 128,
    ensures
        !bit128(0u128, i),
{
    assert(!((0u128 >> i) & 1u128 == 1u128)) by (bit_vector);
}

/// The 81-cell mask.
pub open spec fn full81() -> u128 {
    0x1ffff_ffff_ffff_ffff_ffffu128
}

pub proof fn lemma_bit128_full(i: u128)
    requires
        i < 128,
    ensures
        bit128(full81(), i) == (i < 81),
{
    assert((((0x1ffff_ffff_ffff_ffff_ffffu128 >> i) & 1u128) == 1u128) == (i < 81)) by (bit_vector)
        requires
            i < 128,
    ;
}

pub proof fn lemma_bit128_small(m: u128, i: u128)
    requires
        m < 0x2_0000_0000_0000_0000_0000u128,
        81 <= i < 128,
    ensures
        !bit128(m, i),
{
    assert(!((m >> i) & 1u128 == 1u128)) by (bit_vector)
        requires
            m < 0x2_0000_0000_0000_0000_0000u128,
            81 <= i < 128,
    ;
}

pub proof fn lemma_bit128_bounds(a: u128, b: u128)
    requires
        a < 0x2_0000_0000_0000_0000_0000u128,
    ensures
        a & b < 0x2_0000_0000_0000_0000_0000u128,
        a & !b < 0x2_0000_0000_0000_0000_0000u128,
        b < 0x2_0000_0000_0000_0000_0000u128 ==> a | b < 0x2_0000_0000_0000_0000_0000u128,
{
    assert(a & b < 0x2_0000_0000_0000_0000_0000u128 && a & !b < 0x2_0000_0000_0000_0000_0000u128
        && (b < 0x2_0000_0000_0000_0000_0000u128 ==> a | b < 0x2_0000_0000_0000_0000_0000u128))
        by (bit_vector)
        requires
            a < 0x2_0000_0000_0000_0000_0000u128,
    ;
}

pub proof fn lemma_bit128_set_small(a: u128, j: u128)
    requires
        a < 0x2_0000_0000_0000_0000_0000u128,
        j < 81,
    ensures
        a | (1u128 << j) < 0x2_0000_0000_0000_0000_0000u128,
{
    assert(a | (1u128 << j) < 0x2_0000_0000_0000_0000_0000u128) by (bit_vector)
        requires
            a < 0x2_0000_0000_0000_0000_0000u128,
            j < 81,
    ;
}

/// Two 128-bit masks that agree on every bit are equal.
pub proof fn lemma_bit128_ext(a: u128, b: u128)
    requires
        forall|i: u128| i < 128 ==> bit128(a, i) == bit128(b, i),
    ensures
        a == b,
{
    lemma_bit128_shift_eq(a, b, 0);
    assert(a >> 0u128 == a && b >> 0u128 == b) by (bit_vector);
}

proof fn lemma_bit128_shift_eq(a: u128, b: u128, k: u128)
    requires
        k <= 128,
        forall|i: u128| k <= i < 128 ==> bit128(a, i) == bit128(b, i),
    ensures
        (a >> k) == (b >> k),
    decreases 128 - k,
{
    if k == 128 {
        assert(k == 128u128 ==> (a >> k) == 0u128 && (b >> k) == 0u128) by (bit_vector);
    } else {
        lemma_bit128_shift_eq(a, b, (k + 1) as u128);
        assert(bit128(a, k) == bit128(b, k));
        assert((a >> k) == (b >> k)) by (bit_vector)
            requires
                k < 128,
                (a >> (k + 1u128)) == (b >> (k + 1u128)),
                ((a >> k) & 1u128 == 1u128) == ((b >> k) & 1u128 == 1u128),
        ;
    }
}

} // verus!
