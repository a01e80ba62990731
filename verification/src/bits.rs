//! The bits of a 64-bit word, one at a time.
use vstd::prelude::*;

verus! {

/// Bit `b` of the word `x`.
pub open spec fn bit_at(x: u64, b: u64) -> bool {
    (x >> b) & 1 == 1
}

/// What the word operations of a bitset do to each bit.
pub proof fn lemma_bit_ops(x: u64, y: u64, b: u64)
    requires
        b < 64,
    ensures
        bit_at(x | y, b) == (bit_at(x, b) || bit_at(y, b)),
        !bit_at(0, b),
        bit_at(u64::MAX, b),
{
    assert(bit_at(x | y, b) == (bit_at(x, b) || bit_at(y, b))) by (bit_vector);
    assert(!bit_at(0, b)) by (bit_vector);
    assert(bit_at(0xffff_ffff_ffff_ffff, b)) by (bit_vector)
        requires
            b < 64,
    ;
}

/// A shifted one has exactly one bit, and `&` with it tests that bit.
pub proof fn lemma_one_bit(x: u64, i: u64, b: u64)
    requires
        i < 64,
        b < 64,
    ensures
        bit_at(1u64 << i, b) == (i == b),
        ((1u64 << i) & x != 0) == bit_at(x, i),
{
    assert(bit_at(1u64 << i, b) == (i == b)) by (bit_vector)
        requires
            i < 64,
            b < 64,
    ;
    assert(((1u64 << i) & x != 0) == bit_at(x, i)) by (bit_vector)
        requires
            i < 64,
    ;
}

/// The difference of two runs of low bits is the run between their ends.
pub proof fn lemma_run_of_bits(rest: u64, mask: u64, left: u64, right: u64, b: u64)
    requires
        left <= right <= 64,
        left < 64,
        b < 64,
        right == 64 ==> rest == u64::MAX,
        right < 64 ==> rest == (1u64 << right) - 1,
        mask == (1u64 << left) - 1,
    ensures
        bit_at(rest ^ mask, b) == (left <= b < right),
{
    assert(bit_at(rest ^ mask, b) == (left <= b && b < right)) by (bit_vector)
        requires
            left <= right,
            right <= 64,
            left < 64,
            b < 64,
            right == 64 ==> rest == 0xffff_ffff_ffff_ffff,
            right < 64 ==> rest == (1u64 << right) - 1,
            mask == (1u64 << left) - 1,
    ;
}

/// Two words with the same bits from `low` up agree when shifted down by `low`.
proof fn lemma_same_high_bits(x: u64, y: u64, low: u64)
    requires
        low <= 64,
        forall|b: u64| low <= b < 64 ==> bit_at(x, b) == bit_at(y, b),
    ensures
        x >> low == y >> low,
    decreases 64 - low,
{
    if low == 64 {
        assert(x >> 64 == y >> 64) by (bit_vector);
    } else {
        let next = (low + 1) as u64;
        lemma_same_high_bits(x, y, next);
        assert(bit_at(x, low) == bit_at(y, low));
        assert(x >> low == y >> low) by (bit_vector)
            requires
                low < 64,
                next == low + 1,
                x >> next == y >> next,
                bit_at(x, low) == bit_at(y, low),
        ;
    }
}

/// A word is determined by its bits.
pub proof fn lemma_same_bits(x: u64, y: u64)
    requires
        forall|b: u64| b < 64 ==> bit_at(x, b) == bit_at(y, b),
    ensures
        x == y,
{
    lemma_same_high_bits(x, y, 0);
    assert(x == y) by (bit_vector)
        requires
            x >> 0 == y >> 0,
    ;
}

} // verus!
