//! Word-level bit arithmetic: what a single `u64` word of the backing store
//! says about the bits it holds, and how the bitwise operations used by the
//! set change those bits.

use vstd::prelude::*;

verus! {

/// Width in bits of one backing word.
pub const WORD_BITS: usize = 64;

/// Whether bit `b` of the word `w` is set.
pub open spec fn word_bit(w: u64, b: u64) -> bool {
    (w >> b) & 1 == 1
}

/// Whether the bit at overall position `sh` of the word sequence `data` is
/// set; position `sh` lives in word `sh / 64` at bit offset `sh % 64`.
pub open spec fn bit_at(data: Seq<u64>, sh: int) -> bool {
    word_bit(data[sh / 64], (sh % 64) as u64)
}

/// The zero word has no bits set.
pub proof fn lemma_zero_word()
    by (bit_vector)
    ensures
        forall|b: u64| b < 64 ==> !#[trigger] word_bit(0u64, b),
{
}

/// The exec test `w & (1 << b) != 0` agrees with `word_bit`.
pub proof fn lemma_test_bit(w: u64, b: u64)
    by (bit_vector)
    requires
        b < 64,
    ensures
        (w & (1u64 << b) != 0) == word_bit(w, b),
{
}

/// Setting bit `b` of `w` with a bitwise or sets exactly that bit and leaves
/// every other bit as it was.
pub proof fn lemma_set_bit(w: u64, b: u64)
    by (bit_vector)
    requires
        b < 64,
    ensures
        forall|i: u64| i < 64 ==> #[trigger] word_bit(w | (1u64 << b), i) == (i == b || word_bit(w, i)),
{
}

/// Clearing bit `b` of `w` with a masked and clears exactly that bit and
/// leaves every other bit as it was.
pub proof fn lemma_clear_bit(w: u64, b: u64)
    by (bit_vector)
    requires
        b < 64,
    ensures
        forall|i: u64| i < 64 ==> #[trigger] word_bit(w & !(1u64 << b), i) == (i != b && word_bit(w, i)),
{
}

/// Each bit of `x | y` is the disjunction of the operands' bits.
pub proof fn lemma_or_bits(x: u64, y: u64)
    by (bit_vector)
    ensures
        forall|i: u64| i < 64 ==> #[trigger] word_bit(x | y, i) == (word_bit(x, i) || word_bit(y, i)),
{
}

/// Each bit of `x & y` is the conjunction of the operands' bits.
pub proof fn lemma_and_bits(x: u64, y: u64)
    by (bit_vector)
    ensures
        forall|i: u64| i < 64 ==> #[trigger] word_bit(x & y, i) == (word_bit(x, i) && word_bit(y, i)),
{
}

/// Each bit of `x & !y` is set iff it is set in `x` but not in `y`.
pub proof fn lemma_and_not_bits(x: u64, y: u64)
    by (bit_vector)
    ensures
        forall|i: u64| i < 64 ==> #[trigger] word_bit(x & !y, i) == (word_bit(x, i) && !word_bit(y, i)),
{
}

/// Each bit of `x ^ y` is set iff the operands' bits differ.
pub proof fn lemma_xor_bits(x: u64, y: u64)
    by (bit_vector)
    ensures
        forall|i: u64| i < 64 ==> #[trigger] word_bit(x ^ y, i) == (word_bit(x, i) != word_bit(y, i)),
{
}

/// Words that agree on every bit at position `k` or above have equal
/// shifted-down remainders `x >> k` and `y >> k`.
proof fn lemma_high_bits_eq(x: u64, y: u64, k: u64)
    requires
        k < 64,
        forall|i: u64| k <= i < 64 ==> #[trigger] word_bit(x, i) == word_bit(y, i),
    ensures
        x >> k == y >> k,
    decreases 64 - k,
{
    if k == 63 {
        assert(word_bit(x, 63) == word_bit(y, 63));
        assert(x >> 63u64 == y >> 63u64) by (bit_vector)
            requires
                ((x >> 63u64) & 1) == 1 <==> ((y >> 63u64) & 1) == 1,
        ;
    } else {
        lemma_high_bits_eq(x, y, (k + 1) as u64);
        assert(word_bit(x, k) == word_bit(y, k));
        assert(x >> k == y >> k) by (bit_vector)
            requires
                k < 63,
                x >> (k + 1) == y >> (k + 1),
                (((x >> k) & 1) == 1 <==> ((y >> k) & 1) == 1),
        ;
    }
}

/// Two words that agree on all 64 bits are the same word.
pub proof fn lemma_bits_eq(x: u64, y: u64)
    requires
        forall|i: u64| i < 64 ==> #[trigger] word_bit(x, i) == word_bit(y, i),
    ensures
        x == y,
{
    lemma_high_bits_eq(x, y, 0);
    assert(x == y) by (bit_vector)
        requires
            x >> 0u64 == y >> 0u64,
    ;
}

} // verus!
