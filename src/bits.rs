//! Single-word bit facts, proved with the bit-vector solver.
use vstd::prelude::*;

verus! {

/// Number of bits held by one storage word.
pub const WORD_BITS: usize = 64;

/// The bit at offset `k` of word `w`.
pub open spec fn word_bit(w: u64, k: u64) -> bool {
    (w >> k) & 1u64 == 1u64
}

/// The bit at position `p` of the words `ws` read as one sequence, lowest bit first.
pub open spec fn seq_bit(ws: Seq<u64>, p: int) -> bool {
    word_bit(ws[p / 64], (p % 64) as u64)
}

/// The word with bits `0..k` set.
pub open spec fn low_mask(k: u64) -> u64 {
    ((1u64 << k) - 1) as u64
}

/// Position `p` lies in word `j`, at offset `p - 64 * j`.
pub proof fn lemma_pos(p: int, j: int)
    requires
        64 * j <= p < 64 * j + 64,
    ensures
        p / 64 == j,
        p % 64 == p - 64 * j,
{
}

/// Position `p` lies in word `p / 64`, at offset `p % 64`.
pub proof fn lemma_div(p: int)
    requires
        0 <= p,
    ensures
        64 * (p / 64) <= p < 64 * (p / 64) + 64,
        p % 64 == p - 64 * (p / 64),
{
}

/// The low mask is computed without underflow.
pub proof fn lemma_low_mask_exec(k: u64)
    by (bit_vector)
    requires
        k < 64,
    ensures
        1u64 << k >= 1,
{
}

/// Bit `k` of `b as u64` is `b` at offset zero and clear elsewhere.
pub proof fn lemma_bool_word(b: u64, k: u64)
    by (bit_vector)
    requires
        b <= 1,
        k < 64,
    ensures
        word_bit(b, k) == (k == 0 && b == 1),
{
}

/// Setting offset `f` to `b` by an or leaves the other offsets alone.
pub proof fn lemma_or_bit(w: u64, f: u64, b: u64, k: u64)
    by (bit_vector)
    requires
        f < 64,
        k < 64,
        b <= 1,
    ensures
        word_bit(w | (b << f), k) == (word_bit(w, k) || (k == f && b == 1)),
{
}

/// Masking with `low_mask(f)` keeps the offsets below `f` and clears the rest.
pub proof fn lemma_and_low_mask(w: u64, f: u64, k: u64)
    by (bit_vector)
    requires
        f < 64,
        k < 64,
    ensures
        word_bit(w & low_mask(f), k) == (k < f && word_bit(w, k)),
{
}

/// The top bit of a word, as a carry of 0 or 1.
pub proof fn lemma_top_bit(w: u64)
    by (bit_vector)
    ensures
        w >> 63u64 <= 1,
        (w >> 63u64 == 1) == word_bit(w, 63),
{
}

/// The bottom bit of a word, as a carry of 0 or 1.
pub proof fn lemma_bottom_bit(w: u64)
    by (bit_vector)
    ensures
        w & 1 <= 1,
        (w & 1 == 1) == word_bit(w, 0),
{
}

/// Opening a slot at offset `r` of `w` for the bit `b`: the bits below stay, those above move
/// up by one.
pub proof fn lemma_open_slot(w: u64, r: u64, b: u64, k: u64)
    by (bit_vector)
    requires
        r < 64,
        k < 64,
        b <= 1,
    ensures
        word_bit(
            (w & low_mask(r)) | ((w & !low_mask(r)) << 1u64) | (b << r),
            k,
        ) == if k < r {
            word_bit(w, k)
        } else if k == r {
            b == 1
        } else {
            word_bit(w, (k - 1) as u64)
        },
{
}

/// Shifting a word up by one, with the carry `c` entering at offset zero.
pub proof fn lemma_shift_up(w: u64, c: u64, k: u64)
    by (bit_vector)
    requires
        c <= 1,
        k < 64,
    ensures
        word_bit((w << 1u64) | c, k) == if k == 0 {
            c == 1
        } else {
            word_bit(w, (k - 1) as u64)
        },
{
}

/// Closing the slot at offset `r` of `w`: the bits below stay, those above move down by one,
/// and the carry `c` enters at the top.
pub proof fn lemma_close_slot(w: u64, r: u64, c: u64, k: u64)
    by (bit_vector)
    requires
        r < 64,
        k < 64,
        c <= 1,
    ensures
        word_bit((w & low_mask(r)) | ((w >> 1u64) & !low_mask(r)) | (c << 63u64), k) == if k
            < r {
            word_bit(w, k)
        } else if k < 63 {
            word_bit(w, (k + 1) as u64)
        } else {
            c == 1
        },
{
}

/// Shifting a word down by one, with the carry `c` entering at the top.
pub proof fn lemma_shift_down(w: u64, c: u64, k: u64)
    by (bit_vector)
    requires
        c <= 1,
        k < 64,
    ensures
        word_bit((w >> 1u64) | (c << 63u64), k) == if k < 63 {
            word_bit(w, (k + 1) as u64)
        } else {
            c == 1
        },
{
}

} // verus!
