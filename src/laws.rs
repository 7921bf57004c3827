//! Laws that tie the operations of `BitVec` together, stated over its model.
use vstd::prelude::*;

use crate::bitvec::{capacity_bits, words_needed, BitVec};

verus! {

/// The sequence that pushing the values of `vs`, in order, onto `s` leaves.
pub open spec fn push_all(s: Seq<bool>, vs: Seq<bool>) -> Seq<bool>
    decreases vs.len(),
{
    if vs.len() == 0 {
        s
    } else {
        push_all(s, vs.drop_last()).push(vs.last())
    }
}

/// Pushing `v0 .. vn-1` onto an empty sequence gives a sequence of length `n` whose bit `i`
/// is `vi`.
pub proof fn lemma_round_trip(vs: Seq<bool>)
    ensures
        push_all(Seq::empty(), vs).len() == vs.len(),
        forall|i: int| 0 <= i < vs.len() ==> #[trigger] push_all(Seq::empty(), vs)[i] == vs[i],
    decreases vs.len(),
{
    if vs.len() > 0 {
        lemma_round_trip(vs.drop_last());
    }
    assert(push_all(Seq::empty(), vs) =~= vs);
}

/// A push followed by a pop returns the pushed value and restores the sequence, so the
/// length is unchanged.
pub proof fn lemma_push_pop(s: Seq<bool>, x: bool)
    ensures
        s.push(x).len() > 0,
        s.push(x).last() == x,
        s.push(x).drop_last() == s,
{
    assert(s.push(x).drop_last() =~= s);
}

/// Removing at `index` right after inserting `x` there returns `x` and restores the sequence.
pub proof fn lemma_insert_remove(s: Seq<bool>, index: int, x: bool)
    requires
        0 <= index <= s.len(),
    ensures
        s.insert(index, x)[index] == x,
        s.insert(index, x).remove(index) == s,
{
    assert(s.insert(index, x).remove(index) =~= s);
}

/// In every well-formed state the length is `(words - 1) * 64 + fill`, or zero with no word,
/// where the fill of a non-empty last word is between 1 and 64.
pub proof fn lemma_length_words(v: &BitVec)
    requires
        v.wf(),
    ensures
        v.words().len() == 0 ==> v@.len() == 0,
        v.words().len() > 0 ==> v@.len() == (v.words().len() - 1) * 64 + v.fill() && 1
            <= v.fill() <= 64,
{
}

/// Rounding a request for `n` bits up to whole words: the words hold at least `n` bits, and
/// one word fewer would not. So `with_capacity(n).capacity()`, which is at least
/// `capacity_bits(words_needed(n))`, is at least `n`.
pub proof fn lemma_capacity_rounding(n: nat)
    requires
        n <= usize::MAX,
    ensures
        64 * words_needed(n) >= n,
        words_needed(n) == 0 || 64 * (words_needed(n) - 1) < n,
        capacity_bits(words_needed(n)) >= n,
{
}

/// In every well-formed state the number of words is the length divided by 64, rounded up.
pub proof fn lemma_word_count(v: &BitVec)
    requires
        v.wf(),
    ensures
        v.words().len() == words_needed(v@.len()),
{
}

} // verus!
