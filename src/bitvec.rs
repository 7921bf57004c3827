//! The packed bit sequence.
use vstd::prelude::*;
use vstd::string::StringExecFns;

use crate::bits::{
    lemma_and_low_mask, lemma_bool_word, lemma_bottom_bit, lemma_close_slot, lemma_div,
    lemma_low_mask_exec, lemma_open_slot, lemma_or_bit, lemma_pos, lemma_shift_down,
    lemma_shift_up, lemma_top_bit, seq_bit, word_bit, WORD_BITS,
};

verus! {

/// Relies on `Vec::capacity`: never below the vector's length. With `with_reserved_words`,
/// the one place that gives `reserved_words` a value other than zero, it also relies on
/// `Vec::with_capacity(n)` holding at least `n` elements without reallocating, and on a `Vec`
/// never shrinking its capacity by itself (`push`, `pop` and indexed writes keep or grow it).
#[verifier::external_body]
fn word_capacity(v: &BitVec) -> (r: usize)
    ensures
        r >= v.words().len(),
        r >= v.reserved_words(),
{
    v.internal.capacity()
}

/// Relies on `Vec::with_capacity`: the new vector is empty and can hold at least `words`
/// elements without reallocating. The count of reserved words is recorded with it here, and
/// nowhere else set above zero.
#[verifier::external_body]
fn with_reserved_words(words: usize, index: usize) -> (r: BitVec)
    ensures
        r.words().len() == 0,
        r.fill() == index,
        r.reserved_words() == words,
{
    BitVec { internal: Vec::with_capacity(words), index, reserved: Ghost(words as nat) }
}

/// The bits that `words` words hold, saturated at `usize::MAX`.
pub fn bits_for_words(words: usize) -> (r: usize)
    ensures
        r == capacity_bits(words as nat),
{
    if words > usize::MAX / WORD_BITS {
        usize::MAX
    } else {
        words * WORD_BITS
    }
}

/// The number of words needed to hold `bits` bits: `bits / 64` rounded up.
pub open spec fn words_needed(bits: nat) -> nat {
    ((bits + 63) / 64) as nat
}

/// The number of words needed to hold `bits` bits: `bits / 64` rounded up.
pub fn words_for_bits(bits: usize) -> (r: usize)
    ensures
        r == words_needed(bits as nat),
        64 * r >= bits,
        r == 0 || 64 * (r - 1) < bits,
{
    let whole = bits / WORD_BITS;
    if bits % WORD_BITS == 0 {
        whole
    } else {
        whole + 1
    }
}

/// The bits that `words` words hold, saturated at `usize::MAX`.
pub open spec fn capacity_bits(words: nat) -> nat {
    if 64 * words > usize::MAX {
        usize::MAX as nat
    } else {
        64 * words
    }
}

/// The text of one bit.
pub open spec fn bool_text(b: bool) -> Seq<char> {
    if b {
        "true"@
    } else {
        "false"@
    }
}

/// The bits of `s` as text, separated by `", "`.
pub open spec fn list_text(s: Seq<bool>) -> Seq<char>
    decreases s.len(),
{
    if s.len() == 0 {
        Seq::empty()
    } else if s.len() == 1 {
        bool_text(s[0])
    } else {
        list_text(s.drop_last()) + ", "@ + bool_text(s.last())
    }
}

/// The rendering of `s`: its bits in brackets, then a line break.
pub open spec fn render(s: Seq<bool>) -> Seq<char> {
    "["@ + list_text(s) + "]\n"@
}

/// A sequence of booleans stored one bit each in 64-bit words.
///
/// Bit `i` lives in word `i / 64` at offset `i % 64`. The last word holds
/// `fill` bits in use, between 1 and 64; with no word stored, `fill` is 64,
/// so that the next push starts a new word. Bits past the end are kept clear.
///
/// `reserved` is a lower bound on the words the storage holds without reallocating: zero, or
/// the count the storage was created with.
pub struct BitVec {
    internal: Vec<u64>,
    index: usize,
    reserved: Ghost<nat>,
}

impl Clone for BitVec {
    /// A copy of the bits; the copy's storage reserves no more than it needs.
    fn clone(&self) -> (r: Self)
        ensures
            r.words() == self.words(),
            r.fill() == self.fill(),
            r.reserved_words() == 0,
    {
        BitVec { internal: self.internal.clone(), index: self.index, reserved: Ghost(0) }
    }
}

impl View for BitVec {
    type V = Seq<bool>;

    open spec fn view(&self) -> Seq<bool> {
        Seq::new(self.spec_len(), |i: int| seq_bit(self.words(), i))
    }
}

impl BitVec {
    /// The storage words.
    pub closed spec fn words(&self) -> Seq<u64> {
        self.internal@
    }

    /// A lower bound on the words the storage holds without reallocating.
    pub closed spec fn reserved_words(&self) -> nat {
        self.reserved@
    }

    /// The number of bits in use in the last word; 64 when no word is stored.
    pub closed spec fn fill(&self) -> nat {
        self.index as nat
    }

    /// The length: all words full but the last, which holds `fill` bits.
    pub open spec fn spec_len(&self) -> nat {
        if self.words().len() == 0 {
            0
        } else {
            ((self.words().len() - 1) * 64 + self.fill()) as nat
        }
    }

    /// The packing invariant.
    pub open spec fn wf(&self) -> bool {
        &&& self.words().len() == 0 ==> self.fill() == 64
        &&& self.words().len() > 0 ==> 1 <= self.fill() <= 64
        &&& self.spec_len() <= usize::MAX
        &&& forall|p: int|
            self.spec_len() <= p < self.words().len() * 64 ==> !#[trigger] seq_bit(self.words(), p)
    }

    /// An empty sequence with no storage.
    pub fn new() -> (r: Self)
        ensures
            r.wf(),
            r@ == Seq::<bool>::empty(),
            r.words().len() == 0,
    {
        let r = BitVec { internal: Vec::new(), index: WORD_BITS, reserved: Ghost(0) };
        assert(r@ =~= Seq::<bool>::empty());
        r
    }

    /// The number of bits stored.
    pub fn len(&self) -> (r: usize)
        requires
            self.wf(),
        ensures
            r == self@.len(),
    {
        let n = self.internal.len();
        if n == 0 {
            0
        } else {
            (n - 1) * WORD_BITS + self.index
        }
    }

    /// The bit at `index`, or `None` when `index` is not below the length.
    ///
    /// The bound is strict: position `len()` holds no bit.
    pub fn get(&self, index: usize) -> (r: Option<bool>)
        requires
            self.wf(),
        ensures
            index < self@.len() ==> r == Some(self@[index as int]),
            index >= self@.len() ==> r is None,
    {
        if index >= self.len() {
            return None;
        }
        let w = self.internal[index / WORD_BITS];
        Some((w >> (index % WORD_BITS) as u64) & 1 == 1)
    }

    /// Appends `value` after the last bit.
    pub fn push(&mut self, value: bool)
        requires
            old(self).wf(),
            old(self)@.len() < usize::MAX,
        ensures
            final(self).wf(),
            final(self)@ == old(self)@.push(value),
            final(self).reserved_words() == old(self).reserved_words(),
    {
        let ghost ws = self.internal@;
        let ghost len = self@.len() as int;
        let n = self.internal.len();
        let b = value as u64;
        if self.index == WORD_BITS {
            self.internal.push(b);
            self.index = 1;
            proof {
                assert forall|p: int| 0 <= p < 64 * n + 64 implies #[trigger] seq_bit(
                    self.internal@,
                    p,
                ) == ((p < len && seq_bit(ws, p)) || (p == len && value)) by {
                    lemma_div(p);
                    if p >= 64 * n {
                        lemma_pos(p, n as int);
                        lemma_bool_word(b, (p % 64) as u64);
                    }
                }
            }
        } else {
            let f = self.index;
            let w = self.internal[n - 1];
            self.internal.set(n - 1, w | (b << f as u64));
            self.index = f + 1;
            proof {
                assert forall|p: int| 0 <= p < 64 * n implies #[trigger] seq_bit(
                    self.internal@,
                    p,
                ) == ((p < len && seq_bit(ws, p)) || (p == len && value)) by {
                    lemma_div(p);
                    if p >= 64 * (n - 1) {
                        lemma_pos(p, n - 1);
                        lemma_or_bit(w, f as u64, b, (p % 64) as u64);
                        assert(seq_bit(ws, p) == word_bit(w, (p % 64) as u64));
                    } else {
                        assert(self.internal@[p / 64] == ws[p / 64]);
                    }
                }
            }
        }
        assert(self@ =~= old(self)@.push(value));
    }

    /// Removes the last bit and returns it, or returns `None` when empty.
    pub fn pop(&mut self) -> (r: Option<bool>)
        requires
            old(self).wf(),
        ensures
            final(self).wf(),
            old(self)@.len() == 0 ==> r is None && final(self)@ == old(self)@,
            old(self)@.len() > 0 ==> r == Some(old(self)@.last()) && final(self)@
                == old(self)@.drop_last(),
            final(self).reserved_words() == old(self).reserved_words(),
    {
        let ghost ws = self.internal@;
        let ghost len = self@.len() as int;
        let n = self.internal.len();
        if n == 0 {
            return None;
        }
        let f = self.index;
        let result;
        if f == 1 {
            let w = self.internal.pop().unwrap();
            self.index = WORD_BITS;
            result = w & 1 == 1;
            proof {
                assert forall|p: int| 0 <= p < 64 * (n - 1) implies seq_bit(self.internal@, p)
                    == seq_bit(ws, p) by {
                    lemma_div(p);
                }
                lemma_pos(len - 1, n - 1);
                assert(result == word_bit(w, 0)) by (bit_vector)
                    requires
                        result == (w & 1 == 1),
                ;
            }
        } else {
            let nf = f - 1;
            let w = self.internal[n - 1];
            result = (w >> nf as u64) & 1 == 1;
            proof {
                lemma_low_mask_exec(nf as u64);
            }
            self.internal.set(n - 1, w & ((1u64 << nf as u64) - 1));
            self.index = nf;
            proof {
                assert forall|p: int| 0 <= p < 64 * n implies #[trigger] seq_bit(
                    self.internal@,
                    p,
                ) == (p < len - 1 && seq_bit(ws, p)) by {
                    lemma_div(p);
                    if p >= 64 * (n - 1) {
                        lemma_pos(p, n - 1);
                        lemma_and_low_mask(w, nf as u64, (p % 64) as u64);
                    }
                }
                lemma_pos(len - 1, n - 1);
            }
        }
        assert(self@ =~= old(self)@.drop_last());
        Some(result)
    }

    /// Inserts `value` at `index`, moving the bits from `index` on up by one.
    ///
    /// `index` may equal the length, which appends. When the last word is full, the bit carried
    /// out of it starts a new word.
    pub fn insert(&mut self, index: usize, value: bool)
        requires
            old(self).wf(),
            index <= old(self)@.len(),
            old(self)@.len() < usize::MAX,
        ensures
            final(self).wf(),
            final(self)@ == old(self)@.insert(index as int, value),
            final(self).reserved_words() == old(self).reserved_words(),
    {
        let len = self.len();
        if index == len {
            self.push(value);
            assert(self@ =~= old(self)@.insert(index as int, value));
            return;
        }
        let ghost ws = self.internal@;
        let n = self.internal.len();
        let f = self.index;
        let q = index / WORD_BITS;
        let r = (index % WORD_BITS) as u64;
        let b = value as u64;
        proof {
            lemma_div(index as int);
            lemma_low_mask_exec(r);
        }
        let w = self.internal[q];
        let m = (1u64 << r) - 1;
        let mut carry = w >> 63u64;
        self.internal.set(q, (w & m) | ((w & !m) << 1u64) | (b << r));
        proof {
            lemma_top_bit(w);
            lemma_pos(64 * q + 63, q as int);
            assert forall|p: int| 0 <= p < 64 * (q + 1) implies #[trigger] seq_bit(
                self.internal@,
                p,
            ) == if p < index {
                seq_bit(ws, p)
            } else if p == index {
                value
            } else {
                seq_bit(ws, p - 1)
            } by {
                lemma_div(p);
                if p >= 64 * q {
                    lemma_pos(p, q as int);
                    lemma_open_slot(w, r, b, (p % 64) as u64);
                    if p > index {
                        lemma_pos(p - 1, q as int);
                    }
                } else {
                    assert(self.internal@[p / 64] == ws[p / 64]);
                }
            }
        }
        let mut j = q + 1;
        while j < n
            invariant
                q < j <= n,
                n == ws.len(),
                self.internal@.len() == n,
                self.index == f,
                self.reserved == old(self).reserved,
                index < 64 * q + 64,
                carry <= 1,
                (carry == 1) == seq_bit(ws, 64 * j - 1),
                forall|p: int|
                    0 <= p < 64 * j ==> #[trigger] seq_bit(self.internal@, p) == if p < index {
                        seq_bit(ws, p)
                    } else if p == index {
                        value
                    } else {
                        seq_bit(ws, p - 1)
                    },
                forall|i: int| j <= i < n ==> self.internal@[i] == ws[i],
            decreases n - j,
        {
            let ghost before = self.internal@;
            let cw = self.internal[j];
            let next = cw >> 63u64;
            self.internal.set(j, (cw << 1u64) | carry);
            proof {
                lemma_top_bit(cw);
                lemma_pos(64 * j + 63, j as int);
                assert forall|p: int| 0 <= p < 64 * (j + 1) implies #[trigger] seq_bit(
                    self.internal@,
                    p,
                ) == if p < index {
                    seq_bit(ws, p)
                } else if p == index {
                    value
                } else {
                    seq_bit(ws, p - 1)
                } by {
                    lemma_div(p);
                    if p >= 64 * j {
                        lemma_pos(p, j as int);
                        lemma_shift_up(cw, carry, (p % 64) as u64);
                        if p > 64 * j {
                            lemma_pos(p - 1, j as int);
                        }
                    } else {
                        assert(self.internal@[p / 64] == before[p / 64]);
                        assert(seq_bit(self.internal@, p) == seq_bit(before, p));
                    }
                }
            }
            carry = next;
            j = j + 1;
        }
        let ghost mid = self.internal@;
        if f == WORD_BITS {
            self.internal.push(carry);
            self.index = 1;
            proof {
                assert forall|p: int| 0 <= p < 64 * n + 64 implies #[trigger] seq_bit(
                    self.internal@,
                    p,
                ) == if p < index {
                    seq_bit(ws, p)
                } else if p == index {
                    value
                } else {
                    p <= len && seq_bit(ws, p - 1)
                } by {
                    lemma_div(p);
                    if p >= 64 * n {
                        lemma_pos(p, n as int);
                        lemma_bool_word(carry, (p % 64) as u64);
                    } else {
                        assert(self.internal@[p / 64] == mid[p / 64]);
                        assert(seq_bit(mid, p) == seq_bit(self.internal@, p));
                    }
                }
            }
        } else {
            self.index = f + 1;
            proof {
                assert forall|p: int| 0 <= p < 64 * n implies #[trigger] seq_bit(
                    self.internal@,
                    p,
                ) == if p < index {
                    seq_bit(ws, p)
                } else if p == index {
                    value
                } else {
                    p <= len && seq_bit(ws, p - 1)
                } by {
                    if p > len {
                        assert(!seq_bit(ws, p - 1));
                    }
                }
            }
        }
        assert(self@ =~= old(self)@.insert(index as int, value));
    }

    /// Removes the bit at `index` and returns it, moving the bits after it down by one.
    ///
    /// `index` must be below the length. When the last word is left with no bit in use, it is
    /// dropped.
    pub fn remove(&mut self, index: usize) -> (r: bool)
        requires
            old(self).wf(),
            index < old(self)@.len(),
        ensures
            final(self).wf(),
            r == old(self)@[index as int],
            final(self)@ == old(self)@.remove(index as int),
            final(self).reserved_words() == old(self).reserved_words(),
    {
        let ghost ws = self.internal@;
        let ghost len = self@.len() as int;
        let n = self.internal.len();
        let f = self.index;
        let q = index / WORD_BITS;
        let r = (index % WORD_BITS) as u64;
        proof {
            lemma_div(index as int);
            lemma_low_mask_exec(r);
        }
        let mut carry: u64 = 0;
        let mut j = n;
        while j > q + 1
            invariant
                q + 1 <= j <= n,
                n == ws.len(),
                self.internal@.len() == n,
                self.index == f,
                self.reserved == old(self).reserved,
                carry <= 1,
                (carry == 1) == (j < n && seq_bit(ws, 64 * j)),
                forall|p: int|
                    64 * j <= p < 64 * n ==> #[trigger] seq_bit(self.internal@, p) == (p + 1 < 64
                        * n && seq_bit(ws, p + 1)),
                forall|i: int| 0 <= i < j ==> self.internal@[i] == ws[i],
            decreases j,
        {
            j = j - 1;
            let ghost before = self.internal@;
            let cw = self.internal[j];
            let next = cw & 1;
            self.internal.set(j, (cw >> 1u64) | (carry << 63u64));
            proof {
                lemma_bottom_bit(cw);
                lemma_pos(64 * j, j as int);
                assert forall|p: int| 64 * j <= p < 64 * n implies #[trigger] seq_bit(
                    self.internal@,
                    p,
                ) == (p + 1 < 64 * n && seq_bit(ws, p + 1)) by {
                    lemma_div(p);
                    if p < 64 * j + 64 {
                        lemma_pos(p, j as int);
                        lemma_shift_down(cw, carry, (p % 64) as u64);
                        if p < 64 * j + 63 {
                            lemma_pos(p + 1, j as int);
                        }
                    } else {
                        assert(self.internal@[p / 64] == before[p / 64]);
                        assert(seq_bit(self.internal@, p) == seq_bit(before, p));
                    }
                }
            }
            carry = next;
        }
        let ghost before = self.internal@;
        let w = self.internal[q];
        let result = (w >> r) & 1 == 1;
        let m = (1u64 << r) - 1;
        self.internal.set(q, (w & m) | ((w >> 1u64) & !m) | (carry << 63u64));
        proof {
            lemma_pos(index as int, q as int);
            lemma_pos(64 * q + 64, q + 1);
            assert forall|p: int| 0 <= p < 64 * n implies #[trigger] seq_bit(self.internal@, p) == (
            if p < index {
                seq_bit(ws, p)
            } else {
                p + 1 < 64 * n && seq_bit(ws, p + 1)
            }) by {
                lemma_div(p);
                if p >= 64 * q + 64 {
                    assert(self.internal@[p / 64] == before[p / 64]);
                    assert(seq_bit(self.internal@, p) == seq_bit(before, p));
                } else if p >= 64 * q {
                    lemma_pos(p, q as int);
                    lemma_close_slot(w, r, carry, (p % 64) as u64);
                    if p < 64 * q + 63 {
                        lemma_pos(p + 1, q as int);
                    }
                } else {
                    assert(self.internal@[p / 64] == ws[p / 64]);
                }
            }
        }
        let ghost mid = self.internal@;
        if f == 1 {
            self.internal.pop();
            self.index = WORD_BITS;
            proof {
                assert forall|p: int| 0 <= p < 64 * (n - 1) implies #[trigger] seq_bit(
                    self.internal@,
                    p,
                ) == seq_bit(mid, p) by {
                    lemma_div(p);
                }
            }
        } else {
            self.index = f - 1;
        }
        assert(self@ =~= old(self)@.remove(index as int));
        result
    }

    /// An empty sequence with room for at least `bits` bits: `bits / 64` words, rounded up,
    /// are reserved.
    pub fn with_capacity(bits: usize) -> (r: Self)
        ensures
            r.wf(),
            r@ == Seq::<bool>::empty(),
            r.words().len() == 0,
            r.reserved_words() == words_needed(bits as nat),
    {
        let words = words_for_bits(bits);
        let r = with_reserved_words(words, WORD_BITS);
        assert(r@ =~= Seq::<bool>::empty());
        r
    }

    /// The number of bits the reserved words can hold, saturated at `usize::MAX`.
    pub fn capacity(&self) -> (r: usize)
        requires
            self.wf(),
        ensures
            exists|words: nat|
                words >= self.words().len() && words >= self.reserved_words() && r
                    == #[trigger] capacity_bits(words),
            r >= capacity_bits(self.reserved_words()),
            r >= self@.len(),
    {
        let words = word_capacity(self);
        bits_for_words(words)
    }

    /// The storage words, read-only.
    pub fn internal(&self) -> (r: &Vec<u64>)
        ensures
            r@ == self.words(),
    {
        &self.internal
    }

    /// The storage words, writable. The caller keeps the packing: whatever the words are left
    /// as is what the sequence then holds, with the same fill of the last word. Since the caller
    /// may also shrink the storage, nothing is known of its reservation afterwards.
    pub fn internal_mut(&mut self) -> (r: &mut Vec<u64>)
        ensures
            r@ == old(self).words(),
            final(self).words() == final(r)@,
            final(self).fill() == old(self).fill(),
            final(self).reserved_words() == 0,
    {
        self.reserved = Ghost(0);
        &mut self.internal
    }

    /// The bits as text: `[b0, b1, ...]` followed by a line break; `[]` when empty.
    pub fn to_string(&self) -> (r: String)
        requires
            self.wf(),
        ensures
            r@ == render(self@),
    {
        let len = self.len();
        let mut out = String::from_str("[");
        let mut i: usize = 0;
        while i < len
            invariant
                self.wf(),
                len == self@.len(),
                i <= len,
                out@ == "["@ + list_text(self@.take(i as int)),
            decreases len - i,
        {
            let b = self.get(i).unwrap();
            if i > 0 {
                out.append(", ");
            }
            out.append(if b { "true" } else { "false" });
            proof {
                let t = self@.take(i as int + 1);
                assert(t.drop_last() =~= self@.take(i as int));
            }
            i = i + 1;
        }
        out.append("]\n");
        assert(self@.take(len as int) =~= self@);
        out
    }
}

} // verus!
