//! A fixed-capacity set of boolean flags packed 64 to a word.
//!
//! The view of a `BitArray` is the sequence of its flags over the whole
//! word-aligned storage, so the capacity seen by the checked accessors may
//! exceed the bit count the array was created for by up to 63 flags.

use vstd::prelude::*;
use vstd::arithmetic::div_mod::lemma_fundamental_div_mod;

verus! {

/// Holds of a word `w` exactly when its bit `k` is set.
pub open spec fn word_bit(w: u64, k: u64) -> bool {
    (w >> k) & 1u64 == 1u64
}

/// Packed array of boolean flags, backed by 64-bit words.
pub struct BitArray(Vec<u64>);

impl View for BitArray {
    type V = Seq<bool>;

    closed spec fn view(&self) -> Seq<bool> {
        Seq::new((self.0.len() * 64) as nat, |i: int| word_bit(self.0[i / 64], (i % 64) as u64))
    }
}

proof fn lemma_or_bit_set(w: u64, k: u64)
    requires
        k < 64,
    ensures
        word_bit(w | (1u64 << k), k),
{
    assert(((w | (1u64 << k)) >> k) & 1u64 == 1u64) by (bit_vector)
        requires k < 64;
}

proof fn lemma_or_bit_other(w: u64, k: u64, j: u64)
    requires
        k < 64,
        j < 64,
        j != k,
    ensures
        word_bit(w | (1u64 << k), j) == word_bit(w, j),
{
    assert((((w | (1u64 << k)) >> j) & 1u64) == ((w >> j) & 1u64)) by (bit_vector)
        requires k < 64, j < 64, j != k;
}

proof fn lemma_andnot_bit_clear(w: u64, k: u64)
    requires
        k < 64,
    ensures
        !word_bit(w & !(1u64 << k), k),
{
    assert(((w & !(1u64 << k)) >> k) & 1u64 == 0u64) by (bit_vector)
        requires k < 64;
}

proof fn lemma_andnot_bit_other(w: u64, k: u64, j: u64)
    requires
        k < 64,
        j < 64,
        j != k,
    ensures
        word_bit(w & !(1u64 << k), j) == word_bit(w, j),
{
    assert((((w & !(1u64 << k)) >> j) & 1u64) == ((w >> j) & 1u64)) by (bit_vector)
        requires k < 64, j < 64, j != k;
}

proof fn lemma_zero_word_bit(k: u64)
    requires
        k < 64,
    ensures
        !word_bit(0u64, k),
{
    assert((0u64 >> k) & 1u64 == 0u64) by (bit_vector)
        requires k < 64;
}

proof fn lemma_ones_word_bit(k: u64)
    requires
        k < 64,
    ensures
        word_bit(0xffff_ffff_ffff_ffffu64, k),
{
    assert((0xffff_ffff_ffff_ffffu64 >> k) & 1u64 == 1u64) by (bit_vector)
        requires k < 64;
}

/// Two flag positions in the same word with the same bit offset are equal.
proof fn lemma_same_slot(i: int, j: int)
    requires
        0 <= i,
        0 <= j,
        i / 64 == j / 64,
        i % 64 == j % 64,
    ensures
        i == j,
{
    lemma_fundamental_div_mod(i, 64);
    lemma_fundamental_div_mod(j, 64);
}

impl BitArray {
    /// Reads flag `index`; the caller must keep the index within capacity.
    pub fn get_unchecked(&self, index: usize) -> (r: bool)
        requires
            index < self@.len(),
        ensures
            r == self@[index as int],
    {
        let w = self.0[index / 64];
        ((w >> ((index % 64) as u64)) & 1u64) == 1u64
    }

    /// Sets flag `index` to true; the caller must keep the index within capacity.
    pub fn set_unchecked(&mut self, index: usize)
        requires
            index < old(self)@.len(),
        ensures
            final(self)@ == old(self)@.update(index as int, true),
    {
        let block = index / 64;
        let sh = (index % 64) as u64;
        let w = self.0[block];
        self.0.set(block, w | (1u64 << sh));
        proof {
            lemma_or_bit_set(w, sh);
            assert forall|j: int| 0 <= j < self@.len() && j != index implies
                self@[j] == old(self)@[j] by {
                if j / 64 == block as int {
                    if j % 64 == index as int % 64 {
                        lemma_same_slot(j, index as int);
                    }
                    lemma_or_bit_other(w, sh, (j % 64) as u64);
                }
            }
            assert(self@ =~= old(self)@.update(index as int, true));
        }
    }

    /// Sets flag `index` to false; the caller must keep the index within capacity.
    pub fn reset_unchecked(&mut self, index: usize)
        requires
            index < old(self)@.len(),
        ensures
            final(self)@ == old(self)@.update(index as int, false),
    {
        let block = index / 64;
        let sh = (index % 64) as u64;
        let w = self.0[block];
        self.0.set(block, w & !(1u64 << sh));
        proof {
            lemma_andnot_bit_clear(w, sh);
            assert forall|j: int| 0 <= j < self@.len() && j != index implies
                self@[j] == old(self)@[j] by {
                if j / 64 == block as int {
                    if j % 64 == index as int % 64 {
                        lemma_same_slot(j, index as int);
                    }
                    lemma_andnot_bit_other(w, sh, (j % 64) as u64);
                }
            }
            assert(self@ =~= old(self)@.update(index as int, false));
        }
    }

    /// Writes `value` to flag `index`; the caller must keep the index within capacity.
    pub fn set_value_unchecked(&mut self, index: usize, value: bool)
        requires
            index < old(self)@.len(),
        ensures
            final(self)@ == old(self)@.update(index as int, value),
    {
        match value {
            true => self.set_unchecked(index),
            false => self.reset_unchecked(index),
        }
    }

    /// Reads flag `index`, or yields nothing when the index is out of capacity.
    pub fn get(&self, index: usize) -> (r: Option<bool>)
        ensures
            index < self@.len() ==> r == Some(self@[index as int]),
            index >= self@.len() ==> r is None,
    {
        if index / 64 < self.0.len() {
            Some(self.get_unchecked(index))
        } else {
            None
        }
    }

    /// Sets flag `index` to true and reports whether the index was in capacity.
    pub fn set(&mut self, index: usize) -> (r: bool)
        ensures
            index < old(self)@.len() ==> r && final(self)@ == old(self)@.update(index as int, true),
            index >= old(self)@.len() ==> !r && final(self)@ == old(self)@,
    {
        if index / 64 < self.0.len() {
            self.set_unchecked(index);
            true
        } else {
            false
        }
    }

    /// Sets flag `index` to false and reports whether the index was in capacity.
    pub fn reset(&mut self, index: usize) -> (r: bool)
        ensures
            index < old(self)@.len() ==> r && final(self)@ == old(self)@.update(index as int, false),
            index >= old(self)@.len() ==> !r && final(self)@ == old(self)@,
    {
        if index / 64 < self.0.len() {
            self.reset_unchecked(index);
            true
        } else {
            false
        }
    }

    /// Writes `value` to flag `index` and reports whether the index was in capacity.
    pub fn set_value(&mut self, index: usize, value: bool) -> (r: bool)
        ensures
            index < old(self)@.len() ==> r && final(self)@ == old(self)@.update(index as int, value),
            index >= old(self)@.len() ==> !r && final(self)@ == old(self)@,
    {
        match value {
            true => self.set(index),
            false => self.reset(index),
        }
    }

    /// Allocates capacity for `n` flags, every flag false.
    pub fn new_zeros(n: usize) -> (r: Self)
        requires
            n <= usize::MAX - 63,
        ensures
            r@.len() % 64 == 0,
            n <= r@.len() < n + 64,
            forall|i: int| 0 <= i < r@.len() ==> !r@[i],
    {
        let blocks = if n % 64 == 0 { n / 64 } else { n / 64 + 1 };
        proof {
            lemma_fundamental_div_mod(n as int, 64);
        }
        let mut words: Vec<u64> = Vec::new();
        while words.len() < blocks
            invariant
                words.len() <= blocks,
                forall|k: int| 0 <= k < words.len() ==> words[k] == 0u64,
            decreases blocks - words.len(),
        {
            words.push(0u64);
        }
        let r = BitArray(words);
        proof {
            assert forall|i: int| 0 <= i < r@.len() implies !r@[i] by {
                lemma_zero_word_bit((i % 64) as u64);
            }
        }
        r
    }

    /// Allocates capacity for `n` flags, every flag true.
    pub fn new_ones(n: usize) -> (r: Self)
        requires
            n <= usize::MAX - 63,
        ensures
            r@.len() % 64 == 0,
            n <= r@.len() < n + 64,
            forall|i: int| 0 <= i < r@.len() ==> r@[i],
    {
        let blocks = if n % 64 == 0 { n / 64 } else { n / 64 + 1 };
        proof {
            lemma_fundamental_div_mod(n as int, 64);
        }
        let mut words: Vec<u64> = Vec::new();
        while words.len() < blocks
            invariant
                words.len() <= blocks,
                forall|k: int| 0 <= k < words.len() ==> words[k] == 0xffff_ffff_ffff_ffffu64,
            decreases blocks - words.len(),
        {
            words.push(0xffff_ffff_ffff_ffffu64);
        }
        let r = BitArray(words);
        proof {
            assert forall|i: int| 0 <= i < r@.len() implies r@[i] by {
                lemma_ones_word_bit((i % 64) as u64);
            }
        }
        r
    }

    /// Starts a cursor over all flags from index 0 through the full capacity.
    pub fn iter(&self) -> (r: BitArrayIterator)
        ensures
            r.flags() == self@,
            r.pos() == 0,
    {
        BitArrayIterator { bit_array: self, index: 0 }
    }
}

/// Cursor over the flags of a `BitArray`, from index 0 through the full
/// word-aligned capacity.
pub struct BitArrayIterator<'a> {
    bit_array: &'a BitArray,
    index: usize,
}

impl<'a> BitArrayIterator<'a> {
    /// The flags the cursor walks over.
    pub closed spec fn flags(&self) -> Seq<bool> {
        self.bit_array@
    }

    /// The position of the next flag to yield.
    pub closed spec fn pos(&self) -> int {
        self.index as int
    }

    /// Yields the flag at the current position and advances, or yields
    /// nothing once the capacity is exhausted.
    pub fn next(&mut self) -> (r: Option<bool>)
        requires
            old(self).flags().len() <= usize::MAX,
        ensures
            final(self).flags() == old(self).flags(),
            old(self).pos() < old(self).flags().len() ==> r == Some(
                old(self).flags()[old(self).pos()],
            ) && final(self).pos() == old(self).pos() + 1,
            old(self).pos() >= old(self).flags().len() ==> r is None && final(self).pos() == old(
                self,
            ).pos(),
    {
        let r = self.bit_array.get(self.index);
        if r.is_some() {
            self.index = self.index + 1;
        }
        r
    }
}

/// After setting flag `i`, reading flag `i` yields true, and no other
/// flag changes.
pub proof fn lemma_set_then_get(bits: Seq<bool>, i: int)
    requires
        0 <= i < bits.len(),
    ensures
        bits.update(i, true)[i] == true,
        forall|j: int| 0 <= j < bits.len() && j != i ==> bits.update(i, true)[j] == bits[j],
{
}

/// After resetting flag `i`, reading flag `i` yields false — in particular
/// right after the same flag was set — and no other flag changes.
pub proof fn lemma_reset_then_get(bits: Seq<bool>, i: int)
    requires
        0 <= i < bits.len(),
    ensures
        bits.update(i, true).update(i, false)[i] == false,
        bits.update(i, false)[i] == false,
        forall|j: int| 0 <= j < bits.len() && j != i ==> bits.update(i, false)[j] == bits[j],
{
}

/// Writing `v` to flag `i` then reading flag `i` yields `v`, and no other
/// flag changes.
pub proof fn lemma_set_value_then_get(bits: Seq<bool>, i: int, v: bool)
    requires
        0 <= i < bits.len(),
    ensures
        bits.update(i, v)[i] == v,
        forall|j: int| 0 <= j < bits.len() && j != i ==> bits.update(i, v)[j] == bits[j],
{
}

} // verus!
