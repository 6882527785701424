//! Fixed-length packed bit vectors.

use crate::text::{binary_digits, decimal_digits, push_binary, push_decimal};
use vstd::prelude::*;
use vstd::string::StringExecFns;

verus! {

/// Number of bits in one storage word.
pub const BLOCK_SIZE: usize = 32;

/// Bit `i` of the word `w`, counted from the least significant end.
pub open spec fn word_bit(w: u32, i: u32) -> bool {
    (w >> i) & 1 == 1
}

/// Bit `i` of a sequence of words laid end to end, low bits first.
pub open spec fn packed_bit(words: Seq<u32>, i: int) -> bool {
    word_bit(words[i / 32], (i % 32) as u32)
}

/// Number of words that hold `len` bits.
pub open spec fn words_for(len: int) -> int {
    (len + 31) / 32
}

/// The sum of two bit vectors modulo two, position by position.
pub open spec fn xor_bits(a: Seq<bool>, b: Seq<bool>) -> Seq<bool> {
    Seq::new(a.len(), |i: int| a[i] != b[i])
}

/// The positions of the set bits of `bits` from `start` on, in ascending
/// order.
pub open spec fn set_indices_from(bits: Seq<bool>, start: int) -> Seq<int>
    decreases bits.len() - start,
{
    if start < 0 || start >= bits.len() {
        Seq::empty()
    } else if bits[start] {
        seq![start] + set_indices_from(bits, start + 1)
    } else {
        set_indices_from(bits, start + 1)
    }
}

/// The positions of the set bits of `bits`, in ascending order.
pub open spec fn set_indices(bits: Seq<bool>) -> Seq<int> {
    set_indices_from(bits, 0)
}

/// Words in binary, separated by single spaces.
pub open spec fn joined_words(words: Seq<u32>) -> Seq<char>
    decreases words.len(),
{
    if words.len() == 0 {
        Seq::empty()
    } else if words.len() == 1 {
        binary_digits(words[0] as nat)
    } else {
        joined_words(words.drop_last()) + seq![' '] + binary_digits(words.last() as nat)
    }
}

/// The text that shows a bit vector for debugging: its storage words in
/// binary, then its length.
pub open spec fn debug_text(words: Seq<u32>, len: nat) -> Seq<char> {
    "Bitarray { inner: ["@ + joined_words(words) + "], len: "@ + decimal_digits(len) + " }"@
}

/// The set positions from `start` on are exactly the set bits from there on,
/// each listed once, in ascending order.
pub proof fn lemma_set_indices_from(bits: Seq<bool>, start: int)
    requires
        0 <= start,
    ensures
        forall|a: int|
            0 <= a < set_indices_from(bits, start).len() ==> {
                &&& start <= #[trigger] set_indices_from(bits, start)[a] < bits.len()
                &&& bits[set_indices_from(bits, start)[a]]
            },
        forall|a: int, b: int|
            0 <= a < b < set_indices_from(bits, start).len() ==> #[trigger] set_indices_from(
                bits,
                start,
            )[a] < #[trigger] set_indices_from(bits, start)[b],
        forall|i: int|
            start <= i < bits.len() && bits[i] ==> #[trigger] set_indices_from(bits, start).contains(
                i,
            ),
    decreases bits.len() - start,
{
    if start < bits.len() {
        lemma_set_indices_from(bits, start + 1);
        let here = set_indices_from(bits, start);
        let rest = set_indices_from(bits, start + 1);
        if bits[start] {
            assert(here =~= seq![start] + rest);
            assert forall|a: int| 0 <= a < here.len() implies {
                &&& start <= #[trigger] here[a] < bits.len()
                &&& bits[here[a]]
            } by {
                if a > 0 {
                    assert(here[a] == rest[a - 1]);
                }
            }
            assert forall|a: int, b: int| 0 <= a < b < here.len() implies #[trigger] here[a]
                < #[trigger] here[b] by {
                assert(here[b] == rest[b - 1]);
                if a > 0 {
                    assert(here[a] == rest[a - 1]);
                }
            }
            assert forall|i: int| start <= i < bits.len() && bits[i] implies #[trigger] here.contains(
                i,
            ) by {
                if i == start {
                    assert(here[0] == i);
                } else {
                    assert(rest.contains(i));
                    let a = choose|a: int| 0 <= a < rest.len() && rest[a] == i;
                    assert(here[a + 1] == i);
                }
            }
        }
    }
}

/// The set positions of a bit vector are exactly its set bits, each listed
/// once, in ascending order.
pub proof fn lemma_set_indices(bits: Seq<bool>)
    ensures
        forall|a: int|
            0 <= a < set_indices(bits).len() ==> {
                &&& 0 <= #[trigger] set_indices(bits)[a] < bits.len()
                &&& bits[set_indices(bits)[a]]
            },
        forall|a: int, b: int|
            0 <= a < b < set_indices(bits).len() ==> #[trigger] set_indices(bits)[a]
                < #[trigger] set_indices(bits)[b],
        forall|i: int| 0 <= i < bits.len() && bits[i] ==> #[trigger] set_indices(bits).contains(i),
{
    lemma_set_indices_from(bits, 0);
}

/// A bit vector of fixed length, packed into 32-bit words.
pub struct BitArray {
    inner: Vec<u32>,
    len: usize,
}

impl View for BitArray {
    type V = Seq<bool>;

    closed spec fn view(&self) -> Seq<bool> {
        Seq::new(self.len as nat, |i: int| packed_bit(self.inner@, i))
    }
}

proof fn lemma_mask_bits(k: u32, j: u32)
    by (bit_vector)
    requires
        k < 32,
        j < 32,
    ensures
        word_bit(1u32 << k, j) == (j == k),
{
}

proof fn lemma_xor_bits(a: u32, b: u32, j: u32)
    by (bit_vector)
    requires
        j < 32,
    ensures
        word_bit(a ^ b, j) == (word_bit(a, j) != word_bit(b, j)),
{
}

proof fn lemma_or_bits(a: u32, b: u32, j: u32)
    by (bit_vector)
    requires
        j < 32,
    ensures
        word_bit(a | b, j) == (word_bit(a, j) || word_bit(b, j)),
{
}

proof fn lemma_and_not_bits(a: u32, b: u32, j: u32)
    by (bit_vector)
    requires
        j < 32,
    ensures
        word_bit(a & !b, j) == (word_bit(a, j) && !word_bit(b, j)),
{
}

proof fn lemma_and_mask(w: u32, k: u32)
    by (bit_vector)
    requires
        k < 32,
    ensures
        (w & (1u32 << k)) == (if word_bit(w, k) { 1u32 << k } else { 0u32 }),
        (1u32 << k) != 0,
{
}


proof fn lemma_zero_bits(j: u32)
    by (bit_vector)
    requires
        j < 32,
    ensures
        !word_bit(0u32, j),
        word_bit(!0u32, j),
{
}

proof fn lemma_low_ones_bits(rem: u32, j: u32)
    by (bit_vector)
    requires
        0 < rem < 32,
        j < 32,
    ensures
        word_bit(((1u32 << rem) - 1) as u32, j) == (j < rem),
        (1u32 << rem) >= 1,
{
}

proof fn lemma_shifted_out(w: u32, k: u32, j: u32)
    by (bit_vector)
    requires
        k <= j < 32,
        w >> k == 0,
    ensures
        !word_bit(w, j),
{
}

proof fn lemma_shift_step(w: u32, k: u32)
    by (bit_vector)
    requires
        k < 32,
    ensures
        (w >> k) >> 1 == (if k < 31 { w >> ((k + 1) as u32) } else { 0u32 }),
        (w >> k) & 1 == 0 || (w >> k) & 1 == 1,
        (w >> k) != 0 && (w >> k) & 1 == 0 ==> (w >> k) >> 1 != 0,
        w >> 0 == w,
{
}

/// Clear bits can be passed over: the set positions from `a` on are those
/// from `b` on when no bit in between is set.
proof fn lemma_skip_clear(bits: Seq<bool>, a: int, b: int)
    requires
        0 <= a <= b,
        forall|j: int| a <= j < b && j < bits.len() ==> !bits[j],
    ensures
        set_indices_from(bits, a) == set_indices_from(bits, b),
    decreases b - a,
{
    if a < b {
        lemma_skip_clear(bits, a + 1, b);
    }
}

impl BitArray {
    /// The storage invariant: exactly as many words as the length needs, and
    /// every stored bit beyond the length is zero.
    pub closed spec fn wf(&self) -> bool {
        &&& self.inner@.len() == words_for(self.len as int)
        &&& forall|i: int|
            self.len <= i < 32 * self.inner@.len() ==> !#[trigger] packed_bit(self.inner@, i)
    }

    fn _cap_from_len(len: usize) -> (cap: usize)
        ensures
            cap == words_for(len as int),
    {
        if len > 0 {
            (len - 1) / BLOCK_SIZE + 1
        } else {
            0
        }
    }

    fn _access(index: usize) -> (at: (usize, u32))
        ensures
            at.0 == index / 32,
            at.1 == 1u32 << ((index % 32) as u32),
    {
        (index / BLOCK_SIZE, 1u32 << ((index % BLOCK_SIZE) as u32))
    }

    /// The number of bits.
    pub fn len(&self) -> (n: usize)
        ensures
            n == self@.len(),
    {
        self.len
    }


    /// A vector of `len` bits, all clear.
    pub fn zeros(len: usize) -> (ba: Self)
        ensures
            ba.wf(),
            ba@ == Seq::new(len as nat, |i: int| false),
    {
        let cap = Self::_cap_from_len(len);
        let mut inner: Vec<u32> = Vec::new();
        let mut filled: usize = 0;
        while filled < cap
            invariant
                filled <= cap,
                inner@.len() == filled,
                forall|w: int| 0 <= w < filled ==> inner@[w] == 0u32,
            decreases cap - filled,
        {
            inner.push(0u32);
            filled = filled + 1;
        }
        let ba = Self { inner, len };
        proof {
            assert forall|i: int| 0 <= i < 32 * cap implies !packed_bit(ba.inner@, i) by {
                lemma_zero_bits((i % 32) as u32);
            }
            assert(ba@ =~= Seq::new(len as nat, |i: int| false));
        }
        ba
    }

    /// A vector of `len` bits, all set.
    pub fn ones(len: usize) -> (ba: Self)
        ensures
            ba.wf(),
            ba@ == Seq::new(len as nat, |i: int| true),
    {
        let cap = Self::_cap_from_len(len);
        let mut inner: Vec<u32> = Vec::new();
        let mut filled: usize = 0;
        while filled < cap
            invariant
                filled <= cap,
                inner@.len() == filled,
                forall|w: int| 0 <= w < filled ==> inner@[w] == !0u32,
            decreases cap - filled,
        {
            inner.push(!0u32);
            filled = filled + 1;
        }
        let rem = len % BLOCK_SIZE;
        if rem > 0 {
            proof {
                lemma_low_ones_bits(rem as u32, 0);
            }
            inner[cap - 1] = (1u32 << (rem as u32)) - 1;
        }
        let ba = Self { inner, len };
        proof {
            assert forall|i: int| 0 <= i < 32 * cap implies packed_bit(ba.inner@, i) == (i
                < len) by {
                let j = (i % 32) as u32;
                lemma_zero_bits(j);
                if rem > 0 && i / 32 == cap - 1 {
                    lemma_low_ones_bits(rem as u32, j);
                }
            }
            assert(ba@ =~= Seq::new(len as nat, |i: int| true));
        }
        ba
    }

    /// Clears every bit; the length stays.
    pub fn reset(&mut self)
        requires
            old(self).wf(),
        ensures
            final(self).wf(),
            final(self)@ == Seq::new(old(self)@.len(), |i: int| false),
    {
        let cap = self.inner.len();
        let mut at: usize = 0;
        while at < cap
            invariant
                at <= cap,
                self.len == old(self).len,
                self.inner@.len() == cap,
                cap == words_for(self.len as int),
                forall|w: int| 0 <= w < at ==> self.inner@[w] == 0u32,
            decreases cap - at,
        {
            self.inner[at] = 0u32;
            at = at + 1;
        }
        proof {
            assert forall|i: int| 0 <= i < 32 * cap implies !packed_bit(self.inner@, i) by {
                lemma_zero_bits((i % 32) as u32);
            }
            assert(final(self)@ =~= Seq::new(old(self)@.len(), |i: int| false));
        }
    }

    /// Flips bit `index`.
    pub fn negate(&mut self, index: usize)
        requires
            old(self).wf(),
            index < old(self)@.len(),
        ensures
            final(self).wf(),
            final(self)@ == old(self)@.update(index as int, !old(self)@[index as int]),
    {
        let (block, mask) = Self::_access(index);
        let word = self.inner[block];
        self.inner[block] = word ^ mask;
        proof {
            let k = (index % 32) as u32;
            assert forall|i: int| 0 <= i < 32 * self.inner@.len() implies packed_bit(
                self.inner@,
                i,
            ) == (packed_bit(old(self).inner@, i) != (i == index)) by {
                let j = (i % 32) as u32;
                if i / 32 == block {
                    lemma_xor_bits(word, mask, j);
                    lemma_mask_bits(k, j);
                }
            }
            assert(final(self)@ =~= old(self)@.update(index as int, !old(self)@[index as int]));
        }
    }
    /// Writes `val` to bit `index`.
    pub fn set_bool(&mut self, index: usize, val: bool)
        requires
            old(self).wf(),
            index < old(self)@.len(),
        ensures
            final(self).wf(),
            final(self)@ == old(self)@.update(index as int, val),
    {
        let (block, mask) = Self::_access(index);
        let word = self.inner[block];
        if val {
            self.inner[block] = word | mask;
        } else {
            self.inner[block] = word & !mask;
        }
        proof {
            let k = (index % 32) as u32;
            assert forall|i: int| 0 <= i < 32 * self.inner@.len() implies packed_bit(
                self.inner@,
                i,
            ) == (if i == index {
                val
            } else {
                packed_bit(old(self).inner@, i)
            }) by {
                let j = (i % 32) as u32;
                if i / 32 == block {
                    lemma_or_bits(word, mask, j);
                    lemma_and_not_bits(word, mask, j);
                    lemma_mask_bits(k, j);
                }
            }
            assert(final(self)@ =~= old(self)@.update(index as int, val));
        }
    }

    /// Bit `index` in place within its word: the word's mask for that bit
    /// if the bit is set, zero if it is clear.
    pub fn get_masked(&self, index: usize) -> (masked: u32)
        requires
            self.wf(),
            index < self@.len(),
        ensures
            masked == (if self@[index as int] {
                1u32 << ((index % 32) as u32)
            } else {
                0u32
            }),
            masked != 0 <==> self@[index as int],
    {
        let (block, mask) = Self::_access(index);
        proof {
            lemma_and_mask(self.inner@[block as int], (index % 32) as u32);
        }
        self.inner[block] & mask
    }

    /// Reads bit `index`.
    pub fn get_bool(&self, index: usize) -> (bit: bool)
        requires
            self.wf(),
            index < self@.len(),
        ensures
            bit == self@[index as int],
    {
        self.get_masked(index) != 0
    }

    /// Adds `other` into `self` bit by bit, modulo two.
    pub fn xor_all(&mut self, other: &Self)
        requires
            old(self).wf(),
            other.wf(),
            old(self)@.len() == other@.len(),
        ensures
            final(self).wf(),
            final(self)@ == xor_bits(old(self)@, other@),
    {
        let cap = self.inner.len();
        let mut at: usize = 0;
        while at < cap
            invariant
                at <= cap,
                old(self).wf(),
                other.wf(),
                old(self).inner@.len() == cap,
                self.len == old(self).len,
                self.len == other.len,
                self.inner@.len() == cap,
                other.inner@.len() == cap,
                forall|w: int| 0 <= w < at ==> self.inner@[w] == old(self).inner@[w] ^ other.inner@[w],
                forall|w: int| at <= w < cap ==> self.inner@[w] == old(self).inner@[w],
            decreases cap - at,
        {
            let word = self.inner[at];
            self.inner[at] = word ^ other.inner[at];
            at = at + 1;
        }
        proof {
            assert forall|i: int| 0 <= i < 32 * cap implies #[trigger] packed_bit(self.inner@, i)
                == (packed_bit(old(self).inner@, i) != packed_bit(other.inner@, i)) by {
                lemma_xor_bits(old(self).inner@[i / 32], other.inner@[i / 32], (i % 32) as u32);
            }
            assert(final(self)@ =~= xor_bits(old(self)@, other@));
        }
    }

    /// Makes `self` a copy of `other`, taking its length too.
    pub fn copy_from(&mut self, other: &Self)
        requires
            other.wf(),
        ensures
            final(self).wf(),
            final(self)@ == other@,
            final(self).words() == other.words(),
    {
        let cap = other.inner.len();
        let mut inner: Vec<u32> = Vec::new();
        let mut at: usize = 0;
        while at < cap
            invariant
                at <= cap,
                cap == other.inner@.len(),
                inner@.len() == at,
                forall|w: int| 0 <= w < at ==> inner@[w] == other.inner@[w],
            decreases cap - at,
        {
            inner.push(other.inner[at]);
            at = at + 1;
        }
        self.inner = inner;
        self.len = other.len;
        proof {
            assert(self.inner@ =~= other.inner@);
            assert(final(self)@ =~= other@);
        }
    }
    /// The storage words, low positions first.
    pub closed spec fn words(&self) -> Seq<u32> {
        self.inner@
    }

    /// The text that shows this vector for debugging.
    pub open spec fn debug_view(&self) -> Seq<char> {
        debug_text(self.words(), self@.len())
    }

    /// The storage words hold the bits of the vector, and zeros above them.
    pub proof fn lemma_words(&self)
        requires
            self.wf(),
        ensures
            self.words().len() == words_for(self@.len() as int),
            forall|i: int|
                0 <= i < 32 * self.words().len() ==> #[trigger] packed_bit(self.words(), i) == (i
                    < self@.len() && self@[i]),
    {
    }

    /// The vector shown for debugging: its storage words in binary, then its
    /// length.
    pub fn debug_string(&self) -> (text: String)
        ensures
            text@ == self.debug_view(),
    {
        let mut text = String::from_str("Bitarray { inner: [");
        let ghost head = text@;
        let cap = self.inner.len();
        let mut at: usize = 0;
        while at < cap
            invariant
                at <= cap,
                cap == self.inner@.len(),
                text@ == head + joined_words(self.inner@.take(at as int)),
            decreases cap - at,
        {
            proof {
                reveal_strlit(" ");
                assert(self.inner@.take(at + 1).drop_last() =~= self.inner@.take(at as int));
            }
            if at > 0 {
                text.append(" ");
            }
            push_binary(&mut text, self.inner[at]);
            proof {
                assert(text@ =~= head + joined_words(self.inner@.take(at + 1)));
            }
            at = at + 1;
        }
        proof {
            assert(self.inner@.take(cap as int) =~= self.inner@);
        }
        text.append("], len: ");
        push_decimal(&mut text, self.len);
        text.append(" }");
        proof {
            assert(text@ =~= self.debug_view());
        }
        text
    }

    /// An iterator over the positions of the set bits, in ascending order.
    pub fn true_indices(&self) -> (it: TIndices<'_>)
        requires
            self.wf(),
        ensures
            it.wf(),
            it.upcoming() == set_indices(self@),
    {
        TIndices::new(self)
    }
}

impl Clone for BitArray {
    /// A copy with the same bits.
    fn clone(&self) -> (copy: Self)
        ensures
            copy@ == self@,
            copy.words() == self.words(),
            self.wf() ==> copy.wf(),
    {
        let cap = self.inner.len();
        let mut inner: Vec<u32> = Vec::new();
        let mut at: usize = 0;
        while at < cap
            invariant
                at <= cap,
                cap == self.inner@.len(),
                inner@.len() == at,
                forall|w: int| 0 <= w < at ==> inner@[w] == self.inner@[w],
            decreases cap - at,
        {
            inner.push(self.inner[at]);
            at = at + 1;
        }
        let copy = BitArray { inner, len: self.len };
        proof {
            assert(copy.inner@ =~= self.inner@);
            assert(copy@ =~= self@);
        }
        copy
    }
}

/// A cursor over the set bits of a [`BitArray`], lowest position first.
pub struct TIndices<'a> {
    barray: &'a BitArray,
    current_blk: usize,
    current_bit: usize,
    buf: u32,
}

impl<'a> TIndices<'a> {
    /// The cursor points into a word of the vector and holds what is left of
    /// that word above the bits already passed.
    pub closed spec fn wf(&self) -> bool {
        &&& self.barray.wf()
        &&& self.current_bit <= 32
        &&& if self.barray.inner@.len() == 0 {
            self.current_blk == 0 && self.buf == 0
        } else {
            &&& self.current_blk < self.barray.inner@.len()
            &&& self.buf == (if self.current_bit < 32 {
                self.barray.inner@[self.current_blk as int] >> (self.current_bit as u32)
            } else {
                0u32
            })
        }
    }

    /// The positions still to be handed out, in the order in which `next`
    /// will return them.
    pub closed spec fn upcoming(&self) -> Seq<int> {
        set_indices_from(self.barray@, self.current_blk * 32 + self.current_bit)
    }

    /// A cursor at the start of `barray`.
    pub fn new(barray: &'a BitArray) -> (it: Self)
        requires
            barray.wf(),
        ensures
            it.wf(),
            it.upcoming() == set_indices(barray@),
    {
        if barray.inner.len() > 0 {
            proof {
                lemma_shift_step(barray.inner@[0], 0);
            }
            TIndices { barray, current_blk: 0, current_bit: 0, buf: barray.inner[0] }
        } else {
            TIndices { barray, current_blk: 0, current_bit: 0, buf: 0 }
        }
    }

    /// Hands out the next set position, or `None` when none is left.
    pub fn next(&mut self) -> (item: Option<usize>)
        requires
            old(self).wf(),
        ensures
            final(self).wf(),
            match item {
                Some(i) => old(self).upcoming().len() > 0 && i == old(self).upcoming()[0]
                    && final(self).upcoming() == old(self).upcoming().skip(1),
                None => old(self).upcoming().len() == 0 && final(self).upcoming().len() == 0,
            },
    {
        let blocks = self.barray.inner.len();
        if blocks == 0 {
            return None;
        }
        let ghost bits = self.barray@;
        let ghost words = self.barray.inner@;
        while self.buf == 0
            invariant
                self.wf(),
                self.barray == old(self).barray,
                bits == self.barray@,
                words == self.barray.inner@,
                blocks == words.len(),
                blocks > 0,
                self.upcoming() == old(self).upcoming(),
            decreases blocks - self.current_blk,
        {
            proof {
                let raw = self.current_blk * 32 + self.current_bit;
                let end = (self.current_blk + 1) * 32;
                assert forall|j: int| raw <= j < end && j < bits.len() implies !bits[j] by {
                    if self.current_bit < 32 {
                        lemma_shifted_out(
                            words[self.current_blk as int],
                            self.current_bit as u32,
                            (j % 32) as u32,
                        );
                    }
                    assert(bits[j] == packed_bit(words, j));
                }
                lemma_skip_clear(bits, raw, end);
            }
            if self.current_blk + 1 < blocks {
                self.current_blk = self.current_blk + 1;
                self.current_bit = 0;
                self.buf = self.barray.inner[self.current_blk];
                proof {
                    lemma_shift_step(words[self.current_blk as int], 0);
                }
            } else {
                proof {
                    assert(bits.len() <= (self.current_blk + 1) * 32);
                }
                return None;
            }
        }
        while self.buf & 1 == 0
            invariant
                self.wf(),
                self.barray == old(self).barray,
                bits == self.barray@,
                words == self.barray.inner@,
                blocks == words.len(),
                blocks > 0,
                self.buf != 0,
                self.upcoming() == old(self).upcoming(),
            decreases 32 - self.current_bit,
        {
            proof {
                let raw = self.current_blk * 32 + self.current_bit;
                lemma_shift_step(words[self.current_blk as int], self.current_bit as u32);
                if raw < bits.len() {
                    assert(bits[raw] == packed_bit(words, raw));
                }
                lemma_skip_clear(bits, raw, raw + 1);
            }
            self.current_bit = self.current_bit + 1;
            self.buf = self.buf >> 1;
        }
        let found = self.current_blk * BLOCK_SIZE + self.current_bit;
        proof {
            lemma_shift_step(words[self.current_blk as int], self.current_bit as u32);
            assert(packed_bit(words, found as int));
            assert(found < bits.len());
            assert(bits[found as int] == packed_bit(words, found as int));
            assert(self.upcoming() =~= seq![found as int] + set_indices_from(bits, found + 1));
            assert(self.upcoming().skip(1) =~= set_indices_from(bits, found + 1));
        }
        self.current_bit = self.current_bit + 1;
        self.buf = self.buf >> 1;
        Some(found)
    }
}

} // verus!
