//! A source of words that repeats one sequence, for runs that must be
//! reproducible.

use crate::operation::emits_all;
use crate::rng::RandomSource;
use vstd::arithmetic::div_mod::{lemma_add_mod_noop, lemma_mod_self_0, lemma_small_mod};
use vstd::prelude::*;

verus! {

/// A source that hands out the words of a fixed, non-empty sequence in
/// order and starts over after the last.
pub struct RepeatSeqFakeRng {
    cnt: usize,
    seq: Vec<u64>,
}

/// Byte `k` of `word`, counted from the least significant end.
pub open spec fn byte_of(word: u64, k: int) -> u8 {
    ((word >> ((8 * k) as u64)) & 0xff) as u8
}

proof fn lemma_masked_bytes(v: u64)
    by (bit_vector)
    ensures
        v & 0xff == (v >> 0) & 0xff,
        (v & 0xff00) >> 8 == (v >> 8) & 0xff,
        (v & 0xff0000) >> 16 == (v >> 16) & 0xff,
        (v & 0xff000000) >> 24 == (v >> 24) & 0xff,
        (v & 0xff00000000) >> 32 == (v >> 32) & 0xff,
        (v & 0xff0000000000) >> 40 == (v >> 40) & 0xff,
        (v & 0xff000000000000) >> 48 == (v >> 48) & 0xff,
        (v & 0xff00000000000000) >> 56 == (v >> 56) & 0xff,
{
}

proof fn lemma_byte_fits(v: u64, k: u64)
    by (bit_vector)
    requires
        k < 8,
    ensures
        (v >> (8 * k) as u64) & 0xff <= 0xff,
        k < 7 ==> (v >> (8 * k) as u64) >> 8 == v >> (8 * (k + 1)) as u64,
        v >> 0 == v,
{
}

/// Stepping to the next place commutes with reduction modulo the period.
proof fn lemma_next_place(x: int, period: int)
    requires
        period > 0,
    ensures
        ((x % period) + 1) % period == (x + 1) % period,
{
    if period > 1 {
        lemma_small_mod(1nat, period as nat);
        lemma_add_mod_noop(x, 1, period);
    }
}

impl RepeatSeqFakeRng {
    #[verifier::type_invariant]
    spec fn inv(self) -> bool {
        &&& self.seq@.len() > 0
        &&& self.cnt <= self.seq@.len()
    }

    /// The sequence that is repeated.
    pub closed spec fn words(&self) -> Seq<u64> {
        self.seq@
    }

    /// The place in the sequence of the word that comes next.
    pub closed spec fn position(&self) -> int {
        if self.cnt < self.seq@.len() {
            self.cnt as int
        } else {
            0
        }
    }

    /// The word that the `ahead`-th draw from now will give.
    pub open spec fn word_ahead(&self, ahead: int) -> u64 {
        self.words()[(self.position() + ahead) % (self.words().len() as int)]
    }

    /// A source that repeats `seq`, starting at its first word.
    pub fn new(seq: Vec<u64>) -> (rng: Self)
        requires
            seq@.len() > 0,
        ensures
            rng.words() == seq@,
            rng.position() == 0,
    {
        Self { cnt: 0, seq }
    }

    /// The next word of the sequence.
    pub fn next_u64(&mut self) -> (word: u64)
        ensures
            old(self).words().len() > 0,
            0 <= old(self).position() < old(self).words().len(),
            word == old(self).words()[old(self).position()],
            final(self).words() == old(self).words(),
            final(self).position() == (old(self).position() + 1) % (old(self).words().len() as int),
    {
        proof {
            use_type_invariant(&*self);
            let len = self.seq@.len() as int;
            let at = self.position();
            if at + 1 < len {
                lemma_small_mod((at + 1) as nat, len as nat);
            } else {
                lemma_mod_self_0(len);
            }
        }
        let i = self.cnt;
        if i < self.seq.len() {
            self.cnt = i + 1;
            self.seq[i]
        } else {
            self.cnt = 1;
            self.seq[0]
        }
    }

    /// The low half of the next word of the sequence.
    pub fn next_u32(&mut self) -> (word: u32)
        ensures
            old(self).words().len() > 0,
            word == low_half(old(self).words()[old(self).position()]),
            final(self).words() == old(self).words(),
            final(self).position() == (old(self).position() + 1) % (old(self).words().len() as int),
    {
        let wide = self.next_u64();
        (wide & 0xffff_ffff) as u32
    }

    /// Fills `dest` with the bytes of the words to come, each word from its
    /// least significant byte up. One word is drawn for every eight bytes,
    /// and one more for the bytes that are left, also when none is left.
    pub fn fill_bytes(&mut self, dest: &mut [u8])
        ensures
            final(dest)@.len() == old(dest)@.len(),
            forall|i: int|
                0 <= i < old(dest)@.len() ==> #[trigger] final(dest)@[i] == byte_of(
                    old(self).word_ahead(i / 8),
                    i % 8,
                ),
            final(self).words() == old(self).words(),
            final(self).position() == (old(self).position() + old(dest)@.len() / 8 + 1) % (
            old(self).words().len() as int),
    {
        proof {
            use_type_invariant(&*self);
        }
        let ghost words = self.words();
        let ghost start = self.position();
        let ghost period = words.len() as int;
        let size = dest.len();
        let mut ofs: usize = 0;
        proof {
            lemma_small_mod(start as nat, period as nat);
        }
        while size - ofs >= 8
            invariant
                ofs <= size,
                ofs % 8 == 0,
                size == dest@.len(),
                size == old(dest)@.len(),
                period == words.len(),
                period > 0,
                0 <= start < period,
                words == old(self).words(),
                start == old(self).position(),
                self.words() == words,
                self.position() == (start + ofs / 8) % period,
                forall|i: int|
                    0 <= i < ofs ==> #[trigger] dest@[i] == byte_of(
                        old(self).word_ahead(i / 8),
                        i % 8,
                    ),
            decreases size - ofs,
        {
            let v = self.next_u64();
            proof {
                lemma_masked_bytes(v);
                lemma_next_place(start + ofs / 8, period);
            }
            dest[ofs] = (v & 0xff) as u8;
            dest[ofs + 1] = ((v & 0xff00) >> 8) as u8;
            dest[ofs + 2] = ((v & 0xff0000) >> 16) as u8;
            dest[ofs + 3] = ((v & 0xff000000) >> 24) as u8;
            dest[ofs + 4] = ((v & 0xff00000000) >> 32) as u8;
            dest[ofs + 5] = ((v & 0xff0000000000) >> 40) as u8;
            dest[ofs + 6] = ((v & 0xff000000000000) >> 48) as u8;
            dest[ofs + 7] = ((v & 0xff00000000000000) >> 56) as u8;
            ofs = ofs + 8;
        }
        let ghost base = ofs;
        let mut v = self.next_u64();
        let ghost drawn = v;
        proof {
            lemma_next_place(start + ofs / 8, period);
            lemma_byte_fits(drawn, 0);
        }
        while ofs < size
            invariant
                base <= ofs <= size,
                base % 8 == 0,
                size - base < 8,
                size == dest@.len(),
                size == old(dest)@.len(),
                drawn == old(self).word_ahead(base as int / 8),
                v == drawn >> ((8 * (ofs - base)) as u64),
                forall|i: int|
                    0 <= i < ofs ==> #[trigger] dest@[i] == byte_of(
                        old(self).word_ahead(i / 8),
                        i % 8,
                    ),
            decreases size - ofs,
        {
            proof {
                lemma_byte_fits(drawn, (ofs - base) as u64);
            }
            dest[ofs] = (v & 0xff) as u8;
            v = v >> 8;
            ofs = ofs + 1;
        }
    }
}

impl RandomSource for RepeatSeqFakeRng {
    /// The word is the low half of the one in turn, and the source moves on
    /// by one place.
    open spec fn emits(&self, word: u32, after: Self) -> bool {
        &&& self.words().len() > 0
        &&& word == low_half(self.words()[self.position()])
        &&& after.words() == self.words()
        &&& after.position() == (self.position() + 1) % (self.words().len() as int)
    }

    fn next_u32(&mut self) -> (word: u32) {
        RepeatSeqFakeRng::next_u32(self)
    }
}

/// The low half of a word.
pub open spec fn low_half(word: u64) -> u32 {
    (word & 0xffff_ffff) as u32
}

/// The words that a repeating source hands out are the low halves of the
/// words of its sequence from its place on, and it is left as many places
/// further on, with the same sequence.
pub proof fn lemma_repeat_words(from: RepeatSeqFakeRng, words: Seq<u32>, to: RepeatSeqFakeRng)
    requires
        emits_all(from, words, to),
    ensures
        to.words() == from.words(),
        words.len() > 0 ==> from.words().len() > 0,
        from.words().len() > 0 ==> to.position() == (from.position() + words.len()) % (
        from.words().len() as int),
        forall|i: int| 0 <= i < words.len() ==> #[trigger] words[i] == low_half(from.word_ahead(i)),
    decreases words.len(),
{
    let period = from.words().len() as int;
    if words.len() == 0 {
        if period > 0 {
            lemma_small_mod(from.position() as nat, period as nat);
        }
    } else {
        let mid = choose|mid: RepeatSeqFakeRng|
            emits_all(from, words.drop_last(), mid) && #[trigger] mid.emits(words.last(), to);
        let head = words.drop_last();
        lemma_repeat_words(from, head, mid);
        lemma_next_place(from.position() + words.len() - 1, period);
        assert forall|i: int| 0 <= i < words.len() implies #[trigger] words[i] == low_half(
            from.word_ahead(i),
        ) by {
            if i < words.len() - 1 {
                assert(words[i] == head[i]);
            } else {
                assert(words[i] == words.last());
            }
        }
    }
}

} // verus!
