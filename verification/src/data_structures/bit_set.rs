//! A growable set of boolean flags, packed into machine words.
//!
//! Flag `i` lives in bit `i % usize::BITS` of word `i / usize::BITS`. Words
//! are allocated on demand; a flag beyond the allocated words reads as unset.
//! Two sets count as equal when they hold the same flags, however many
//! all-zero words either of them has at its end.

use vstd::prelude::*;

verus! {

/// Whether bit `b` of the word `w` is set.
pub open spec fn word_bit(w: usize, b: usize) -> bool {
    w & (1usize << b) != 0
}

/// The word `w` with bit `b` put to `value`.
pub open spec fn with_bit(w: usize, b: usize, value: bool) -> usize {
    (w & !(1usize << b)) | ((if value {
        1usize
    } else {
        0usize
    }) << b)
}

/// Word `i` of a word sequence; zero where the sequence has no word.
pub open spec fn word_at(words: Seq<usize>, i: int) -> usize {
    if 0 <= i < words.len() {
        words[i]
    } else {
        0
    }
}

/// Whether flag `index` is set in a word sequence.
pub open spec fn bit_of(words: Seq<usize>, index: int) -> bool {
    &&& 0 <= index
    &&& index / (usize::BITS as int) < words.len()
    &&& word_bit(words[index / (usize::BITS as int)], (index % (usize::BITS as int)) as usize)
}

/// The word sequence stretched with zero words to at least `n` words.
pub open spec fn padded(words: Seq<usize>, n: int) -> Seq<usize> {
    Seq::new(
        if n > words.len() {
            n as nat
        } else {
            words.len()
        },
        |i: int| word_at(words, i),
    )
}

/// The word sequence after flag `index` was put to `value`: stretched to hold
/// the flag's word, with that one bit changed.
pub open spec fn with_flag(words: Seq<usize>, index: int, value: bool) -> Seq<usize> {
    let i = index / (usize::BITS as int);
    let b = (index % (usize::BITS as int)) as usize;
    padded(words, i + 1).update(i, with_bit(word_at(words, i), b, value))
}

/// Word-wise OR, as long as the longer operand.
pub open spec fn union_words(a: Seq<usize>, b: Seq<usize>) -> Seq<usize> {
    Seq::new(
        if a.len() >= b.len() {
            a.len()
        } else {
            b.len()
        },
        |i: int| word_at(a, i) | word_at(b, i),
    )
}

/// Word-wise AND, as long as the longer operand; a missing word counts as zero.
pub open spec fn intersection_words(a: Seq<usize>, b: Seq<usize>) -> Seq<usize> {
    Seq::new(
        if a.len() >= b.len() {
            a.len()
        } else {
            b.len()
        },
        |i: int| word_at(a, i) & word_at(b, i),
    )
}

/// Word-wise AND-NOT, as long as the first operand.
pub open spec fn difference_words(a: Seq<usize>, b: Seq<usize>) -> Seq<usize> {
    Seq::new(a.len(), |i: int| a[i] & !word_at(b, i))
}

/// Every allocated word inverted.
pub open spec fn complement_words(a: Seq<usize>) -> Seq<usize> {
    Seq::new(a.len(), |i: int| !a[i])
}

/// The word sequence without the all-zero words at its end.
pub open spec fn trimmed(words: Seq<usize>) -> Seq<usize>
    decreases words.len(),
{
    if words.len() > 0 && words.last() == 0 {
        trimmed(words.drop_last())
    } else {
        words
    }
}

/// Equality of flag sets: the word sequences agree once trailing all-zero
/// words are ignored.
pub open spec fn same_flags(a: Seq<usize>, b: Seq<usize>) -> bool {
    trimmed(a) == trimmed(b)
}

/// One step of the fingerprint: FNV-1a over 64-bit words.
pub open spec fn mix(h: u64, w: usize) -> u64 {
    (((h ^ (w as u64)) as int * 0x0000_0100_0000_01b3) % 0x1_0000_0000_0000_0000) as u64
}

/// Fingerprint of a word sequence, folded from the first word to the last.
pub open spec fn fold_words(words: Seq<usize>) -> u64
    decreases words.len(),
{
    if words.len() == 0 {
        0xcbf2_9ce4_8422_2325
    } else {
        mix(fold_words(words.drop_last()), words.last())
    }
}

/// Fingerprint of a flag set: trailing all-zero words do not count.
pub open spec fn fingerprint(words: Seq<usize>) -> u64 {
    fold_words(trimmed(words))
}

/// Most words a set can have: enough to hold flag `usize::MAX`.
pub open spec fn max_words() -> int {
    (usize::MAX as int) / (usize::BITS as int) + 1
}

/// A bit that was put to a value reads as that value.
proof fn lemma_with_bit_same(w: usize, b: usize, value: bool)
    by (bit_vector)
    requires
        b < usize::BITS,
    ensures
        word_bit(with_bit(w, b, value), b) == value,
{
}

/// Putting one bit leaves the other bits of the word alone.
proof fn lemma_with_bit_other(w: usize, b: usize, c: usize, value: bool)
    by (bit_vector)
    requires
        b < usize::BITS,
        c < usize::BITS,
        b != c,
    ensures
        word_bit(with_bit(w, b, value), c) == word_bit(w, c),
{
}

/// The zero word has no bit set.
proof fn lemma_zero_word(b: usize)
    by (bit_vector)
    ensures
        !word_bit(0usize, b),
{
}

/// OR of words is OR bit by bit.
proof fn lemma_or_bit(x: usize, y: usize, b: usize)
    by (bit_vector)
    ensures
        word_bit(x | y, b) == (word_bit(x, b) || word_bit(y, b)),
{
}

/// AND of words is AND bit by bit.
proof fn lemma_and_bit(x: usize, y: usize, b: usize)
    by (bit_vector)
    ensures
        word_bit(x & y, b) == (word_bit(x, b) && word_bit(y, b)),
{
}

/// AND-NOT of words is AND-NOT bit by bit.
proof fn lemma_and_not_bit(x: usize, y: usize, b: usize)
    by (bit_vector)
    requires
        b < usize::BITS,
    ensures
        word_bit(x & !y, b) == (word_bit(x, b) && !word_bit(y, b)),
{
}

/// An inverted word has each bit inverted.
proof fn lemma_not_bit(x: usize, b: usize)
    by (bit_vector)
    requires
        b < usize::BITS,
    ensures
        word_bit(!x, b) == !word_bit(x, b),
{
}

/// The identities of word algebra that the set operations rest on.
proof fn lemma_word_identities(x: usize, y: usize)
    by (bit_vector)
    ensures
        x | 0usize == x,
        0usize | x == x,
        x & 0usize == 0usize,
        0usize & x == 0usize,
        x & !0usize == x,
        (x | y) & x == x,
        x & !x == 0usize,
{
}

/// Word and bit position of a flag.
pub proof fn lemma_flag_position(index: int)
    requires
        0 <= index,
    ensures
        0 <= index / (usize::BITS as int),
        0 <= index % (usize::BITS as int) < usize::BITS,
        index <= usize::MAX ==> index / (usize::BITS as int) < max_words(),
        index == (index / (usize::BITS as int)) * (usize::BITS as int)
            + index % (usize::BITS as int),
{
    let width = usize::BITS as int;
    assert(width == 32 || width == 64);
    if width == 32 {
        assert(index == (index / 32) * 32 + index % 32);
    } else {
        assert(index == (index / 64) * 64 + index % 64);
    }
}

/// Trimming removes only zero words: every word position reads the same.
pub proof fn lemma_trimmed_words(words: Seq<usize>)
    ensures
        trimmed(words).len() <= words.len(),
        trimmed(words) == words.subrange(0, trimmed(words).len() as int),
        trimmed(words).len() > 0 ==> trimmed(words).last() != 0,
        forall|i: int| word_at(trimmed(words), i) == #[trigger] word_at(words, i),
    decreases words.len(),
{
    if words.len() > 0 && words.last() == 0 {
        let shorter = words.drop_last();
        lemma_trimmed_words(shorter);
        assert(trimmed(words) == trimmed(shorter));
        assert(shorter.subrange(0, trimmed(words).len() as int) =~= words.subrange(
            0,
            trimmed(words).len() as int,
        ));
        assert forall|i: int| word_at(trimmed(words), i) == #[trigger] word_at(words, i) by {
            assert(word_at(trimmed(shorter), i) == word_at(shorter, i));
        }
    } else {
        assert(words.subrange(0, words.len() as int) =~= words);
    }
}

/// Two word sequences hold the same flags exactly when they agree word by
/// word, a missing word counting as zero.
pub proof fn lemma_same_flags_by_words(a: Seq<usize>, b: Seq<usize>)
    ensures
        same_flags(a, b) <==> (forall|i: int| word_at(a, i) == word_at(b, i)),
{
    lemma_trimmed_words(a);
    lemma_trimmed_words(b);
    let ta = trimmed(a);
    let tb = trimmed(b);
    if ta == tb {
        assert forall|i: int| word_at(a, i) == word_at(b, i) by {
            assert(word_at(ta, i) == word_at(a, i));
            assert(word_at(tb, i) == word_at(b, i));
        }
    }
    if forall|i: int| word_at(a, i) == word_at(b, i) {
        assert forall|i: int| word_at(ta, i) == word_at(tb, i) by {
            assert(word_at(ta, i) == word_at(a, i));
            assert(word_at(tb, i) == word_at(b, i));
        }
        if ta.len() < tb.len() {
            assert(word_at(ta, tb.len() - 1) == word_at(tb, tb.len() - 1));
        }
        if tb.len() < ta.len() {
            assert(word_at(ta, ta.len() - 1) == word_at(tb, ta.len() - 1));
        }
        assert forall|i: int| 0 <= i < ta.len() implies ta[i] == tb[i] by {
            assert(word_at(ta, i) == word_at(tb, i));
        }
        assert(ta =~= tb);
    }
}

/// Sets that agree word by word agree flag by flag.
pub proof fn lemma_same_flags_same_bits(a: Seq<usize>, b: Seq<usize>, index: int)
    requires
        same_flags(a, b),
    ensures
        bit_of(a, index) == bit_of(b, index),
{
    lemma_same_flags_by_words(a, b);
    if index >= 0 {
        lemma_flag_position(index);
        let i = index / (usize::BITS as int);
        let bit = (index % (usize::BITS as int)) as usize;
        assert(word_at(a, i) == word_at(b, i));
        lemma_zero_word(bit);
    }
}

/// After a flag is put to a value it reads as that value, also where its word
/// had to be allocated first, and every other flag reads as before.
pub proof fn lemma_set_then_get(words: Seq<usize>, index: int, value: bool)
    requires
        0 <= index,
    ensures
        bit_of(with_flag(words, index, value), index) == value,
        forall|other: int| other != index ==>
            bit_of(with_flag(words, index, value), other) == bit_of(words, other),
{
    lemma_flag_position(index);
    let width = usize::BITS as int;
    let i = index / width;
    let b = (index % width) as usize;
    let after = with_flag(words, index, value);
    lemma_with_bit_same(word_at(words, i), b, value);
    assert forall|other: int| other != index implies bit_of(after, other) == bit_of(
        words,
        other,
    ) by {
        if other >= 0 {
            lemma_flag_position(other);
            let j = other / width;
            let c = (other % width) as usize;
            lemma_zero_word(c);
            if j == i {
                lemma_with_bit_other(word_at(words, i), b, c, value);
            }
        }
    }
}

/// A flag is in the union exactly when it is in one of the operands.
pub proof fn lemma_union_bits(a: Seq<usize>, b: Seq<usize>, index: int)
    ensures
        bit_of(union_words(a, b), index) == (bit_of(a, index) || bit_of(b, index)),
{
    if index >= 0 {
        lemma_flag_position(index);
        let i = index / (usize::BITS as int);
        let bit = (index % (usize::BITS as int)) as usize;
        lemma_zero_word(bit);
        lemma_or_bit(word_at(a, i), word_at(b, i), bit);
    }
}

/// A flag is in the intersection exactly when it is in both operands.
pub proof fn lemma_intersection_bits(a: Seq<usize>, b: Seq<usize>, index: int)
    ensures
        bit_of(intersection_words(a, b), index) == (bit_of(a, index) && bit_of(b, index)),
{
    if index >= 0 {
        lemma_flag_position(index);
        let i = index / (usize::BITS as int);
        let bit = (index % (usize::BITS as int)) as usize;
        lemma_zero_word(bit);
        lemma_and_bit(word_at(a, i), word_at(b, i), bit);
    }
}

/// A flag is in the difference exactly when it is in the first operand and
/// not in the second.
pub proof fn lemma_difference_bits(a: Seq<usize>, b: Seq<usize>, index: int)
    ensures
        bit_of(difference_words(a, b), index) == (bit_of(a, index) && !bit_of(b, index)),
{
    if index >= 0 {
        lemma_flag_position(index);
        let i = index / (usize::BITS as int);
        let bit = (index % (usize::BITS as int)) as usize;
        lemma_zero_word(bit);
        lemma_and_not_bit(word_at(a, i), word_at(b, i), bit);
        lemma_word_identities(word_at(a, i), 0);
    }
}

/// Inside the allocated words, a flag is in the complement exactly when it is
/// not in the set; beyond them it is in neither.
pub proof fn lemma_complement_bits(a: Seq<usize>, index: int)
    ensures
        bit_of(complement_words(a), index) == (0 <= index && index / (usize::BITS as int)
            < a.len() && !bit_of(a, index)),
{
    if index >= 0 {
        lemma_flag_position(index);
        let i = index / (usize::BITS as int);
        let bit = (index % (usize::BITS as int)) as usize;
        if i < a.len() {
            lemma_not_bit(a[i], bit);
        }
    }
}

/// Intersecting a union with one of its operands gives that operand back.
pub proof fn lemma_union_then_intersection(a: Seq<usize>, b: Seq<usize>)
    ensures
        same_flags(intersection_words(union_words(a, b), a), a),
{
    let r = intersection_words(union_words(a, b), a);
    assert forall|i: int| word_at(r, i) == word_at(a, i) by {
        lemma_word_identities(word_at(a, i), word_at(b, i));
    }
    lemma_same_flags_by_words(r, a);
}

/// A set and its complement have no flag in common.
pub proof fn lemma_intersection_with_complement(a: Seq<usize>)
    ensures
        same_flags(intersection_words(a, complement_words(a)), Seq::<usize>::empty()),
{
    let r = intersection_words(a, complement_words(a));
    let none = Seq::<usize>::empty();
    assert forall|i: int| word_at(r, i) == word_at(none, i) by {
        lemma_word_identities(word_at(a, i), 0);
    }
    lemma_same_flags_by_words(r, none);
}

/// Equal sets have equal fingerprints.
pub proof fn lemma_fingerprint_respects_equality(a: Seq<usize>, b: Seq<usize>)
    requires
        same_flags(a, b),
    ensures
        fingerprint(a) == fingerprint(b),
{
}

/// A set of flags indexed by `usize`.
pub struct BitSet {
    bits: Vec<usize>,
}

impl View for BitSet {
    type V = Seq<usize>;

    /// The allocated words, lowest flags first.
    closed spec fn view(&self) -> Seq<usize> {
        self.bits@
    }
}

impl BitSet {
    /// Whether flag `index` is set.
    pub open spec fn has(&self, index: int) -> bool {
        bit_of(self@, index)
    }

    /// A set with no word allocated.
    pub fn new() -> (r: Self)
        ensures
            r@ == Seq::<usize>::empty(),
    {
        Self { bits: Vec::new() }
    }

    /// A set with no word allocated and room for `capacity` words.
    pub fn with_capacity(capacity: usize) -> (r: Self)
        requires
            capacity * 8 <= isize::MAX,
        ensures
            r@ == Seq::<usize>::empty(),
    {
        Self { bits: Vec::with_capacity(capacity) }
    }

    /// Appends zero words until the set has at least `words` of them.
    fn grow_to(&mut self, words: usize)
        ensures
            final(self)@ == padded(old(self)@, words as int),
    {
        while self.bits.len() < words
            invariant
                self.bits@.len() >= old(self).bits@.len(),
                self.bits@.len() <= words || self.bits@.len() == old(self).bits@.len(),
                forall|i: int| 0 <= i < self.bits@.len() ==>
                    self.bits@[i] == word_at(old(self).bits@, i),
            decreases words - self.bits@.len(),
        {
            self.bits.push(0);
        }
        assert(self@ =~= padded(old(self)@, words as int));
    }

    /// Puts flag `index` to `value`, allocating words up to the flag's word
    /// when the set is too short. No other flag changes.
    pub fn set(&mut self, index: usize, value: bool)
        ensures
            final(self)@ == with_flag(old(self)@, index as int, value),
            final(self).has(index as int) == value,
            forall|other: int| other != index ==>
                #[trigger] final(self).has(other) == old(self).has(other),
            final(self)@.len() >= old(self)@.len(),
            final(self)@.len() <= max_words() || final(self)@.len() == old(self)@.len(),
    {
        let width: usize = usize::BITS as usize;
        let i: usize = index / width;
        let b: usize = index % width;
        proof {
            lemma_flag_position(index as int);
            lemma_set_then_get(self@, index as int, value);
        }
        self.grow_to(i + 1);
        let v: usize = if value {
            1
        } else {
            0
        };
        let w: usize = self.bits[i];
        self.bits[i] = (w & !(1usize << b)) | (v << b);
        assert(self@ =~= with_flag(old(self)@, index as int, value));
    }

    /// Sets flag `index`.
    pub fn on(&mut self, index: usize)
        ensures
            final(self)@ == with_flag(old(self)@, index as int, true),
            final(self).has(index as int),
            forall|other: int| other != index ==>
                #[trigger] final(self).has(other) == old(self).has(other),
    {
        self.set(index, true);
    }

    /// Clears flag `index`.
    pub fn off(&mut self, index: usize)
        ensures
            final(self)@ == with_flag(old(self)@, index as int, false),
            !final(self).has(index as int),
            forall|other: int| other != index ==>
                #[trigger] final(self).has(other) == old(self).has(other),
    {
        self.set(index, false);
    }

    /// Releases every word.
    pub fn clear(&mut self)
        ensures
            final(self)@ == Seq::<usize>::empty(),
    {
        self.bits.clear();
    }

    /// Whether flag `index` is set. A flag beyond the allocated words is not.
    pub fn get(&self, index: usize) -> (r: bool)
        ensures
            r == self.has(index as int),
    {
        let width: usize = usize::BITS as usize;
        let i: usize = index / width;
        let b: usize = index % width;
        if i < self.bits.len() {
            self.bits[i] & (1usize << b) != 0
        } else {
            false
        }
    }

    /// Adds every flag of `other`, growing to the length of `other` when this
    /// set is shorter. Returns the set itself.
    pub fn union(&mut self, other: &Self) -> (r: &Self)
        ensures
            *r == *final(self),
            final(self)@ == union_words(old(self)@, other@),
            forall|index: int| #[trigger] final(self).has(index) == (old(self).has(index)
                || other.has(index)),
    {
        self.grow_to(other.bits.len());
        let mut i: usize = 0;
        while i < other.bits.len()
            invariant
                i <= other.bits@.len(),
                self.bits@.len() == union_words(old(self)@, other@).len(),
                forall|j: int| 0 <= j < i ==>
                    self.bits@[j] == word_at(old(self)@, j) | other.bits@[j],
                forall|j: int| i <= j < self.bits@.len() ==>
                    self.bits@[j] == word_at(old(self)@, j),
            decreases other.bits@.len() - i,
        {
            let w: usize = self.bits[i];
            self.bits[i] = w | other.bits[i];
            i = i + 1;
        }
        proof {
            assert forall|j: int| 0 <= j < self.bits@.len() implies self.bits@[j] == word_at(
                old(self)@,
                j,
            ) | word_at(other@, j) by {
                lemma_word_identities(word_at(old(self)@, j), 0);
            }
            assert(self@ =~= union_words(old(self)@, other@));
            assert forall|index: int| #[trigger] self.has(index) == (old(self).has(index)
                || other.has(index)) by {
                lemma_union_bits(old(self)@, other@, index);
            }
        }
        self
    }

    /// The union of two sets as a new set.
    pub fn or(&self, other: &Self) -> (result: Self)
        ensures
            result@ == union_words(self@, other@),
            forall|index: int| #[trigger] result.has(index) == (self.has(index)
                || other.has(index)),
    {
        let mut result = self.clone();
        let _ = result.union(other);
        result
    }

    /// Keeps only the flags that `other` has too, growing to the length of
    /// `other` when this set is shorter. Words that `other` lacks count as
    /// zero; words of `other` beyond this set's length are not read. Returns
    /// the set itself.
    pub fn intersection(&mut self, other: &Self) -> (r: &Self)
        ensures
            *r == *final(self),
            final(self)@ == intersection_words(old(self)@, other@),
            forall|index: int| #[trigger] final(self).has(index) == (old(self).has(index)
                && other.has(index)),
    {
        let shared: usize = if self.bits.len() < other.bits.len() {
            self.bits.len()
        } else {
            other.bits.len()
        };
        let mut i: usize = 0;
        while i < self.bits.len()
            invariant
                i <= self.bits@.len(),
                self.bits@.len() == old(self).bits@.len(),
                shared <= other.bits@.len(),
                shared <= self.bits@.len(),
                shared == other.bits@.len() || shared == self.bits@.len(),
                forall|j: int| 0 <= j < i ==>
                    self.bits@[j] == old(self).bits@[j] & word_at(other@, j),
                forall|j: int| i <= j < self.bits@.len() ==> self.bits@[j] == old(self).bits@[j],
            decreases self.bits@.len() - i,
        {
            let w: usize = self.bits[i];
            if i < shared {
                self.bits[i] = w & other.bits[i];
            } else {
                proof {
                    lemma_word_identities(w, 0);
                }
                self.bits[i] = 0;
            }
            i = i + 1;
        }
        self.grow_to(other.bits.len());
        proof {
            assert forall|j: int| 0 <= j < self.bits@.len() implies self.bits@[j] == word_at(
                old(self)@,
                j,
            ) & word_at(other@, j) by {
                lemma_word_identities(word_at(other@, j), 0);
            }
            assert(self@ =~= intersection_words(old(self)@, other@));
            assert forall|index: int| #[trigger] self.has(index) == (old(self).has(index)
                && other.has(index)) by {
                lemma_intersection_bits(old(self)@, other@, index);
            }
        }
        self
    }

    /// Drops every flag that `other` has. The set keeps its length. Returns
    /// the set itself.
    pub fn difference(&mut self, other: &Self) -> (r: &Self)
        ensures
            *r == *final(self),
            final(self)@ == difference_words(old(self)@, other@),
            forall|index: int| #[trigger] final(self).has(index) == (old(self).has(index)
                && !other.has(index)),
    {
        let mut i: usize = 0;
        while i < self.bits.len() && i < other.bits.len()
            invariant
                i <= self.bits@.len(),
                i <= other.bits@.len(),
                self.bits@.len() == old(self).bits@.len(),
                forall|j: int| 0 <= j < i ==> self.bits@[j] == old(self).bits@[j] & !other.bits@[j],
                forall|j: int| i <= j < self.bits@.len() ==> self.bits@[j] == old(self).bits@[j],
            decreases self.bits@.len() - i,
        {
            let w: usize = self.bits[i];
            self.bits[i] = w & !other.bits[i];
            i = i + 1;
        }
        proof {
            assert forall|j: int| 0 <= j < self.bits@.len() implies self.bits@[j] == old(self)@[j]
                & !word_at(other@, j) by {
                lemma_word_identities(old(self)@[j], 0);
            }
            assert(self@ =~= difference_words(old(self)@, other@));
            assert forall|index: int| #[trigger] self.has(index) == (old(self).has(index)
                && !other.has(index)) by {
                lemma_difference_bits(old(self)@, other@, index);
            }
        }
        self
    }

    /// The complement within the allocated words, as a new set of the same
    /// length.
    pub fn not(&self) -> (result: Self)
        ensures
            result@ == complement_words(self@),
            forall|index: int|
                #[trigger] result.has(index) == (0 <= index && index / (usize::BITS as int)
                    < self@.len() && !self.has(index)),
    {
        let mut result = self.clone();
        let _ = result.complement();
        result
    }

    /// Inverts every allocated word in place. The set keeps its length.
    /// Returns the set itself.
    pub fn complement(&mut self) -> (r: &Self)
        ensures
            *r == *final(self),
            final(self)@ == complement_words(old(self)@),
            forall|index: int|
                #[trigger] final(self).has(index) == (0 <= index && index / (usize::BITS as int)
                    < old(self)@.len() && !old(self).has(index)),
    {
        let mut i: usize = 0;
        while i < self.bits.len()
            invariant
                i <= self.bits@.len(),
                self.bits@.len() == old(self).bits@.len(),
                forall|j: int| 0 <= j < i ==> self.bits@[j] == !old(self).bits@[j],
                forall|j: int| i <= j < self.bits@.len() ==> self.bits@[j] == old(self).bits@[j],
            decreases self.bits@.len() - i,
        {
            let w: usize = self.bits[i];
            self.bits[i] = !w;
            i = i + 1;
        }
        proof {
            assert(self@ =~= complement_words(old(self)@));
            assert forall|index: int|
                #[trigger] self.has(index) == (0 <= index && index / (usize::BITS as int)
                    < old(self)@.len() && !old(self).has(index)) by {
                lemma_complement_bits(old(self)@, index);
            }
        }
        self
    }

    /// The difference of two sets as a new set.
    pub fn and_not(&self, other: &Self) -> (result: Self)
        ensures
            result@ == difference_words(self@, other@),
            forall|index: int|
                #[trigger] result.has(index) == (self.has(index) && !other.has(index)),
    {
        let mut result = self.clone();
        let _ = result.difference(other);
        result
    }

    /// The intersection of two sets as a new set.
    pub fn and(&self, other: &Self) -> (result: Self)
        ensures
            result@ == intersection_words(self@, other@),
            forall|index: int| #[trigger] result.has(index) == (self.has(index)
                && other.has(index)),
    {
        let mut result = self.clone();
        let _ = result.intersection(other);
        result
    }

    /// Every flag of every allocated word, in rising order of index, each
    /// with its value.
    pub fn iter(&self) -> (r: Vec<(usize, bool)>)
        requires
            self@.len() <= max_words(),
        ensures
            r@.len() == self@.len() * usize::BITS,
            forall|k: int| 0 <= k < r@.len() ==> r@[k] == (k as usize, self.has(k)),
    {
        let width: usize = usize::BITS as usize;
        let mut r: Vec<(usize, bool)> = Vec::new();
        let mut i: usize = 0;
        while i < self.bits.len()
            invariant
                width == usize::BITS,
                self.bits@.len() <= max_words(),
                i <= self.bits@.len(),
                r@.len() == i * width,
                forall|k: int| 0 <= k < r@.len() ==> r@[k] == (k as usize, self.has(k)),
            decreases self.bits@.len() - i,
        {
            let w: usize = self.bits[i];
            let mut j: usize = 0;
            while j < width
                invariant
                    width == usize::BITS,
                    self.bits@.len() <= max_words(),
                    i < self.bits@.len(),
                    w == self.bits@[i as int],
                    j <= width,
                    r@.len() == i * width + j,
                    forall|k: int| 0 <= k < r@.len() ==> r@[k] == (k as usize, self.has(k)),
                decreases width - j,
            {
                proof {
                    assert(width == 32 || width == 64);
                    lemma_flag_position(i * width + j);
                    assert((i * width + j) / (width as int) == i && (i * width + j) % (
                    width as int) == j) by {
                        if width == 32 {
                            assert((i * 32 + j) / 32 == i && (i * 32 + j) % 32 == j);
                        } else {
                            assert((i * 64 + j) / 64 == i && (i * 64 + j) % 64 == j);
                        }
                    }
                }
                let index: usize = i * width + j;
                r.push((index, w & (1usize << j) != 0));
                j = j + 1;
            }
            i = i + 1;
        }
        r
    }

    /// Number of flags that the allocated words hold.
    pub fn len(&self) -> (n: usize)
        requires
            self@.len() * usize::BITS <= usize::MAX,
        ensures
            n == self@.len() * usize::BITS,
    {
        self.bits.len() * (usize::BITS as usize)
    }

    /// The allocated words.
    pub fn data(&self) -> (words: &[usize])
        ensures
            words@ == self@,
    {
        self.bits.as_slice()
    }

    /// A copy of the set, word for word.
    pub fn clone(&self) -> (r: Self)
        ensures
            r@ == self@,
    {
        let mut bits: Vec<usize> = Vec::new();
        let mut i: usize = 0;
        while i < self.bits.len()
            invariant
                i <= self.bits@.len(),
                bits@ == self.bits@.subrange(0, i as int),
            decreases self.bits@.len() - i,
        {
            bits.push(self.bits[i]);
            assert(bits@ =~= self.bits@.subrange(0, i + 1));
            i = i + 1;
        }
        assert(bits@ =~= self.bits@);
        Self { bits }
    }

    /// Number of words up to the last one that is not zero.
    pub fn significant_words(&self) -> (n: usize)
        ensures
            n == trimmed(self@).len(),
            trimmed(self@) == self@.subrange(0, n as int),
    {
        let mut n: usize = self.bits.len();
        proof {
            assert(self.bits@.subrange(0, n as int) =~= self.bits@);
        }
        while n > 0 && self.bits[n - 1] == 0
            invariant
                n <= self.bits@.len(),
                trimmed(self.bits@) == trimmed(self.bits@.subrange(0, n as int)),
            decreases n,
        {
            proof {
                let s = self.bits@.subrange(0, n as int);
                assert(s.drop_last() =~= self.bits@.subrange(0, n - 1));
            }
            n = n - 1;
        }
        proof {
            lemma_trimmed_words(self@);
            let s = self.bits@.subrange(0, n as int);
            assert(s.len() > 0 ==> s.last() == self.bits@[n - 1]);
            assert(trimmed(s) == s);
        }
        n
    }

    /// A 64-bit fingerprint that equal sets share.
    pub fn hash_value(&self) -> (h: u64)
        ensures
            h == fingerprint(self@),
    {
        let n: usize = self.significant_words();
        proof {
            lemma_trimmed_words(self@);
        }
        let mut h: u64 = 0xcbf2_9ce4_8422_2325;
        let mut i: usize = 0;
        proof {
            assert(self.bits@.subrange(0, 0) =~= Seq::<usize>::empty());
        }
        while i < n
            invariant
                i <= n <= self.bits@.len(),
                h == fold_words(self.bits@.subrange(0, i as int)),
            decreases n - i,
        {
            proof {
                let s = self.bits@.subrange(0, i + 1);
                assert(s.drop_last() =~= self.bits@.subrange(0, i as int));
                assert(s.last() == self.bits@[i as int]);
            }
            h = (h ^ (self.bits[i] as u64)).wrapping_mul(0x0000_0100_0000_01b3);
            i = i + 1;
        }
        h
    }
}

impl PartialEq for BitSet {
    /// Whether the two sets hold the same flags.
    fn eq(&self, other: &Self) -> (r: bool) {
        let shared: usize = if self.bits.len() < other.bits.len() {
            self.bits.len()
        } else {
            other.bits.len()
        };
        let mut i: usize = 0;
        while i < shared
            invariant
                i <= shared,
                shared <= self.bits@.len(),
                shared <= other.bits@.len(),
                forall|j: int| 0 <= j < i ==> self.bits@[j] == other.bits@[j],
            decreases shared - i,
        {
            if self.bits[i] != other.bits[i] {
                proof {
                    lemma_same_flags_by_words(self@, other@);
                    assert(word_at(self@, i as int) != word_at(other@, i as int));
                }
                return false;
            }
            i = i + 1;
        }
        let mut i: usize = shared;
        while i < self.bits.len()
            invariant
                shared <= i <= self.bits@.len(),
                shared == self.bits@.len() || shared == other.bits@.len(),
                forall|j: int| shared <= j < i ==> self.bits@[j] == 0,
            decreases self.bits@.len() - i,
        {
            if self.bits[i] != 0 {
                proof {
                    lemma_same_flags_by_words(self@, other@);
                    assert(word_at(self@, i as int) != word_at(other@, i as int));
                }
                return false;
            }
            i = i + 1;
        }
        let mut i: usize = shared;
        while i < other.bits.len()
            invariant
                shared <= i <= other.bits@.len(),
                shared == self.bits@.len() || shared == other.bits@.len(),
                forall|j: int| shared <= j < i ==> other.bits@[j] == 0,
            decreases other.bits@.len() - i,
        {
            if other.bits[i] != 0 {
                proof {
                    lemma_same_flags_by_words(self@, other@);
                    assert(word_at(self@, i as int) != word_at(other@, i as int));
                }
                return false;
            }
            i = i + 1;
        }
        proof {
            lemma_same_flags_by_words(self@, other@);
            assert forall|j: int| word_at(self@, j) == word_at(other@, j) by {}
        }
        true
    }
}

impl vstd::std_specs::cmp::PartialEqSpecImpl for BitSet {
    open spec fn obeys_eq_spec() -> bool {
        true
    }

    open spec fn eq_spec(&self, other: &Self) -> bool {
        same_flags(self@, other@)
    }
}

} // verus!
