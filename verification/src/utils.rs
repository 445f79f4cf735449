//! Little-endian word/byte codec and generic affine-point arithmetic.

use vstd::arithmetic::div_mod::{lemma_fundamental_div_mod, lemma_fundamental_div_mod_converse};
use vstd::prelude::*;

verus! {

/// Byte `k` of a word, where byte 0 is the least significant one.
pub open spec fn word_byte(w: u32, k: int) -> u8 {
    if k == 0 {
        (w % 256) as u8
    } else if k == 1 {
        ((w / 256) % 256) as u8
    } else if k == 2 {
        ((w / 65536) % 256) as u8
    } else {
        ((w / 16777216) % 256) as u8
    }
}

/// The word whose four bytes, least significant first, are `b0`, `b1`, `b2`, `b3`.
pub open spec fn word_of_bytes(b0: u8, b1: u8, b2: u8, b3: u8) -> u32 {
    (b0 as int + 256 * (b1 as int) + 65536 * (b2 as int) + 16777216 * (b3 as int)) as u32
}

/// The little-endian byte string of a word sequence: word `i` occupies bytes `4i .. 4i + 4`.
pub open spec fn le_bytes_of_words(words: Seq<u32>) -> Seq<u8> {
    Seq::new(4 * words.len(), |j: int| word_byte(words[j / 4], j % 4))
}

/// The word sequence that a little-endian byte string encodes. A trailing group of fewer
/// than four bytes is ignored.
pub open spec fn words_of_le_bytes(bytes: Seq<u8>) -> Seq<u32> {
    Seq::new(
        bytes.len() / 4,
        |i: int| word_of_bytes(bytes[4 * i], bytes[4 * i + 1], bytes[4 * i + 2], bytes[4 * i + 3]),
    )
}

/// Splitting a word into bytes and joining them again gives the word back.
pub proof fn lemma_word_bytes_join(w: u32)
    ensures
        word_of_bytes(word_byte(w, 0), word_byte(w, 1), word_byte(w, 2), word_byte(w, 3)) == w,
{
    let v: int = w as int;
    let q1: int = v / 256;
    let q2: int = q1 / 256;
    let q3: int = q2 / 256;
    assert(v == 256 * q1 + v % 256);
    assert(q1 == 256 * q2 + q1 % 256);
    assert(q2 == 256 * q3 + q2 % 256);
    assert(q2 == v / 65536);
    assert(q3 == v / 16777216);
    assert(q3 < 256);
}

/// Joining four bytes into a word and splitting it again gives the bytes back.
pub proof fn lemma_word_bytes_split(b0: u8, b1: u8, b2: u8, b3: u8)
    ensures
        word_byte(word_of_bytes(b0, b1, b2, b3), 0) == b0,
        word_byte(word_of_bytes(b0, b1, b2, b3), 1) == b1,
        word_byte(word_of_bytes(b0, b1, b2, b3), 2) == b2,
        word_byte(word_of_bytes(b0, b1, b2, b3), 3) == b3,
{
    let q2: int = b2 as int + 256 * (b3 as int);
    let q1: int = b1 as int + 256 * q2;
    let v: int = b0 as int + 256 * q1;
    assert(word_of_bytes(b0, b1, b2, b3) as int == v);
    assert(v / 256 == q1 && v % 256 == b0 as int);
    assert(q1 / 256 == q2 && q1 % 256 == b1 as int);
    assert(q2 / 256 == b3 as int && q2 % 256 == b2 as int);
    assert(v / 65536 == q2);
    assert(v / 16777216 == b3 as int);
}

/// Decoding the encoding of a word sequence gives the sequence back.
pub proof fn lemma_words_round_trip(words: Seq<u32>)
    ensures
        words_of_le_bytes(le_bytes_of_words(words)) == words,
{
    let bytes = le_bytes_of_words(words);
    let back = words_of_le_bytes(bytes);
    assert(back.len() == words.len());
    assert forall|i: int| 0 <= i < words.len() implies back[i] == words[i] by {
        lemma_word_bytes_join(words[i]);
        assert((4 * i) / 4 == i && (4 * i) % 4 == 0);
        assert((4 * i + 1) / 4 == i && (4 * i + 1) % 4 == 1);
        assert((4 * i + 2) / 4 == i && (4 * i + 2) % 4 == 2);
        assert((4 * i + 3) / 4 == i && (4 * i + 3) % 4 == 3);
    }
    assert(back =~= words);
}

/// Encoding the decoding of a byte string whose length is a multiple of four gives the
/// string back.
pub proof fn lemma_bytes_round_trip(bytes: Seq<u8>)
    requires
        bytes.len() % 4 == 0,
    ensures
        le_bytes_of_words(words_of_le_bytes(bytes)) == bytes,
{
    let words = words_of_le_bytes(bytes);
    let back = le_bytes_of_words(words);
    assert(back.len() == bytes.len());
    assert forall|j: int| 0 <= j < bytes.len() implies back[j] == bytes[j] by {
        let i = j / 4;
        lemma_word_bytes_split(bytes[4 * i], bytes[4 * i + 1], bytes[4 * i + 2], bytes[4 * i + 3]);
        assert(j == 4 * i + j % 4);
    }
    assert(back =~= bytes);
}

/// Converts a slice of words to a byte vector in little endian.
pub fn words_to_bytes_le(words: &[u32]) -> (bytes: Vec<u8>)
    ensures
        bytes@ == le_bytes_of_words(words@),
{
    let mut bytes: Vec<u8> = Vec::new();
    let mut i: usize = 0;
    while i < words.len()
        invariant
            i <= words.len(),
            bytes@.len() == 4 * i,
            forall|j: int| 0 <= j < 4 * i ==> bytes@[j] == word_byte(words@[j / 4], j % 4),
        decreases words.len() - i,
    {
        let w: u32 = words[i];
        bytes.push((w % 256) as u8);
        bytes.push(((w / 256) % 256) as u8);
        bytes.push(((w / 65536) % 256) as u8);
        bytes.push(((w / 16777216) % 256) as u8);
        i += 1;
    }
    proof {
        assert(bytes@ =~= le_bytes_of_words(words@));
    }
    bytes
}

/// Converts a byte slice in little endian to a vector of words. Bytes after the last
/// complete group of four are ignored.
pub fn bytes_to_words_le(bytes: &[u8]) -> (words: Vec<u32>)
    ensures
        words@ == words_of_le_bytes(bytes@),
{
    let n: usize = bytes.len() / 4;
    let mut words: Vec<u32> = Vec::new();
    let mut i: usize = 0;
    while i < n
        invariant
            n == bytes.len() / 4,
            i <= n,
            words@.len() == i,
            forall|k: int|
                0 <= k < i ==> words@[k] == word_of_bytes(
                    bytes@[4 * k],
                    bytes@[4 * k + 1],
                    bytes@[4 * k + 2],
                    bytes@[4 * k + 3],
                ),
        decreases n - i,
    {
        let b0: u32 = bytes[4 * i] as u32;
        let b1: u32 = bytes[4 * i + 1] as u32;
        let b2: u32 = bytes[4 * i + 2] as u32;
        let b3: u32 = bytes[4 * i + 3] as u32;
        words.push(b0 + 256 * b1 + 65536 * b2 + 16777216 * b3);
        i += 1;
    }
    proof {
        assert(words@ =~= words_of_le_bytes(bytes@));
    }
    words
}


/// Errors that can occur during scalar multiplication of an [`AffinePoint`].
#[derive(Debug)]
pub enum MulAssignError {
    ScalarIsZero,
}

/// Bit `i` of a word, where bit 0 is the least significant one.
pub open spec fn word_bit(w: u32, i: u32) -> bool {
    (w >> i) & 1 == 1
}

/// The bits of a scalar given as little-endian words, least significant bit first.
pub open spec fn scalar_bits(scalar: Seq<u32>) -> Seq<bool> {
    Seq::new(32 * scalar.len(), |j: int| word_bit(scalar[j / 32], (j % 32) as u32))
}

/// Every word of the sequence is zero. For a point this is the encoding of the identity.
pub open spec fn all_zero(words: Seq<u32>) -> bool {
    forall|i: int| 0 <= i < words.len() ==> words[i] == 0
}

/// No bit of the sequence is set.
pub open spec fn no_bit_set(bits: Seq<bool>) -> bool {
    forall|i: int| 0 <= i < bits.len() ==> !bits[i]
}

/// The native law of a curve as a pair of functions on limbs: what its addition makes of
/// two points, and what its doubling makes of one.
pub type CurveLaw = (spec_fn(Seq<u32>, Seq<u32>) -> Seq<u32>, spec_fn(Seq<u32>) -> Seq<u32>);

/// The limbs of `p` after `k` doublings under the law.
pub open spec fn doubled(law: CurveLaw, p: Seq<u32>, k: nat) -> Seq<u32>
    decreases k,
{
    if k == 0 {
        p
    } else {
        (law.1)(doubled(law, p, (k - 1) as nat))
    }
}

/// Folds a term into an accumulator: an unset accumulator takes the term, a set one has
/// the term added to it by the law.
pub open spec fn fold_in(
    law: CurveLaw,
    acc: Option<Seq<u32>>,
    term: Seq<u32>,
) -> Option<Seq<u32>> {
    match acc {
        None => Some(term),
        Some(a) => Some((law.0)(a, term)),
    }
}

/// The sum, taken from the least significant bit upwards, of the `2^i` multiples of `p`
/// over the positions `i` at which `bits` is set. `None` where no bit is set.
pub open spec fn double_and_add(
    law: CurveLaw,
    p: Seq<u32>,
    bits: Seq<bool>,
) -> Option<Seq<u32>>
    decreases bits.len(),
{
    if bits.len() == 0 {
        None
    } else {
        let prev = double_and_add(law, p, bits.drop_last());
        if bits.last() {
            fold_in(law, prev, doubled(law, p, (bits.len() - 1) as nat))
        } else {
            prev
        }
    }
}

/// The sum that simultaneous double-and-add forms from two points and two bit sequences
/// of one length: at each position, from the least significant upwards, first the
/// multiple of `a` and then the multiple of `b` is folded in where its bit is set.
pub open spec fn double_and_add_pair(
    law: CurveLaw,
    a: Seq<u32>,
    a_bits: Seq<bool>,
    b: Seq<u32>,
    b_bits: Seq<bool>,
) -> Option<Seq<u32>>
    recommends
        a_bits.len() == b_bits.len(),
    decreases a_bits.len(),
{
    if a_bits.len() == 0 || b_bits.len() != a_bits.len() {
        None
    } else {
        let k = (a_bits.len() - 1) as nat;
        let prev = double_and_add_pair(law, a, a_bits.drop_last(), b, b_bits.drop_last());
        let with_a = if a_bits.last() {
            fold_in(law, prev, doubled(law, a, k))
        } else {
            prev
        };
        if b_bits.last() {
            fold_in(law, with_a, doubled(law, b, k))
        } else {
            with_a
        }
    }
}

/// A word is zero exactly when none of its 32 bits is set.
pub proof fn lemma_zero_word_bits(w: u32)
    ensures
        w == 0 <==> forall|i: u32| 0 <= i < 32 ==> !word_bit(w, i),
{
    if w == 0 {
        assert forall|i: u32| 0 <= i < 32 implies !word_bit(w, i) by {
            assert(i < 32 ==> (0u32 >> i) & 1 == 0) by (bit_vector);
        }
    } else {
        assert(w != 0 ==> ((w >> 0) & 1 == 1 || (w >> 1) & 1 == 1 || (w >> 2) & 1 == 1 || (w >> 3)
            & 1 == 1 || (w >> 4) & 1 == 1 || (w >> 5) & 1 == 1 || (w >> 6) & 1 == 1 || (w >> 7) & 1
            == 1 || (w >> 8) & 1 == 1 || (w >> 9) & 1 == 1 || (w >> 10) & 1 == 1 || (w >> 11) & 1
            == 1 || (w >> 12) & 1 == 1 || (w >> 13) & 1 == 1 || (w >> 14) & 1 == 1 || (w >> 15) & 1
            == 1 || (w >> 16) & 1 == 1 || (w >> 17) & 1 == 1 || (w >> 18) & 1 == 1 || (w >> 19) & 1
            == 1 || (w >> 20) & 1 == 1 || (w >> 21) & 1 == 1 || (w >> 22) & 1 == 1 || (w >> 23) & 1
            == 1 || (w >> 24) & 1 == 1 || (w >> 25) & 1 == 1 || (w >> 26) & 1 == 1 || (w >> 27) & 1
            == 1 || (w >> 28) & 1 == 1 || (w >> 29) & 1 == 1 || (w >> 30) & 1 == 1 || (w >> 31) & 1
            == 1)) by (bit_vector);
        let i: u32 = choose|i: u32| 0 <= i < 32 && (w >> i) & 1 == 1;
        assert(word_bit(w, i));
    }
}

/// A scalar is zero word by word exactly when none of its bits is set.
pub proof fn lemma_zero_scalar_bits(scalar: Seq<u32>)
    ensures
        all_zero(scalar) <==> no_bit_set(scalar_bits(scalar)),
{
    let bits = scalar_bits(scalar);
    if all_zero(scalar) {
        assert forall|j: int| 0 <= j < bits.len() implies !bits[j] by {
            lemma_zero_word_bits(scalar[j / 32]);
        }
    }
    if no_bit_set(bits) {
        assert forall|k: int| 0 <= k < scalar.len() implies scalar[k] == 0 by {
            assert forall|i: u32| 0 <= i < 32 implies !word_bit(scalar[k], i) by {
                let j = 32 * k + i;
                assert(j / 32 == k && j % 32 == i);
                assert(!bits[j]);
            }
            lemma_zero_word_bits(scalar[k]);
        }
    }
}

/// Double-and-add leaves its accumulator unset exactly when no bit is set.
pub proof fn lemma_double_and_add_unset(
    law: CurveLaw,
    p: Seq<u32>,
    bits: Seq<bool>,
)
    ensures
        double_and_add(law, p, bits).is_none() <==> no_bit_set(bits),
    decreases bits.len(),
{
    if bits.len() > 0 {
        let front = bits.drop_last();
        lemma_double_and_add_unset(law, p, front);
        if no_bit_set(bits) {
            assert forall|i: int| 0 <= i < front.len() implies !front[i] by {
                assert(front[i] == bits[i]);
            }
        }
        if no_bit_set(front) && !bits.last() {
            assert forall|i: int| 0 <= i < bits.len() implies !bits[i] by {
                if i < front.len() {
                    assert(front[i] == bits[i]);
                }
            }
        }
        if bits.last() {
            assert(bits[bits.len() - 1]);
        }
    }
}

/// Simultaneous double-and-add leaves its accumulator unset exactly when neither bit
/// sequence has a bit set.
pub proof fn lemma_double_and_add_pair_unset(
    law: CurveLaw,
    a: Seq<u32>,
    a_bits: Seq<bool>,
    b: Seq<u32>,
    b_bits: Seq<bool>,
)
    requires
        a_bits.len() == b_bits.len(),
    ensures
        double_and_add_pair(law, a, a_bits, b, b_bits).is_none() <==> no_bit_set(a_bits)
            && no_bit_set(b_bits),
    decreases a_bits.len(),
{
    if a_bits.len() > 0 {
        let a_front = a_bits.drop_last();
        let b_front = b_bits.drop_last();
        lemma_double_and_add_pair_unset(law, a, a_front, b, b_front);
        if no_bit_set(a_bits) {
            assert forall|i: int| 0 <= i < a_front.len() implies !a_front[i] by {
                assert(a_front[i] == a_bits[i]);
            }
        }
        if no_bit_set(b_bits) {
            assert forall|i: int| 0 <= i < b_front.len() implies !b_front[i] by {
                assert(b_front[i] == b_bits[i]);
            }
        }
        if no_bit_set(a_front) && !a_bits.last() {
            assert forall|i: int| 0 <= i < a_bits.len() implies !a_bits[i] by {
                if i < a_front.len() {
                    assert(a_front[i] == a_bits[i]);
                }
            }
        }
        if no_bit_set(b_front) && !b_bits.last() {
            assert forall|i: int| 0 <= i < b_bits.len() implies !b_bits[i] by {
                if i < b_front.len() {
                    assert(b_front[i] == b_bits[i]);
                }
            }
        }
        if a_bits.last() {
            assert(a_bits[a_bits.len() - 1]);
        }
        if b_bits.last() {
            assert(b_bits[b_bits.len() - 1]);
        }
    }
}

/// An affine point of `N` limbs: the first `N / 2` limbs are the x-coordinate and the
/// rest the y-coordinate, each in little-endian words. The identity is the point whose
/// limbs are all zero.
///
/// A curve supplies the representation and its native addition and doubling; the trait
/// supplies construction from bytes, serialization and the double-and-add algorithms.
/// The contracts of the supplied methods are obligations on each curve: they say that a
/// point is its limbs and that the two native operations are functions of the limbs.
pub trait AffinePoint<const N: usize>: Clone + Sized {
    /// The limbs of the point.
    spec fn limbs(&self) -> Seq<u32>;

    /// The curve's native law: what `add_assign` and `double` make of limbs.
    spec fn law() -> CurveLaw;

    /// The generator.
    const GENERATOR: [u32; N];

    /// Creates a new [`AffinePoint`] from the given limbs.
    fn new(limbs: [u32; N]) -> (p: Self)
        ensures
            p.limbs() == limbs@,
    ;

    /// Returns a reference to the limbs.
    fn limbs_ref(&self) -> (r: &[u32; N])
        ensures
            r@ == self.limbs(),
    ;

    /// Returns a mutable reference to the limbs.
    fn limbs_mut(&mut self) -> (r: &mut [u32; N])
        ensures
            r@ == old(self).limbs(),
            final(self).limbs() == final(r)@,
    ;

    /// Adds `other` to `self` by the curve's native law, which is the group law only
    /// for distinct points that are neither the identity nor each other's negation.
    fn add_assign(&mut self, other: &Self)
        ensures
            final(self).limbs() == (Self::law().0)(old(self).limbs(), other.limbs()),
    ;

    /// Doubles `self`.
    fn double(&mut self)
        ensures
            final(self).limbs() == (Self::law().1)(old(self).limbs()),
    ;

    /// Creates a new [`AffinePoint`] from the given x and y coordinates.
    ///
    /// The bytes are the little endian representations of the coordinates.
    fn from(x: &[u8], y: &[u8]) -> (p: Self)
        requires
            N % 2 == 0,
            x@.len() == 2 * N,
            y@.len() == 2 * N,
        ensures
            p.limbs() == words_of_le_bytes(x@) + words_of_le_bytes(y@),
    {
        let mut limbs: [u32; N] = [0u32; N];
        let x_words = bytes_to_words_le(x);
        let y_words = bytes_to_words_le(y);
        let half: usize = N / 2;
        let mut i: usize = 0;
        while i < half
            invariant
                half == N / 2,
                N % 2 == 0,
                i <= half,
                x_words@.len() == half,
                y_words@.len() == half,
                forall|k: int| 0 <= k < i ==> limbs@[k] == x_words@[k],
                forall|k: int| 0 <= k < i ==> limbs@[half + k] == y_words@[k],
            decreases half - i,
        {
            limbs[i] = x_words[i];
            limbs[half + i] = y_words[i];
            i += 1;
        }
        proof {
            assert(limbs@ =~= x_words@ + y_words@);
        }
        Self::new(limbs)
    }

    /// Creates a new [`AffinePoint`] from the given bytes in little endian.
    fn from_le_bytes(bytes: &[u8]) -> (p: Self)
        requires
            bytes@.len() == 4 * N,
        ensures
            p.limbs() == words_of_le_bytes(bytes@),
    {
        let words = bytes_to_words_le(bytes);
        let mut limbs: [u32; N] = [0u32; N];
        let mut i: usize = 0;
        while i < N
            invariant
                i <= N,
                words@.len() == N,
                forall|k: int| 0 <= k < i ==> limbs@[k] == words@[k],
            decreases N - i,
        {
            limbs[i] = words[i];
            i += 1;
        }
        proof {
            assert(limbs@ =~= words@);
        }
        Self::new(limbs)
    }

    /// Returns the limbs of the point as bytes in little endian.
    fn to_le_bytes(&self) -> (bytes: Vec<u8>)
        ensures
            bytes@ == le_bytes_of_words(self.limbs()),
            bytes@.len() == 4 * N,
    {
        let limbs = self.limbs_ref();
        words_to_bytes_le(limbs.as_slice())
    }

    /// Multiplies `self` by the given scalar, given as `N / 2` little-endian words, by
    /// double-and-add. A scalar whose words are all zero is refused and leaves `self`
    /// as it was.
    fn mul_assign(&mut self, scalar: &[u32]) -> (r: Result<(), MulAssignError>)
        requires
            scalar@.len() == N / 2,
        ensures
            r.is_err() <==> all_zero(scalar@),
            r.is_err() ==> final(self).limbs() == old(self).limbs(),
            r.is_ok() ==> Some(final(self).limbs()) == double_and_add(Self::law(), old(self).limbs(),
                scalar_bits(scalar@),
            ),
    {
        let ghost start = self.limbs();
        let ghost bits = scalar_bits(scalar@);
        let mut res: Option<Self> = None;
        let mut temp = Self::new(*self.limbs_ref());

        let mut w: usize = 0;
        while w < scalar.len()
            invariant
                w <= scalar.len(),
                forall|k: int| 0 <= k < w ==> scalar@[k] == 0,
            decreases scalar.len() - w,
        {
            if scalar[w] != 0 {
                break ;
            }
            w += 1;
        }
        if w == scalar.len() {
            return Err(MulAssignError::ScalarIsZero);
        }
        let mut w: usize = 0;
        while w < scalar.len()
            invariant
                w <= scalar.len(),
                scalar@.len() == N / 2,
                bits == scalar_bits(scalar@),
                (match res { Some(acc) => Some(acc.limbs()), None => None }) == double_and_add(Self::law(), start, bits.take(32 * w)),
                temp.limbs() == doubled(Self::law(), start, (32 * w) as nat),
            decreases scalar.len() - w,
        {
            let words: u32 = scalar[w];
            let mut i: u32 = 0;
            while i < 32
                invariant
                    i <= 32,
                    w < scalar.len(),
                    scalar@.len() == N / 2,
                    words == scalar@[w as int],
                    bits == scalar_bits(scalar@),
                    (match res { Some(acc) => Some(acc.limbs()), None => None }) == double_and_add(Self::law(), start,
                        bits.take(32 * w + i),
                    ),
                    temp.limbs() == doubled(Self::law(), start, (32 * w + i) as nat),
                decreases 32 - i,
            {
                proof {
                    let k = 32 * w + i;
                    assert(k / 32 == w && k % 32 == i);
                    assert(bits.take(k + 1).drop_last() =~= bits.take(k));
                    assert(bits.take(k + 1).last() == word_bit(words, i));
                }
                if (words >> i) & 1 == 1 {
                    res = match res {
                        Some(mut acc) => {
                            acc.add_assign(&temp);
                            Some(acc)
                        },
                        None => Some(Self::new(*temp.limbs_ref())),
                    };
                }
                temp.double();
                i += 1;
            }
            w += 1;
        }
        proof {
            assert(bits.take(32 * w) =~= bits);
            lemma_double_and_add_unset(Self::law(), start, bits);
            lemma_zero_scalar_bits(scalar@);
        }
        match res {
            Some(point) => {
                *self = point;
                Ok(())
            },
            None => Err(MulAssignError::ScalarIsZero),
        }
    }

    /// Performs multi-scalar multiplication (MSM) on two points and their scalars, each
    /// given as bits in little endian order. The result is `None` where no bit of either
    /// scalar is set: the sum is then the identity, which the accumulator cannot hold.
    fn multi_scalar_multiplication(a_bits_le: &[bool], a: Self, b_bits_le: &[bool], b: Self) -> (r:
        Option<Self>)
        requires
            a_bits_le@.len() == b_bits_le@.len(),
        ensures
            (match r { Some(sum) => Some(sum.limbs()), None => None }) == double_and_add_pair(Self::law(), a.limbs(),
                a_bits_le@,
                b.limbs(),
                b_bits_le@,
            ),
            r.is_none() <==> no_bit_set(a_bits_le@) && no_bit_set(b_bits_le@),
    {
        let mut res: Option<Self> = None;
        let mut temp_a = Self::new(*a.limbs_ref());
        let mut temp_b = Self::new(*b.limbs_ref());
        let mut i: usize = 0;
        while i < a_bits_le.len()
            invariant
                i <= a_bits_le.len(),
                a_bits_le@.len() == b_bits_le@.len(),
                (match res { Some(acc) => Some(acc.limbs()), None => None }) == double_and_add_pair(Self::law(), a.limbs(),
                    a_bits_le@.take(i as int),
                    b.limbs(),
                    b_bits_le@.take(i as int),
                ),
                temp_a.limbs() == doubled(Self::law(), a.limbs(), i as nat),
                temp_b.limbs() == doubled(Self::law(), b.limbs(), i as nat),
            decreases a_bits_le.len() - i,
        {
            proof {
                assert(a_bits_le@.take(i + 1).drop_last() =~= a_bits_le@.take(i as int));
                assert(b_bits_le@.take(i + 1).drop_last() =~= b_bits_le@.take(i as int));
            }
            if a_bits_le[i] {
                res = match res {
                    Some(mut acc) => {
                        acc.add_assign(&temp_a);
                        Some(acc)
                    },
                    None => Some(Self::new(*temp_a.limbs_ref())),
                };
            }
            if b_bits_le[i] {
                res = match res {
                    Some(mut acc) => {
                        acc.add_assign(&temp_b);
                        Some(acc)
                    },
                    None => Some(Self::new(*temp_b.limbs_ref())),
                };
            }
            temp_a.double();
            temp_b.double();
            i += 1;
        }
        proof {
            assert(a_bits_le@.take(i as int) =~= a_bits_le@);
            assert(b_bits_le@.take(i as int) =~= b_bits_le@);
            lemma_double_and_add_pair_unset(Self::law(), a.limbs(), a_bits_le@, b.limbs(), b_bits_le@);
        }
        res
    }
}


/// A point that was read from the little-endian bytes `b`, `4 * N` of them, is written
/// back as `b`.
pub proof fn lemma_point_bytes_round_trip<const N: usize, P: AffinePoint<N>>(p: P, b: Seq<u8>)
    requires
        b.len() == 4 * N,
        p.limbs() == words_of_le_bytes(b),
    ensures
        le_bytes_of_words(p.limbs()) == b,
{
    lemma_bytes_round_trip(b);
}

/// The limbs of the identity of `n` limbs.
pub open spec fn identity_limbs(n: nat) -> Seq<u32> {
    Seq::new(n, |i: int| 0u32)
}

/// `a` and `b` have the same x-coordinate, and their y-coordinates add up to zero limb by
/// limb, each sum taken modulo `2^32`.
pub open spec fn is_negation(a: Seq<u32>, b: Seq<u32>) -> bool {
    &&& a.len() == b.len()
    &&& forall|i: int| 0 <= i < a.len() / 2 ==> a[i] == b[i]
    &&& forall|i: int| a.len() / 2 <= i < a.len() ==> (a[i] + b[i]) % 0x1_0000_0000 == 0
}

/// The sum of two points where complete addition makes a special case of them, and
/// `None` where it is left to the curve's native addition. The cases are tried in this
/// order: both points are the identity; the first is; the second is; the points are
/// equal; each is the negation of the other.
pub open spec fn special_case_sum(law: CurveLaw, a: Seq<u32>, b: Seq<u32>) -> Option<Seq<u32>> {
    if all_zero(a) && all_zero(b) {
        Some(identity_limbs(a.len()))
    } else if all_zero(a) {
        Some(b)
    } else if all_zero(b) {
        Some(a)
    } else if a == b {
        Some((law.1)(a))
    } else if is_negation(a, b) {
        Some(identity_limbs(a.len()))
    } else {
        None
    }
}

/// Whether every word of the slice is zero.
pub fn words_all_zero(words: &[u32]) -> (r: bool)
    ensures
        r == all_zero(words@),
{
    let mut i: usize = 0;
    while i < words.len()
        invariant
            i <= words.len(),
            forall|k: int| 0 <= k < i ==> words@[k] == 0,
        decreases words.len() - i,
    {
        if words[i] != 0 {
            return false;
        }
        i += 1;
    }
    true
}

/// Whether two slices hold the same words.
pub fn words_equal(a: &[u32], b: &[u32]) -> (r: bool)
    ensures
        r == (a@ == b@),
{
    if a.len() != b.len() {
        return false;
    }
    let mut i: usize = 0;
    while i < a.len()
        invariant
            i <= a.len(),
            a@.len() == b@.len(),
            forall|k: int| 0 <= k < i ==> a@[k] == b@[k],
        decreases a.len() - i,
    {
        if a[i] != b[i] {
            return false;
        }
        i += 1;
    }
    proof {
        assert(a@ =~= b@);
    }
    true
}

/// Whether two points, given by their limbs, are each other's negation.
pub fn words_negated(a: &[u32], b: &[u32]) -> (r: bool)
    ensures
        r == is_negation(a@, b@),
{
    if a.len() != b.len() {
        return false;
    }
    let half: usize = a.len() / 2;
    let mut i: usize = 0;
    while i < half
        invariant
            half == a@.len() / 2,
            i <= half,
            a@.len() == b@.len(),
            forall|k: int| 0 <= k < i ==> a@[k] == b@[k],
        decreases half - i,
    {
        if a[i] != b[i] {
            return false;
        }
        i += 1;
    }
    while i < a.len()
        invariant
            half == a@.len() / 2,
            half <= i <= a.len(),
            a@.len() == b@.len(),
            forall|k: int| 0 <= k < half ==> a@[k] == b@[k],
            forall|k: int| half <= k < i ==> (a@[k] + b@[k]) % 0x1_0000_0000 == 0,
        decreases a.len() - i,
    {
        if a[i].wrapping_add(b[i]) != 0 {
            return false;
        }
        i += 1;
    }
    true
}

/// A trait for affine points on Weierstrass curves.
pub trait WeierstrassAffinePoint<const N: usize>: AffinePoint<N> {
    /// Performs the addition of two points on a Weierstrass curve where the native
    /// addition law does not apply: where one of them is the identity, where they are
    /// equal, and where one is the negation of the other. Returns true if the addition
    /// was performed by one of these cases, and false, with `self` as it was, if it is
    /// left to the curve's native addition.
    fn weierstrass_add_assign_special_cases(&mut self, other: &Self) -> (fired: bool)
        ensures
            fired == special_case_sum(Self::law(), old(self).limbs(), other.limbs()).is_some(),
            final(self).limbs() == match special_case_sum(
                Self::law(),
                old(self).limbs(),
                other.limbs(),
            ) {
                Some(sum) => sum,
                None => old(self).limbs(),
            },
    {
        let a: [u32; N] = *self.limbs_ref();
        let b: [u32; N] = *other.limbs_ref();
        let a_zero = words_all_zero(a.as_slice());
        let b_zero = words_all_zero(b.as_slice());

        if a_zero && b_zero {
            let zero: [u32; N] = [0u32; N];
            proof {
                broadcast use vstd::array::group_array_axioms;

                assert(zero == vstd::array::spec_array_fill_for_copy_type::<u32, N>(0u32));
                assert(zero@ =~= identity_limbs(a@.len()));
            }
            *self = Self::new(zero);
            return true;
        }
        if a_zero {
            *self = Self::new(b);
            return true;
        }
        if b_zero {
            return true;
        }
        if words_equal(a.as_slice(), b.as_slice()) {
            self.double();
            return true;
        }
        if words_negated(a.as_slice(), b.as_slice()) {
            let zero: [u32; N] = [0u32; N];
            proof {
                broadcast use vstd::array::group_array_axioms;

                assert(zero == vstd::array::spec_array_fill_for_copy_type::<u32, N>(0u32));
                assert(zero@ =~= identity_limbs(a@.len()));
            }
            *self = Self::new(zero);
            return true;
        }
        false
    }
}


/// A set of limb sequences, given by its membership test.
pub type Domain = spec_fn(Seq<u32>) -> bool;

/// On the domain the law is that of a commutative semigroup: sums and doubles of its
/// members are members, and addition is commutative and associative.
pub open spec fn is_commutative_on(law: CurveLaw, domain: Domain) -> bool {
    &&& forall|u: Seq<u32>, v: Seq<u32>| #![trigger (law.0)(u, v)]
        domain(u) && domain(v) ==> domain((law.0)(u, v)) && (law.0)(u, v) == (law.0)(v, u)
    &&& forall|q: Seq<u32>| #![trigger (law.1)(q)] domain(q) ==> domain((law.1)(q))
    &&& forall|u: Seq<u32>, v: Seq<u32>, w: Seq<u32>| #![trigger (law.0)((law.0)(u, v), w)]
        domain(u) && domain(v) && domain(w) ==> (law.0)((law.0)(u, v), w) == (law.0)(
            u,
            (law.0)(v, w),
        )
}

/// On the domain the double of a point is the sum of the point with itself.
pub open spec fn doubles_by_adding(law: CurveLaw, domain: Domain) -> bool {
    forall|q: Seq<u32>| #![trigger (law.1)(q)] domain(q) ==> (law.1)(q) == (law.0)(q, q)
}

/// The sum of two accumulators that may be unset: an unset one adds nothing.
pub open spec fn sum_of(law: CurveLaw, u: Option<Seq<u32>>, v: Option<Seq<u32>>) -> Option<
    Seq<u32>,
> {
    match (u, v) {
        (None, _) => v,
        (_, None) => u,
        (Some(a), Some(b)) => Some((law.0)(a, b)),
    }
}

/// Doublings of a member of the domain are members.
pub proof fn lemma_doubled_in_domain(law: CurveLaw, domain: Domain, p: Seq<u32>, k: nat)
    requires
        is_commutative_on(law, domain),
        domain(p),
    ensures
        domain(doubled(law, p, k)),
    decreases k,
{
    if k > 0 {
        lemma_doubled_in_domain(law, domain, p, (k - 1) as nat);
    }
}

/// What double-and-add makes of a member of the domain is a member.
pub proof fn lemma_double_and_add_in_domain(
    law: CurveLaw,
    domain: Domain,
    p: Seq<u32>,
    bits: Seq<bool>,
)
    requires
        is_commutative_on(law, domain),
        domain(p),
    ensures
        double_and_add(law, p, bits).is_some() ==> domain(double_and_add(law, p, bits).unwrap()),
    decreases bits.len(),
{
    if bits.len() > 0 {
        lemma_double_and_add_in_domain(law, domain, p, bits.drop_last());
        lemma_doubled_in_domain(law, domain, p, (bits.len() - 1) as nat);
    }
}

/// Where the law is that of a commutative semigroup, simultaneous double-and-add of two
/// points gives the sum of what double-and-add gives for each point with its own bits.
/// Where one of the two has no bit set, the sum is what the other gives.
pub proof fn lemma_pair_is_sum(
    law: CurveLaw,
    domain: Domain,
    a: Seq<u32>,
    a_bits: Seq<bool>,
    b: Seq<u32>,
    b_bits: Seq<bool>,
)
    requires
        a_bits.len() == b_bits.len(),
        is_commutative_on(law, domain),
        domain(a),
        domain(b),
    ensures
        double_and_add_pair(law, a, a_bits, b, b_bits) == sum_of(
            law,
            double_and_add(law, a, a_bits),
            double_and_add(law, b, b_bits),
        ),
    decreases a_bits.len(),
{
    if a_bits.len() > 0 {
        lemma_pair_is_sum(law, domain, a, a_bits.drop_last(), b, b_bits.drop_last());
        let k = (a_bits.len() - 1) as nat;
        let ta = doubled(law, a, k);
        let tb = doubled(law, b, k);
        let sa = double_and_add(law, a, a_bits.drop_last());
        let sb = double_and_add(law, b, b_bits.drop_last());
        lemma_doubled_in_domain(law, domain, a, k);
        lemma_doubled_in_domain(law, domain, b, k);
        lemma_double_and_add_in_domain(law, domain, a, a_bits.drop_last());
        lemma_double_and_add_in_domain(law, domain, b, b_bits.drop_last());
        if a_bits.last() && b_bits.last() {
            if sa.is_some() && sb.is_some() {
                let u = sa.unwrap();
                let v = sb.unwrap();
                assert((law.0)((law.0)(u, v), ta) == (law.0)(u, (law.0)(v, ta)));
                assert((law.0)(v, ta) == (law.0)(ta, v));
                assert((law.0)((law.0)(u, ta), v) == (law.0)(u, (law.0)(ta, v)));
                assert(domain((law.0)(u, ta)));
                assert((law.0)((law.0)((law.0)(u, ta), v), tb) == (law.0)(
                    (law.0)(u, ta),
                    (law.0)(v, tb),
                ));
            } else if sb.is_some() {
                let v = sb.unwrap();
                assert((law.0)(v, ta) == (law.0)(ta, v));
                assert((law.0)((law.0)(ta, v), tb) == (law.0)(ta, (law.0)(v, tb)));
            }
        } else if a_bits.last() {
            if sa.is_some() && sb.is_some() {
                let u = sa.unwrap();
                let v = sb.unwrap();
                assert((law.0)((law.0)(u, v), ta) == (law.0)(u, (law.0)(v, ta)));
                assert((law.0)(v, ta) == (law.0)(ta, v));
                assert((law.0)((law.0)(u, ta), v) == (law.0)(u, (law.0)(ta, v)));
            } else if sb.is_some() {
                let v = sb.unwrap();
                assert((law.0)(v, ta) == (law.0)(ta, v));
            }
        } else if b_bits.last() {
            if sa.is_some() && sb.is_some() {
                let u = sa.unwrap();
                let v = sb.unwrap();
                assert((law.0)((law.0)(u, v), tb) == (law.0)(u, (law.0)(v, tb)));
            }
        }
    }
}

/// The special cases of complete addition. The identity added to itself is the identity.
/// A point and the identity, in either order, add up to the point. A point other than
/// the identity added to itself is its double. Two points that are each other's
/// negation, neither of them the identity, add up to the identity. Two points that are
/// distinct, neither the identity nor each other's negation, are no special case.
pub proof fn lemma_special_cases(law: CurveLaw, p: Seq<u32>, q: Seq<u32>)
    requires
        p.len() == q.len(),
    ensures
        special_case_sum(law, identity_limbs(p.len()), identity_limbs(p.len())) == Some(
            identity_limbs(p.len()),
        ),
        special_case_sum(law, p, identity_limbs(p.len())) == Some(p),
        special_case_sum(law, identity_limbs(p.len()), p) == Some(p),
        !all_zero(p) ==> special_case_sum(law, p, p) == Some((law.1)(p)),
        !all_zero(p) && !all_zero(q) && p != q && is_negation(p, q) ==> special_case_sum(law, p, q)
            == Some(identity_limbs(p.len())),
        !all_zero(p) && !all_zero(q) && p != q && !is_negation(p, q) ==> special_case_sum(
            law,
            p,
            q,
        ).is_none(),
{
    let zero = identity_limbs(p.len());
    assert(all_zero(zero));
    if all_zero(p) {
        assert(p =~= zero);
    }
}


/// `2^n`.
pub open spec fn pow2(n: nat) -> nat
    decreases n,
{
    if n == 0 {
        1
    } else {
        2 * pow2((n - 1) as nat)
    }
}

/// The integer whose bits, least significant first, are `bits`.
pub open spec fn bits_value(bits: Seq<bool>) -> nat
    decreases bits.len(),
{
    if bits.len() == 0 {
        0
    } else {
        bits_value(bits.drop_last()) + if bits.last() {
            pow2((bits.len() - 1) as nat)
        } else {
            0
        }
    }
}

/// The sum of `k` copies of `p`, for `k` at least one: `p` added to itself `k - 1` times.
pub open spec fn repeated_sum(law: CurveLaw, p: Seq<u32>, k: nat) -> Seq<u32>
    decreases k,
{
    if k <= 1 {
        p
    } else {
        (law.0)(repeated_sum(law, p, (k - 1) as nat), p)
    }
}

/// Sums of copies of a member of the domain are members.
pub proof fn lemma_repeated_sum_in_domain(law: CurveLaw, domain: Domain, p: Seq<u32>, k: nat)
    requires
        is_commutative_on(law, domain),
        domain(p),
    ensures
        domain(repeated_sum(law, p, k)),
    decreases k,
{
    if k > 1 {
        lemma_repeated_sum_in_domain(law, domain, p, (k - 1) as nat);
    }
}

/// The sum of `m + n` copies is the sum of `m` copies added to the sum of `n` copies.
pub proof fn lemma_repeated_sum_splits(law: CurveLaw, domain: Domain, p: Seq<u32>, m: nat, n: nat)
    requires
        m >= 1,
        n >= 1,
        is_commutative_on(law, domain),
        domain(p),
    ensures
        repeated_sum(law, p, m + n) == (law.0)(repeated_sum(law, p, m), repeated_sum(law, p, n)),
    decreases n,
{
    if n > 1 {
        lemma_repeated_sum_splits(law, domain, p, m, (n - 1) as nat);
        lemma_repeated_sum_in_domain(law, domain, p, m);
        lemma_repeated_sum_in_domain(law, domain, p, (n - 1) as nat);
        let rm = repeated_sum(law, p, m);
        let rn = repeated_sum(law, p, (n - 1) as nat);
        assert(repeated_sum(law, p, m + n) == (law.0)(repeated_sum(law, p, (m + n - 1) as nat), p));
        assert((law.0)((law.0)(rm, rn), p) == (law.0)(rm, (law.0)(rn, p)));
    }
}

/// `k` doublings of a point give the sum of `2^k` copies of it.
pub proof fn lemma_doubled_is_repeated_sum(law: CurveLaw, domain: Domain, p: Seq<u32>, k: nat)
    requires
        is_commutative_on(law, domain),
        doubles_by_adding(law, domain),
        domain(p),
    ensures
        pow2(k) >= 1,
        doubled(law, p, k) == repeated_sum(law, p, pow2(k)),
    decreases k,
{
    if k > 0 {
        lemma_doubled_is_repeated_sum(law, domain, p, (k - 1) as nat);
        lemma_doubled_in_domain(law, domain, p, (k - 1) as nat);
        let half = pow2((k - 1) as nat);
        lemma_repeated_sum_splits(law, domain, p, half, half);
        assert(pow2(k) == half + half);
    }
}

/// Scalar multiplication is repeated addition: where the law is that of a commutative
/// semigroup in which doubling is adding a point to itself, double-and-add over the bits
/// of `k` gives the sum of `k` copies of the point, and nothing where `k` is zero.
pub proof fn lemma_double_and_add_is_repeated_sum(
    law: CurveLaw,
    domain: Domain,
    p: Seq<u32>,
    bits: Seq<bool>,
)
    requires
        is_commutative_on(law, domain),
        doubles_by_adding(law, domain),
        domain(p),
    ensures
        double_and_add(law, p, bits) == if bits_value(bits) == 0 {
            None
        } else {
            Some(repeated_sum(law, p, bits_value(bits)))
        },
    decreases bits.len(),
{
    if bits.len() > 0 {
        let front = bits.drop_last();
        let k = (bits.len() - 1) as nat;
        lemma_double_and_add_is_repeated_sum(law, domain, p, front);
        lemma_doubled_is_repeated_sum(law, domain, p, k);
        if bits.last() && bits_value(front) > 0 {
            lemma_repeated_sum_splits(law, domain, p, bits_value(front), pow2(k));
        }
    }
}


/// The integer that a scalar encodes, given as little-endian words.
pub open spec fn scalar_value(scalar: Seq<u32>) -> nat
    decreases scalar.len(),
{
    if scalar.len() == 0 {
        0
    } else {
        scalar_value(scalar.drop_last()) + (scalar.last() as nat) * pow2(
            (32 * (scalar.len() - 1)) as nat,
        )
    }
}

/// Powers of two are positive, and multiply as their exponents add.
pub proof fn lemma_pow2_adds(a: nat, b: nat)
    ensures
        pow2(a) >= 1,
        pow2(a + b) == pow2(a) * pow2(b),
    decreases a,
{
    if a > 0 {
        lemma_pow2_adds((a - 1) as nat, b);
        let x = pow2((a - 1) as nat);
        let y = pow2(b);
        assert(pow2(a + b) == 2 * pow2((a - 1 + b) as nat));
        assert(2 * (x * y) == (2 * x) * y) by (nonlinear_arith);
    } else {
        assert(pow2(a + b) == 1 * pow2(b));
    }
}

/// A one shifted left by `r` places is `2^r`.
proof fn lemma_shift_is_pow2(r: u32)
    requires
        r < 32,
    ensures
        (1u32 << r) as nat == pow2(r as nat),
    decreases r,
{
    if r == 0 {
        assert(1u32 << 0u32 == 1u32) by (bit_vector);
    } else {
        let s: u32 = (r - 1) as u32;
        lemma_shift_is_pow2(s);
        assert(s < 31 ==> (1u32 << ((s + 1) as u32)) == 2 * (1u32 << s) && (1u32 << s)
            <= 0x4000_0000u32) by (bit_vector);
    }
}

/// `2^32` is the number of values of a word.
proof fn lemma_pow2_32()
    ensures
        pow2(32) == 0x1_0000_0000,
{
    lemma_shift_is_pow2(16);
    assert(1u32 << 16u32 == 65536u32) by (bit_vector);
    lemma_pow2_adds(16, 16);
}

/// Bit `r` of a word is the parity of the word divided by `2^r`.
proof fn lemma_word_bit_is_parity(w: u32, r: u32)
    requires
        r < 32,
    ensures
        word_bit(w, r) == ((w as nat / pow2(r as nat)) % 2 == 1),
{
    lemma_shift_is_pow2(r);
    let p: u32 = 1u32 << r;
    assert(r < 32 ==> (1u32 << r) != 0 && (((w >> r) & 1 == 1) == ((w / (1u32 << r)) % 2 == 1)))
        by (bit_vector);
}

/// The remainder by `2p` is the remainder by `p`, and `p` more where the quotient by `p`
/// is odd.
proof fn lemma_mod_doubles(w: nat, p: nat)
    requires
        p > 0,
    ensures
        w % (2 * p) == w % p + p * ((w / p) % 2),
{
    let q = (w / p) as int;
    let m = (w % p) as int;
    let pi = p as int;
    lemma_fundamental_div_mod(w as int, pi);
    assert(0 <= m < pi) by (nonlinear_arith)
        requires
            m == (w as int) % pi,
            pi > 0,
    ;
    let h = q / 2;
    let b = q % 2;
    let r = m + pi * b;
    assert(w as int == h * (2 * pi) + r) by (nonlinear_arith)
        requires
            w as int == pi * q + m,
            q == 2 * h + b,
            r == m + pi * b,
    ;
    assert(0 <= r < 2 * pi) by (nonlinear_arith)
        requires
            0 <= m < pi,
            0 <= b <= 1,
            r == m + pi * b,
    ;
    lemma_fundamental_div_mod_converse(w as int, 2 * pi, h, r);
}

/// The first `32 * q + r` bits of a scalar encode its first `q` words and the lowest
/// `r` bits of the word after them.
proof fn lemma_scalar_bits_prefix(scalar: Seq<u32>, q: nat, r: nat)
    requires
        q < scalar.len(),
        r <= 32,
    ensures
        bits_value(scalar_bits(scalar).take((32 * q + r) as int)) == scalar_value(
            scalar.take(q as int),
        ) + (scalar[q as int] as nat % pow2(r)) * pow2(32 * q),
    decreases q, r,
{
    let bits = scalar_bits(scalar);
    let w = scalar[q as int];
    let high = pow2(32 * q);
    if r > 0 {
        let j = (32 * q + r - 1) as nat;
        let low = pow2((r - 1) as nat);
        lemma_scalar_bits_prefix(scalar, q, (r - 1) as nat);
        assert(bits.take((j + 1) as int).drop_last() =~= bits.take(j as int));
        assert(j / 32 == q && j % 32 == r - 1);
        assert(bits.take((j + 1) as int).last() == word_bit(w, (r - 1) as u32));
        lemma_word_bit_is_parity(w, (r - 1) as u32);
        lemma_pow2_adds((r - 1) as nat, 0);
        lemma_mod_doubles(w as nat, low);
        lemma_pow2_adds(32 * q, (r - 1) as nat);
        assert(pow2(r) == 2 * low);
        assert(pow2(j) == high * low);
        let odd = (w as nat / low) % 2;
        let rest = w as nat % low;
        assert((rest + low * odd) * high == rest * high + odd * (high * low)) by (nonlinear_arith);
    } else if q > 0 {
        let before = scalar[q - 1];
        lemma_scalar_bits_prefix(scalar, (q - 1) as nat, 32);
        lemma_pow2_32();
        assert(before as nat % pow2(32) == before as nat);
        assert(scalar.take(q as int).drop_last() =~= scalar.take(q - 1));
        assert(scalar.take(q as int).last() == before);
        assert(w as nat % pow2(0) == 0);
        assert(0 * high == 0);
    } else {
        assert(bits.take(0).len() == 0);
        assert(scalar.take(0).len() == 0);
        assert(w as nat % pow2(0) == 0);
        assert(0 * high == 0);
    }
}

/// The bits of a scalar encode the integer that its words encode.
pub proof fn lemma_scalar_bits_value(scalar: Seq<u32>)
    ensures
        bits_value(scalar_bits(scalar)) == scalar_value(scalar),
{
    let bits = scalar_bits(scalar);
    if scalar.len() > 0 {
        let q = (scalar.len() - 1) as nat;
        lemma_scalar_bits_prefix(scalar, q, 32);
        lemma_pow2_32();
        assert(bits.take((32 * q + 32) as int) =~= bits);
        assert(scalar.take(q as int) =~= scalar.drop_last());
        assert(scalar[q as int] as nat % pow2(32) == scalar[q as int] as nat);
    }
}

} // verus!
