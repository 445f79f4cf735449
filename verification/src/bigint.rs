//! The integer model of little-endian byte strings, and multiplication and remainder of
//! integers of any size.

use crate::utils::{
    all_zero, bytes_to_words_le, le_bytes_of_words, lemma_bytes_round_trip, lemma_word_bytes_join,
    word_byte, words_to_bytes_le,
};
use num::BigUint;
use vstd::prelude::*;

verus! {

/// `256^n`.
pub open spec fn pow256(n: nat) -> nat
    decreases n,
{
    if n == 0 {
        1
    } else {
        256 * pow256((n - 1) as nat)
    }
}

/// The integer that a little-endian byte string encodes.
pub open spec fn le_value(bytes: Seq<u8>) -> nat
    decreases bytes.len(),
{
    if bytes.len() == 0 {
        0
    } else {
        le_value(bytes.drop_last()) + (bytes.last() as nat) * pow256((bytes.len() - 1) as nat)
    }
}

/// The integer that a sequence of little-endian words encodes.
pub open spec fn words_value(words: Seq<u32>) -> nat {
    le_value(le_bytes_of_words(words))
}

/// A byte string is minimal when it is not empty and, unless it is a single byte, its
/// most significant byte is not zero.
pub open spec fn is_minimal(bytes: Seq<u8>) -> bool {
    bytes.len() >= 1 && (bytes.len() > 1 ==> bytes.last() != 0)
}

/// Powers of 256 grow with the exponent, and are at least one.
pub proof fn lemma_pow256_monotone(a: nat, b: nat)
    requires
        a <= b,
    ensures
        1 <= pow256(a) <= pow256(b),
    decreases b,
{
    if a < b {
        lemma_pow256_monotone(a, (b - 1) as nat);
    } else if a > 0 {
        lemma_pow256_monotone((a - 1) as nat, (b - 1) as nat);
    }
}

/// A string of `n` bytes encodes an integer below `256^n`.
pub proof fn lemma_le_value_bound(bytes: Seq<u8>)
    ensures
        le_value(bytes) < pow256(bytes.len()),
    decreases bytes.len(),
{
    if bytes.len() > 0 {
        lemma_le_value_bound(bytes.drop_last());
        let p = pow256((bytes.len() - 1) as nat);
        let last = bytes.last() as nat;
        assert(last * p <= 255 * p) by (nonlinear_arith)
            requires
                last <= 255,
        ;
    }
}

/// A string with a byte that is not zero encodes a positive integer.
pub proof fn lemma_le_value_positive(bytes: Seq<u8>, j: int)
    requires
        0 <= j < bytes.len(),
        bytes[j] != 0,
    ensures
        le_value(bytes) > 0,
    decreases bytes.len(),
{
    let p = pow256((bytes.len() - 1) as nat);
    let last = bytes.last() as nat;
    lemma_pow256_monotone(0, (bytes.len() - 1) as nat);
    if j == bytes.len() - 1 {
        assert(last * p >= 1) by (nonlinear_arith)
            requires
                last >= 1,
                p >= 1,
        ;
    } else {
        lemma_le_value_positive(bytes.drop_last(), j);
    }
}

/// A minimal string that encodes an integer below `256^n`, for `n` at least one, has at
/// most `n` bytes.
pub proof fn lemma_minimal_length(bytes: Seq<u8>, n: nat)
    requires
        is_minimal(bytes),
        le_value(bytes) < pow256(n),
        n >= 1,
    ensures
        bytes.len() <= n,
{
    if bytes.len() > n {
        let p = pow256((bytes.len() - 1) as nat);
        let last = bytes.last() as nat;
        lemma_pow256_monotone(n, (bytes.len() - 1) as nat);
        assert(last * p >= p) by (nonlinear_arith)
            requires
                last >= 1,
        ;
    }
}

/// A zero byte appended at the most significant end leaves the integer as it is.
pub proof fn lemma_le_value_push_zero(bytes: Seq<u8>)
    ensures
        le_value(bytes.push(0u8)) == le_value(bytes),
{
    let longer = bytes.push(0u8);
    assert(longer.drop_last() =~= bytes);
    assert(longer.last() == 0u8);
    assert((longer.last() as nat) * pow256((longer.len() - 1) as nat) == 0) by (nonlinear_arith)
        requires
            longer.last() as nat == 0,
    ;
}

/// Words that are not all zero encode a positive integer.
pub proof fn lemma_words_value_positive(words: Seq<u32>)
    requires
        !all_zero(words),
    ensures
        words_value(words) > 0,
{
    let k = choose|k: int| 0 <= k < words.len() && words[k] != 0;
    let bytes = le_bytes_of_words(words);
    lemma_word_bytes_join(words[k]);
    let j = if word_byte(words[k], 0) != 0 {
        4 * k
    } else if word_byte(words[k], 1) != 0 {
        4 * k + 1
    } else if word_byte(words[k], 2) != 0 {
        4 * k + 2
    } else {
        4 * k + 3
    };
    assert(j / 4 == k);
    assert(bytes[j] == word_byte(words[k], j % 4));
    lemma_le_value_positive(bytes, j);
}

/// The product of two integers given as little-endian bytes, as minimal little-endian
/// bytes. Calls `BigUint::from_bytes_le` on each operand, multiplies the two `BigUint`
/// values and calls `BigUint::to_bytes_le` on the product. The contract claims that the
/// bytes returned encode the product of the two encoded integers, and that they are
/// minimal.
#[verifier::external_body]
fn big_mul(x: &[u8], y: &[u8]) -> (r: Vec<u8>)
    ensures
        le_value(r@) == le_value(x@) * le_value(y@),
        is_minimal(r@),
{
    (BigUint::from_bytes_le(x) * BigUint::from_bytes_le(y)).to_bytes_le()
}

/// The remainder of one integer by another that is not zero, both given as little-endian
/// bytes, as minimal little-endian bytes. Calls `BigUint::from_bytes_le` on each
/// operand, takes the remainder of the two `BigUint` values with `%` and calls
/// `BigUint::to_bytes_le` on it. The contract claims that the bytes returned encode the
/// remainder of the encoded integers, and that they are minimal. A zero divisor, on
/// which `%` panics, is left out.
#[verifier::external_body]
fn big_rem(a: &[u8], m: &[u8]) -> (r: Vec<u8>)
    requires
        le_value(m@) != 0,
    ensures
        le_value(r@) == le_value(a@) % le_value(m@),
        is_minimal(r@),
{
    (BigUint::from_bytes_le(a) % BigUint::from_bytes_le(m)).to_bytes_le()
}

/// Every byte of the string is zero.
pub open spec fn all_zero_bytes(bytes: Seq<u8>) -> bool {
    forall|i: int| 0 <= i < bytes.len() ==> bytes[i] == 0
}

/// A string encodes zero exactly when every byte of it is zero.
pub proof fn lemma_le_value_zero(bytes: Seq<u8>)
    ensures
        all_zero_bytes(bytes) <==> le_value(bytes) == 0,
    decreases bytes.len(),
{
    if !all_zero_bytes(bytes) {
        let j = choose|j: int| 0 <= j < bytes.len() && bytes[j] != 0;
        lemma_le_value_positive(bytes, j);
    } else if bytes.len() > 0 {
        let front = bytes.drop_last();
        assert forall|i: int| 0 <= i < front.len() implies front[i] == 0 by {
            assert(front[i] == bytes[i]);
        }
        lemma_le_value_zero(front);
        lemma_le_value_push_zero(front);
        assert(front.push(0u8) =~= bytes);
    }
}

/// Two strings of one length that encode the same integer are the same string.
pub proof fn lemma_le_value_injective(a: Seq<u8>, b: Seq<u8>)
    requires
        a.len() == b.len(),
        le_value(a) == le_value(b),
    ensures
        a == b,
    decreases a.len(),
{
    if a.len() > 0 {
        let p = pow256((a.len() - 1) as nat) as int;
        let lo_a = le_value(a.drop_last()) as int;
        let lo_b = le_value(b.drop_last()) as int;
        let hi_a = a.last() as int;
        let hi_b = b.last() as int;
        lemma_le_value_bound(a.drop_last());
        lemma_le_value_bound(b.drop_last());
        assert(hi_a == hi_b) by (nonlinear_arith)
            requires
                lo_a + hi_a * p == lo_b + hi_b * p,
                0 <= lo_a < p,
                0 <= lo_b < p,
        {
            if hi_a > hi_b {
                assert((hi_a - hi_b) * p >= p);
            }
            if hi_b > hi_a {
                assert((hi_b - hi_a) * p >= p);
            }
        }
        assert(lo_a == lo_b) by (nonlinear_arith)
            requires
                lo_a + hi_a * p == lo_b + hi_b * p,
                hi_a == hi_b,
        ;
        lemma_le_value_injective(a.drop_last(), b.drop_last());
        assert(a =~= a.drop_last().push(a.last()));
        assert(b =~= b.drop_last().push(b.last()));
    } else {
        assert(a =~= b);
    }
}

/// Whether every byte of the slice is zero.
pub fn bytes_all_zero(bytes: &[u8]) -> (r: bool)
    ensures
        r == all_zero_bytes(bytes@),
{
    let mut i: usize = 0;
    while i < bytes.len()
        invariant
            i <= bytes.len(),
            forall|k: int| 0 <= k < i ==> bytes@[k] == 0,
        decreases bytes.len() - i,
    {
        if bytes[i] != 0 {
            return false;
        }
        i += 1;
    }
    true
}

/// Whether two slices hold the same bytes.
pub fn bytes_equal(a: &[u8], b: &[u8]) -> (r: bool)
    ensures
        r == (a@ == b@),
{
    if a.len() != b.len() {
        return false;
    }
    let mut i: usize = 0;
    while i < a.len()
        invariant
            i <= a.len(),
            a@.len() == b@.len(),
            forall|k: int| 0 <= k < i ==> a@[k] == b@[k],
        decreases a.len() - i,
    {
        if a[i] != b[i] {
            return false;
        }
        i += 1;
    }
    proof {
        assert(a@ =~= b@);
    }
    true
}

/// Multiplies two integers and reduces the product by a modulus that is not zero.
/// Operands and result are little-endian bytes; the result has as many bytes as the
/// modulus.
pub fn mul_mod_le_bytes(x: &[u8], y: &[u8], modulus: &[u8]) -> (r: Vec<u8>)
    requires
        !all_zero_bytes(modulus@),
    ensures
        r@.len() == modulus@.len(),
        le_value(r@) == (le_value(x@) * le_value(y@)) % le_value(modulus@),
{
    let size: usize = modulus.len();
    proof {
        lemma_le_value_zero(modulus@);
        lemma_le_value_bound(modulus@);
    }
    let product = big_mul(x, y);
    let mut bytes = big_rem(product.as_slice(), modulus);
    proof {
        let v = le_value(product@);
        let m = le_value(modulus@);
        assert(v % m < m) by (nonlinear_arith)
            requires
                m > 0,
        ;
        lemma_minimal_length(bytes@, size as nat);
    }
    while bytes.len() < size
        invariant
            bytes@.len() <= size,
            le_value(bytes@) == le_value(product@) % le_value(modulus@),
        decreases size - bytes.len(),
    {
        proof {
            lemma_le_value_push_zero(bytes@);
        }
        bytes.push(0u8);
    }
    bytes
}

/// Multiplies two integers and reduces the product by a modulus that is not zero.
/// Operands and result are little-endian words; the result has as many words as the
/// modulus.
pub fn mul_mod_words(x: &[u32], y: &[u32], modulus: &[u32]) -> (r: Vec<u32>)
    requires
        !all_zero(modulus@),
    ensures
        r@.len() == modulus@.len(),
        words_value(r@) == (words_value(x@) * words_value(y@)) % words_value(modulus@),
{
    let x_bytes = words_to_bytes_le(x);
    let y_bytes = words_to_bytes_le(y);
    let modulus_bytes = words_to_bytes_le(modulus);
    proof {
        lemma_words_value_positive(modulus@);
        lemma_le_value_zero(modulus_bytes@);
    }
    let bytes = mul_mod_le_bytes(x_bytes.as_slice(), y_bytes.as_slice(), modulus_bytes.as_slice());
    proof {
        lemma_bytes_round_trip(bytes@);
    }
    bytes_to_words_le(bytes.as_slice())
}

} // verus!
