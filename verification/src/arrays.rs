use vstd::prelude::*;
use crate::error::CryptoError;

pub mod base64;
pub mod hex;

pub use self::base64::{b64_decode, b64_encode};
pub use self::hex::{hex_decode, hex_encode};

verus! {

/// Byte-wise XOR of two buffers of equal length.
pub open spec fn xor_fixed(a: Seq<u8>, b: Seq<u8>) -> Seq<u8>
    recommends
        a.len() == b.len(),
{
    Seq::new(a.len(), |i: int| a[i] ^ b[i])
}

/// Every byte of `a` XORed with the one key byte `k`.
pub open spec fn xor_single(a: Seq<u8>, k: u8) -> Seq<u8> {
    Seq::new(a.len(), |i: int| a[i] ^ k)
}

/// Every byte of `a` XORed with the key byte at the same position, the key
/// being repeated as often as needed.
pub open spec fn xor_cycled(a: Seq<u8>, key: Seq<u8>) -> Seq<u8>
    recommends
        key.len() >= 1,
{
    Seq::new(a.len(), |i: int| a[i] ^ key[i % (key.len() as int)])
}

/// The number of bits set in a byte.
pub open spec fn bit_count(b: u8) -> nat {
    ((b & 1) + ((b >> 1) & 1) + ((b >> 2) & 1) + ((b >> 3) & 1) + ((b >> 4) & 1) + ((b >> 5) & 1)
        + ((b >> 6) & 1) + ((b >> 7) & 1)) as nat
}

/// The number of bit positions in which two buffers of equal length differ:
/// the bit counts of `a[i] ^ b[i]`, summed over all positions.
pub open spec fn hamming(a: Seq<u8>, b: Seq<u8>) -> nat
    recommends
        a.len() == b.len(),
    decreases a.len(),
{
    if a.len() == 0 {
        0
    } else {
        hamming(a.drop_last(), b.drop_last()) + bit_count(a.last() ^ b.last())
    }
}

/// The bit count of one byte is at most eight.
pub proof fn lemma_bit_count_bound(b: u8)
    ensures
        bit_count(b) <= 8,
{
    assert((b & 1) <= 1 && ((b >> 1) & 1) <= 1 && ((b >> 2) & 1) <= 1 && ((b >> 3) & 1) <= 1 && ((b
        >> 4) & 1) <= 1 && ((b >> 5) & 1) <= 1 && ((b >> 6) & 1) <= 1 && ((b >> 7) & 1) <= 1)
        by (bit_vector);
}

/// Two buffers differ in at most eight bits per byte.
pub proof fn lemma_hamming_bound(a: Seq<u8>, b: Seq<u8>)
    ensures
        hamming(a, b) <= 8 * a.len(),
    decreases a.len(),
{
    if a.len() > 0 {
        lemma_hamming_bound(a.drop_last(), b.drop_last());
        lemma_bit_count_bound(a.last() ^ b.last());
    }
}

/// A buffer has distance zero from itself.
pub proof fn lemma_hamming_self(a: Seq<u8>)
    ensures
        hamming(a, a) == 0,
    decreases a.len(),
{
    if a.len() > 0 {
        lemma_hamming_self(a.drop_last());
        let x = a.last();
        assert(x ^ x == 0) by (bit_vector);
        assert(bit_count(0u8) == 0) by (bit_vector);
    }
}

/// XORing twice with the same buffer gives the first buffer back.
pub proof fn lemma_xor_fixed_involution(a: Seq<u8>, b: Seq<u8>)
    requires
        a.len() == b.len(),
    ensures
        xor_fixed(xor_fixed(a, b), b) == a,
{
    assert forall|i: int| 0 <= i < a.len() implies (a[i] ^ b[i]) ^ b[i] == a[i] by {
        let x = a[i];
        let y = b[i];
        assert((x ^ y) ^ y == x) by (bit_vector);
    }
    assert(xor_fixed(xor_fixed(a, b), b) =~= a);
}

/// XORing twice with the same key byte gives the buffer back.
pub proof fn lemma_xor_single_involution(a: Seq<u8>, k: u8)
    ensures
        xor_single(xor_single(a, k), k) == a,
{
    assert forall|i: int| 0 <= i < a.len() implies (a[i] ^ k) ^ k == a[i] by {
        let x = a[i];
        assert((x ^ k) ^ k == x) by (bit_vector);
    }
    assert(xor_single(xor_single(a, k), k) =~= a);
}

/// XORing twice with the same repeating key gives the buffer back.
pub proof fn lemma_xor_cycled_involution(a: Seq<u8>, key: Seq<u8>)
    requires
        key.len() >= 1,
    ensures
        xor_cycled(xor_cycled(a, key), key) == a,
{
    assert forall|i: int| 0 <= i < a.len() implies (a[i] ^ key[i % (key.len() as int)]) ^ key[i % (
    key.len() as int)] == a[i] by {
        let x = a[i];
        let y = key[i % (key.len() as int)];
        assert((x ^ y) ^ y == x) by (bit_vector);
    }
    assert(xor_cycled(xor_cycled(a, key), key) =~= a);
}

/// A key of one byte, repeated, is the single-byte XOR with that byte.
pub proof fn lemma_xor_cycled_one_byte(a: Seq<u8>, k: u8)
    ensures
        xor_cycled(a, seq![k]) == xor_single(a, k),
{
    assert(xor_cycled(a, seq![k]) =~= xor_single(a, k));
}

/// XORs two buffers of equal length byte by byte.
pub fn xor_equal(a: &[u8], b: &[u8]) -> (r: Vec<u8>)
    requires
        a.len() == b.len(),
    ensures
        r@ == xor_fixed(a@, b@),
{
    let mut out: Vec<u8> = Vec::new();
    let mut i: usize = 0;
    while i < a.len()
        invariant
            a.len() == b.len(),
            i <= a.len(),
            out@ == xor_fixed(a@, b@).take(i as int),
        decreases a.len() - i,
    {
        out.push(a[i] ^ b[i]);
        i += 1;
        assert(out@ =~= xor_fixed(a@, b@).take(i as int));
    }
    assert(out@ =~= xor_fixed(a@, b@));
    out
}

/// XORs two buffers byte by byte. Buffers of different length are rejected.
pub fn fixed_xor(a: &[u8], b: &[u8]) -> (r: Result<Vec<u8>, CryptoError>)
    ensures
        a.len() == b.len() ==> (r matches Ok(v) && v@ == xor_fixed(a@, b@)),
        a.len() != b.len() ==> r == Err::<Vec<u8>, CryptoError>(CryptoError::LengthMismatch),
{
    if a.len() != b.len() {
        return Err(CryptoError::LengthMismatch);
    }
    Ok(xor_equal(a, b))
}

/// XORs every byte of a buffer with one key byte.
pub fn single_xor(a: &[u8], b: u8) -> (r: Vec<u8>)
    ensures
        r@ == xor_single(a@, b),
{
    let mut out: Vec<u8> = Vec::new();
    let mut i: usize = 0;
    while i < a.len()
        invariant
            i <= a.len(),
            out@ == xor_single(a@, b).take(i as int),
        decreases a.len() - i,
    {
        out.push(a[i] ^ b);
        i += 1;
        assert(out@ =~= xor_single(a@, b).take(i as int));
    }
    assert(out@ =~= xor_single(a@, b));
    out
}

/// XORs a buffer with a key that is repeated over its whole length.
pub fn xor_repeating(a: &[u8], b: &[u8]) -> (r: Vec<u8>)
    requires
        b.len() >= 1,
    ensures
        r@ == xor_cycled(a@, b@),
{
    let mut out: Vec<u8> = Vec::new();
    let mut i: usize = 0;
    let mut j: usize = 0;
    while i < a.len()
        invariant
            b.len() >= 1,
            i <= a.len(),
            j == i % b.len(),
            out@ == xor_cycled(a@, b@).take(i as int),
        decreases a.len() - i,
    {
        out.push(a[i] ^ b[j]);
        proof {
            lemma_next_residue(i as int, b.len() as int);
        }
        i += 1;
        j += 1;
        if j == b.len() {
            j = 0;
        }
        assert(out@ =~= xor_cycled(a@, b@).take(i as int));
    }
    assert(out@ =~= xor_cycled(a@, b@));
    out
}

/// The residue of `i + 1` is the residue of `i` plus one, or zero where that
/// reaches the modulus.
pub proof fn lemma_next_residue(i: int, n: int)
    requires
        0 <= i,
        1 <= n,
    ensures
        (i + 1) % n == if i % n + 1 == n { 0 } else { i % n + 1 },
{
    vstd::arithmetic::div_mod::lemma_fundamental_div_mod(i, n);
    vstd::arithmetic::div_mod::lemma_mod_bound(i, n);
    let q = i / n;
    let r = i % n;
    if r + 1 == n {
        assert(i + 1 == (q + 1) * n + 0) by (nonlinear_arith)
            requires
                i == n * q + r,
                r + 1 == n,
        ;
        vstd::arithmetic::div_mod::lemma_fundamental_div_mod_converse(i + 1, n, q + 1, 0);
    } else {
        assert(i + 1 == q * n + (r + 1)) by (nonlinear_arith)
            requires
                i == n * q + r,
        ;
        vstd::arithmetic::div_mod::lemma_fundamental_div_mod_converse(i + 1, n, q, r + 1);
    }
}

/// Counts the bits set in one byte.
pub fn count_bits(b: u8) -> (r: u32)
    ensures
        r == bit_count(b),
        r <= 8,
{
    proof {
        lemma_bit_count_bound(b);
        assert((b & 1) <= 1 && ((b >> 1) & 1) <= 1 && ((b >> 2) & 1) <= 1 && ((b >> 3) & 1) <= 1
            && ((b >> 4) & 1) <= 1 && ((b >> 5) & 1) <= 1 && ((b >> 6) & 1) <= 1 && ((b >> 7) & 1)
            <= 1) by (bit_vector);
    }
    let low: u8 = (b & 1) + ((b >> 1) & 1) + ((b >> 2) & 1) + ((b >> 3) & 1);
    let high: u8 = ((b >> 4) & 1) + ((b >> 5) & 1) + ((b >> 6) & 1) + ((b >> 7) & 1);
    (low + high) as u32
}

/// The first bytes of two buffers differ in no more bits than the buffers do.
pub proof fn lemma_hamming_prefix(a: Seq<u8>, b: Seq<u8>, n: int)
    requires
        a.len() == b.len(),
        0 <= n <= a.len(),
    ensures
        hamming(a.take(n), b.take(n)) <= hamming(a, b),
    decreases a.len(),
{
    if n == a.len() {
        assert(a.take(n) =~= a);
        assert(b.take(n) =~= b);
    } else {
        lemma_hamming_prefix(a.drop_last(), b.drop_last(), n);
        assert(a.drop_last().take(n) =~= a.take(n));
        assert(b.drop_last().take(n) =~= b.take(n));
    }
}

/// Counts the bits in which two buffers of equal length differ. The count
/// has to fit the result.
pub fn bit_difference(a: &[u8], b: &[u8]) -> (r: u32)
    requires
        a.len() == b.len(),
        hamming(a@, b@) <= u32::MAX,
    ensures
        r == hamming(a@, b@),
{
    let mut total: u32 = 0;
    let mut i: usize = 0;
    while i < a.len()
        invariant
            a.len() == b.len(),
            hamming(a@, b@) <= u32::MAX,
            i <= a.len(),
            total == hamming(a@.take(i as int), b@.take(i as int)),
        decreases a.len() - i,
    {
        let bits: u32 = count_bits(a[i] ^ b[i]);
        proof {
            assert(a@.take(i + 1).drop_last() =~= a@.take(i as int));
            assert(b@.take(i + 1).drop_last() =~= b@.take(i as int));
            lemma_hamming_prefix(a@, b@, i + 1);
        }
        total = total + bits;
        i += 1;
    }
    assert(a@.take(i as int) =~= a@);
    assert(b@.take(i as int) =~= b@);
    total
}

/// Counts the bits in which two buffers differ. Buffers of different length
/// are rejected. The count has to fit the result; a buffer has distance zero
/// from itself, whatever its length.
pub fn hamming_distance(a: &[u8], b: &[u8]) -> (r: Result<u32, CryptoError>)
    requires
        a.len() == b.len() ==> hamming(a@, b@) <= u32::MAX,
    ensures
        a.len() == b.len() ==> (r matches Ok(d) && d == hamming(a@, b@)),
        a.len() != b.len() ==> r == Err::<u32, CryptoError>(CryptoError::LengthMismatch),
        a@ == b@ ==> r == Ok::<u32, CryptoError>(0),
{
    if a.len() != b.len() {
        return Err(CryptoError::LengthMismatch);
    }
    proof {
        if a@ == b@ {
            lemma_hamming_self(a@);
        }
    }
    Ok(bit_difference(a, b))
}

} // verus!
