use vstd::prelude::*;
use vstd::slice::slice_subrange;
use vstd::string::StringSliceAdditionalSpecFns;
use vstd::utf8::{decode_utf8, decode_utf8_encode_utf8, valid_utf8};
use crate::arrays::{
    bit_difference, hamming, lemma_hamming_bound, lemma_next_residue, single_xor, xor_cycled,
    xor_repeating, xor_single,
};
use crate::english::{english_score, score_bytes, score_span, text_score, Score, SCALE};
use crate::ratio::{
    first_max, first_min, lemma_first_max_next, lemma_first_max_unique, lemma_first_min_next,
    lemma_first_min_unique, lemma_le_lt, positive_on, ratio_less, Ratio,
};
use crate::text::decode_text;

pub mod modes;
pub mod padding;

pub use self::modes::{decrypt_aes_cbc, decrypt_aes_ecb, encrypt_aes_cbc, encrypt_aes_ecb};
pub use self::padding::{pkcs7_pad, pkcs7_unpad};

verus! {

/// The number of values that a key byte can take.
pub const KEY_BYTES: usize = 256;

/// The smallest key length that the repeating-key breaker tries.
pub const KEY_SIZE_MIN: usize = 2;

/// The largest key length that the repeating-key breaker tries.
pub const KEY_SIZE_MAX: usize = 40;

/// The score zero: that of the empty text, and of a candidate that is no
/// well-formed text.
pub open spec fn zero_score() -> Ratio {
    Ratio { num: 0, den: SCALE as nat }
}

/// The score of the candidate that key byte `k` gives for a ciphertext: the
/// score of the XORed bytes where they are well-formed text, zero where not.
pub open spec fn candidate_score(buf: Seq<u8>, k: int) -> Ratio {
    let decoded = xor_single(buf, k as u8);
    if valid_utf8(decoded) {
        text_score(decoded)
    } else {
        zero_score()
    }
}

/// The candidate scores of a ciphertext, by key byte.
pub open spec fn candidate_scores(buf: Seq<u8>) -> spec_fn(int) -> Ratio {
    |k: int| candidate_score(buf, k)
}

/// Key byte `k` wins the single-byte search: its candidate scores above zero,
/// no key byte scores higher, and every smaller key byte scores lower.
pub open spec fn is_single_key(buf: Seq<u8>, k: int) -> bool {
    &&& first_max(candidate_scores(buf), 0, KEY_BYTES as int, k)
    &&& candidate_score(buf, k).gt(zero_score())
}

/// No key byte gives a candidate that scores above zero.
pub open spec fn no_single_key(buf: Seq<u8>) -> bool {
    forall|k: int| 0 <= k < KEY_BYTES ==> !(#[trigger] candidate_score(buf, k)).gt(zero_score())
}

/// What the single-byte breaker reads out of a ciphertext: the text that the
/// winning key byte decodes it to, and nothing where no key byte wins.
pub open spec fn single_xor_plaintext(buf: Seq<u8>) -> Seq<char> {
    if exists|k: int| is_single_key(buf, k) {
        decode_utf8(xor_single(buf, (choose|k: int| is_single_key(buf, k)) as u8))
    } else {
        Seq::empty()
    }
}

/// One key byte at most wins the single-byte search.
pub proof fn lemma_single_key_unique(buf: Seq<u8>, k: int, m: int)
    requires
        is_single_key(buf, k),
        is_single_key(buf, m),
    ensures
        k == m,
{
    lemma_first_max_unique(candidate_scores(buf), 0, KEY_BYTES as int, k, m);
}

/// Every candidate score has a positive denominator.
pub proof fn lemma_candidate_scores_positive(buf: Seq<u8>)
    ensures
        positive_on(candidate_scores(buf), 0, KEY_BYTES as int),
{
    assert forall|k: int| 0 <= k < KEY_BYTES implies (#[trigger] candidate_scores(buf)(k)).den
        > 0 by {
        lemma_text_score_positive(xor_single(buf, k as u8));
    }
}

/// A text's score has a positive denominator.
pub proof fn lemma_text_score_positive(text: Seq<u8>)
    ensures
        text_score(text).den > 0,
        zero_score().den > 0,
{
    let span = score_span(text) as int;
    assert(10000 * span > 0) by (nonlinear_arith)
        requires
            span >= 1,
    ;
}

/// Nothing scores below zero.
pub proof fn lemma_zero_is_least(x: Ratio)
    ensures
        !x.lt(zero_score()),
        zero_score().le(x),
{
    assert(0 * x.den == 0) by (nonlinear_arith);
    assert(x.num * zero_score().den >= 0) by (nonlinear_arith);
}

/// Finds the key byte under which a ciphertext reads most like English, and
/// gives the text that it decodes to. Candidates that are no well-formed text
/// score zero; of equal scores the smallest key byte wins; the result is
/// empty where no candidate scores above zero.
pub fn break_single_xor(buf: &[u8]) -> (r: String)
    ensures
        r@ == single_xor_plaintext(buf@),
        no_single_key(buf@) <==> !exists|k: int| is_single_key(buf@, k),
{
    let ghost scores = candidate_scores(buf@);
    let ghost mut best: Option<int> = None;
    let mut max_score = Score::zero();
    let mut result = String::new();
    let mut k: usize = 0;
    proof {
        lemma_candidate_scores_positive(buf@);
    }
    while k < KEY_BYTES
        invariant
            k <= KEY_BYTES,
            scores == candidate_scores(buf@),
            positive_on(scores, 0, KEY_BYTES as int),
            match best {
                Some(b) => {
                    &&& first_max(scores, 0, k as int, b)
                    &&& scores(b).gt(zero_score())
                    &&& max_score@ == scores(b)
                    &&& result@ == decode_utf8(xor_single(buf@, b as u8))
                },
                None => {
                    &&& max_score@ == zero_score()
                    &&& result@ == Seq::<char>::empty()
                    &&& forall|j: int| 0 <= j < k ==> !(#[trigger] scores(j)).gt(zero_score())
                },
            },
        decreases KEY_BYTES - k,
    {
        let decoded = single_xor(buf, k as u8);
        let ghost bytes = decoded@;
        proof {
            lemma_zero_is_least(scores(k as int));
            lemma_text_score_positive(bytes);
            if best is Some {
                lemma_first_max_next(scores, 0, k as int, best->0);
                lemma_zero_is_least(scores(best->0));
            }
        }
        match decode_text(decoded) {
            Ok(text) => {
                proof {
                    decode_utf8_encode_utf8(bytes);
                }
                let score = english_score(text.as_str());
                assert(score@ == scores(k as int));
                if score.exceeds(&max_score) {
                    proof {
                        match best {
                            Some(b) => {
                                lemma_le_lt(zero_score(), scores(b), scores(k as int));
                            },
                            None => {
                                assert forall|j: int| 0 <= j < k implies (#[trigger] scores(
                                    j,
                                )).lt(scores(k as int)) by {
                                    lemma_le_lt(scores(j), zero_score(), scores(k as int));
                                }
                            },
                        }
                        best = Some(k as int);
                    }
                    max_score = score;
                    result = text;
                }
            },
            Err(_) => {},
        }
        k += 1;
    }
    proof {
        match best {
            Some(b) => {
                assert(is_single_key(buf@, b));
                lemma_single_key_unique(buf@, b, choose|k: int| is_single_key(buf@, k));
                assert(!scores(b).le(zero_score()));
                assert(scores(b) == candidate_score(buf@, b));
            },
            None => {
                assert forall|m: int| 0 <= m < KEY_BYTES implies !(#[trigger] candidate_score(
                    buf@,
                    m,
                )).gt(zero_score()) by {
                    assert(scores(m) == candidate_score(buf@, m));
                }
                assert forall|m: int| is_single_key(buf@, m) implies false by {
                    assert(!scores(m).gt(zero_score()));
                }
            },
        }
    }
    result
}

/// Chunk `i` of a ciphertext that is cut into chunks of `size` bytes.
pub open spec fn chunk(ct: Seq<u8>, size: int, i: int) -> Seq<u8> {
    ct.subrange(i * size, (i + 1) * size)
}

/// The Hamming distances between chunk `i` and chunk `i + 1`, summed over the
/// first `pairs` values of `i`.
pub open spec fn distance_sum(ct: Seq<u8>, size: int, pairs: nat) -> nat
    decreases pairs,
{
    if pairs == 0 {
        0
    } else {
        distance_sum(ct, size, (pairs - 1) as nat) + hamming(
            chunk(ct, size, pairs - 1),
            chunk(ct, size, pairs as int),
        )
    }
}

/// The number of pairs of consecutive whole chunks of `size` bytes. Bytes
/// beyond the last whole chunk belong to no pair.
pub open spec fn chunk_pairs(ct: Seq<u8>, size: int) -> int {
    ct.len() / (size as nat) - 1
}

/// The average Hamming distance between consecutive chunks of `size` bytes,
/// divided by `size`: the bits that differ per byte.
pub open spec fn normalized_distance(ct: Seq<u8>, size: int) -> Ratio {
    Ratio {
        num: distance_sum(ct, size, chunk_pairs(ct, size) as nat),
        den: (chunk_pairs(ct, size) * size) as nat,
    }
}

/// The normalized distances of a ciphertext, by key length.
pub open spec fn key_size_distances(ct: Seq<u8>) -> spec_fn(int) -> Ratio {
    |size: int| normalized_distance(ct, size)
}

/// The largest key length that a ciphertext of `len` bytes has a pair of
/// whole chunks for, and `KEY_SIZE_MAX` at most.
pub open spec fn largest_key_size(len: nat) -> int {
    if len / 2 < KEY_SIZE_MAX {
        len as int / 2
    } else {
        KEY_SIZE_MAX as int
    }
}

/// `size` is the key length estimate of a ciphertext: among the lengths from
/// `KEY_SIZE_MIN` to `KEY_SIZE_MAX` that give at least one pair of whole
/// chunks, the smallest of those with the least normalized distance. Where
/// the ciphertext is too short for any pair, it is `KEY_SIZE_MIN`.
pub open spec fn is_key_size(ct: Seq<u8>, size: int) -> bool {
    if ct.len() < 2 * KEY_SIZE_MIN {
        size == KEY_SIZE_MIN
    } else {
        first_min(
            key_size_distances(ct),
            KEY_SIZE_MIN as int,
            largest_key_size(ct.len()) + 1,
            size,
        )
    }
}

/// The key length estimate of a ciphertext.
pub open spec fn key_size_estimate(ct: Seq<u8>) -> int {
    choose|size: int| is_key_size(ct, size)
}

/// A ciphertext has one key length estimate at most.
pub proof fn lemma_key_size_unique(ct: Seq<u8>, size: int, other: int)
    requires
        is_key_size(ct, size),
        is_key_size(ct, other),
    ensures
        size == other,
{
    if ct.len() >= 2 * KEY_SIZE_MIN {
        lemma_first_min_unique(
            key_size_distances(ct),
            KEY_SIZE_MIN as int,
            largest_key_size(ct.len()) + 1,
            size,
            other,
        );
    }
}

/// A ciphertext of at least two chunks of `size` bytes has a whole number of
/// chunks that fits into it, and at least one pair of them.
pub proof fn lemma_chunk_pairs(len: int, size: int)
    requires
        1 <= size,
        2 * size <= len,
    ensures
        len / size >= 2,
        (len / size) * size <= len,
{
    vstd::arithmetic::div_mod::lemma_fundamental_div_mod(len, size);
    vstd::arithmetic::div_mod::lemma_mod_bound(len, size);
    let q = len / size;
    assert(q * size == size * q) by (nonlinear_arith);
    assert(q >= 2) by (nonlinear_arith)
        requires
            len == size * q + len % size,
            0 <= len % size < size,
            2 * size <= len,
            1 <= size,
    ;
}

/// The distances between consecutive chunks of `size` bytes, summed, and the
/// number of bytes that the sum is to be divided by.
fn chunk_distances(ct: &[u8], size: usize) -> (r: (u128, usize))
    requires
        KEY_SIZE_MIN <= size <= KEY_SIZE_MAX,
        2 * size <= ct.len(),
    ensures
        normalized_distance(ct@, size as int) == (Ratio { num: r.0 as nat, den: r.1 as nat }),
        r.1 >= 1,
        r.0 <= 320 * ct.len(),
{
    let chunks: usize = ct.len() / size;
    proof {
        lemma_chunk_pairs(ct.len() as int, size as int);
    }
    let pairs: usize = chunks - 1;
    let mut total: u128 = 0;
    let mut i: usize = 0;
    let mut start: usize = 0;
    while i < pairs
        invariant
            KEY_SIZE_MIN <= size <= KEY_SIZE_MAX,
            pairs + 1 == chunks,
            chunks * size <= ct.len(),
            i <= pairs,
            start == i * size,
            total == distance_sum(ct@, size as int, i as nat),
            total <= 320 * i,
        decreases pairs - i,
    {
        proof {
            assert((i + 2) * size <= chunks * size) by (nonlinear_arith)
                requires
                    i + 2 <= chunks,
                    size >= 0,
            ;
            assert((i + 1) * size == i * size + size && (i + 2) * size == i * size + size + size)
                by (nonlinear_arith);
        }
        let middle: usize = start + size;
        let left = slice_subrange(ct, start, middle);
        let right = slice_subrange(ct, middle, middle + size);
        proof {
            lemma_hamming_bound(left@, right@);
        }
        let distance: u32 = bit_difference(left, right);
        total = total + distance as u128;
        i += 1;
        start = middle;
    }
    proof {
        assert(pairs * size <= chunks * size) by (nonlinear_arith)
            requires
                pairs <= chunks,
                size >= 0,
        ;
        assert(pairs * size >= 1) by (nonlinear_arith)
            requires
                pairs >= 1,
                size >= 1,
        ;
    }
    (total, pairs * size)
}

/// The normalized distance has a positive denominator for every key length
/// that the ciphertext has a pair of whole chunks for.
pub proof fn lemma_key_size_distances_positive(ct: Seq<u8>)
    ensures
        positive_on(
            key_size_distances(ct),
            KEY_SIZE_MIN as int,
            largest_key_size(ct.len()) + 1,
        ),
{
    assert forall|size: int| KEY_SIZE_MIN <= size <= largest_key_size(ct.len()) implies (
    #[trigger] key_size_distances(ct)(size)).den > 0 by {
        lemma_chunk_pairs(ct.len() as int, size);
        let pairs = chunk_pairs(ct, size);
        assert(pairs * size >= 1) by (nonlinear_arith)
            requires
                pairs >= 1,
                size >= 1,
        ;
    }
}

/// Estimates the length of the repeating key that a ciphertext was made with:
/// of the lengths from `KEY_SIZE_MIN` to `KEY_SIZE_MAX` that give at least
/// one pair of whole chunks, the one whose chunks differ in the fewest bits
/// per byte, the smallest of them where several do. A ciphertext too short
/// for any pair gets `KEY_SIZE_MIN`.
pub fn guess_key_size(ciphertext: &[u8]) -> (size: usize)
    ensures
        is_key_size(ciphertext@, size as int),
        size == key_size_estimate(ciphertext@),
        KEY_SIZE_MIN <= size <= KEY_SIZE_MAX,
        ciphertext.len() >= 2 * KEY_SIZE_MIN ==> 2 * size <= ciphertext.len(),
{
    if ciphertext.len() < 2 * KEY_SIZE_MIN {
        proof {
            assert(is_key_size(ciphertext@, KEY_SIZE_MIN as int));
            lemma_key_size_unique(
                ciphertext@,
                KEY_SIZE_MIN as int,
                key_size_estimate(ciphertext@),
            );
        }
        return KEY_SIZE_MIN;
    }
    let largest: usize = if ciphertext.len() / 2 < KEY_SIZE_MAX {
        ciphertext.len() / 2
    } else {
        KEY_SIZE_MAX
    };
    let ghost distances = key_size_distances(ciphertext@);
    proof {
        lemma_key_size_distances_positive(ciphertext@);
    }
    let first = chunk_distances(ciphertext, KEY_SIZE_MIN);
    let mut key_size: usize = KEY_SIZE_MIN;
    let mut least_sum: u128 = first.0;
    let mut least_span: usize = first.1;
    let mut size: usize = KEY_SIZE_MIN + 1;
    while size <= largest
        invariant
            largest == largest_key_size(ciphertext@.len()),
            KEY_SIZE_MIN <= largest <= KEY_SIZE_MAX,
            2 * largest <= ciphertext.len(),
            KEY_SIZE_MIN < size <= largest + 1,
            KEY_SIZE_MIN <= key_size < size,
            distances == key_size_distances(ciphertext@),
            positive_on(distances, KEY_SIZE_MIN as int, largest + 1),
            first_min(distances, KEY_SIZE_MIN as int, size as int, key_size as int),
            distances(key_size as int) == (Ratio { num: least_sum as nat, den: least_span as nat }),
            least_sum <= 320 * ciphertext.len(),
        decreases largest + 1 - size,
    {
        let found = chunk_distances(ciphertext, size);
        proof {
            lemma_first_min_next(distances, KEY_SIZE_MIN as int, size as int, key_size as int);
        }
        if ratio_less(found.0, found.1, least_sum, least_span) {
            key_size = size;
            least_sum = found.0;
            least_span = found.1;
        }
        size += 1;
    }
    proof {
        assert(is_key_size(ciphertext@, key_size as int));
        lemma_key_size_unique(ciphertext@, key_size as int, key_size_estimate(ciphertext@));
    }
    key_size
}

/// Column `i` of a ciphertext under a key of `size` bytes: the bytes at the
/// positions `i`, `i + size`, `i + 2 * size` and so on, in their order.
pub open spec fn column(ct: Seq<u8>, size: int, i: int) -> Seq<u8>
    decreases ct.len(),
{
    if ct.len() == 0 {
        Seq::empty()
    } else {
        let front = column(ct.drop_last(), size, i);
        if (ct.len() - 1) % size == i {
            front.push(ct.last())
        } else {
            front
        }
    }
}

/// The scores of a column XORed with each key byte. The column is scored as
/// it stands, whether or not the bytes are well-formed text.
pub open spec fn column_scores(col: Seq<u8>) -> spec_fn(int) -> Ratio {
    |k: int| text_score(xor_single(col, k as u8))
}

/// Key byte `k` wins the search on a column: no key byte scores higher, and
/// every smaller key byte scores lower.
pub open spec fn is_column_key(col: Seq<u8>, k: int) -> bool {
    first_max(column_scores(col), 0, KEY_BYTES as int, k)
}

/// `key` is the key that the repeating-key breaker recovers: its length is
/// the key length estimate, and each of its bytes wins the search on its
/// column.
pub open spec fn is_repeating_key(ct: Seq<u8>, key: Seq<u8>) -> bool {
    &&& is_key_size(ct, key.len() as int)
    &&& forall|i: int|
        0 <= i < key.len() ==> is_column_key(column(ct, key.len() as int, i), #[trigger] key[i] as int)
}

/// The key that the repeating-key breaker recovers from a ciphertext.
pub open spec fn repeating_key(ct: Seq<u8>) -> Seq<u8> {
    choose|key: Seq<u8>| is_repeating_key(ct, key)
}

/// A ciphertext has one recovered key at most.
pub proof fn lemma_repeating_key_unique(ct: Seq<u8>, key: Seq<u8>, other: Seq<u8>)
    requires
        is_repeating_key(ct, key),
        is_repeating_key(ct, other),
    ensures
        key == other,
{
    lemma_key_size_unique(ct, key.len() as int, other.len() as int);
    assert forall|i: int| 0 <= i < key.len() implies key[i] == other[i] by {
        lemma_first_max_unique(
            column_scores(column(ct, key.len() as int, i)),
            0,
            KEY_BYTES as int,
            key[i] as int,
            other[i] as int,
        );
    }
    assert(key =~= other);
}

/// Gathers one column of a ciphertext.
pub fn extract_column(ciphertext: &[u8], size: usize, i: usize) -> (r: Vec<u8>)
    requires
        i < size,
    ensures
        r@ == column(ciphertext@, size as int, i as int),
{
    let mut out: Vec<u8> = Vec::new();
    let mut at: usize = 0;
    let mut residue: usize = 0;
    while at < ciphertext.len()
        invariant
            i < size,
            at <= ciphertext.len(),
            residue == at % size,
            out@ == column(ciphertext@.take(at as int), size as int, i as int),
        decreases ciphertext.len() - at,
    {
        proof {
            assert(ciphertext@.take(at + 1).drop_last() =~= ciphertext@.take(at as int));
            lemma_next_residue(at as int, size as int);
        }
        if residue == i {
            out.push(ciphertext[at]);
        }
        at += 1;
        residue += 1;
        if residue == size {
            residue = 0;
        }
    }
    assert(ciphertext@.take(at as int) =~= ciphertext@);
    out
}

/// Finds the key byte under which a column reads most like English; of equal
/// scores the smallest key byte wins.
pub fn best_column_key(col: &[u8]) -> (r: u8)
    ensures
        is_column_key(col@, r as int),
{
    let ghost scores = column_scores(col@);
    proof {
        assert forall|k: int| 0 <= k < KEY_BYTES implies (#[trigger] scores(k)).den > 0 by {
            lemma_text_score_positive(xor_single(col@, k as u8));
        }
    }
    let mut key: u8 = 0;
    let mut max_score = score_bytes(single_xor(col, 0).as_slice());
    let mut k: usize = 1;
    while k < KEY_BYTES
        invariant
            1 <= k <= KEY_BYTES,
            scores == column_scores(col@),
            positive_on(scores, 0, KEY_BYTES as int),
            first_max(scores, 0, k as int, key as int),
            max_score@ == scores(key as int),
        decreases KEY_BYTES - k,
    {
        let score = score_bytes(single_xor(col, k as u8).as_slice());
        proof {
            lemma_first_max_next(scores, 0, k as int, key as int);
        }
        if score.exceeds(&max_score) {
            key = k as u8;
            max_score = score;
        }
        k += 1;
    }
    key
}

/// Recovers the repeating key of a ciphertext: the key length is estimated,
/// and each key byte is found by a search on its column.
pub fn recover_repeating_key(ciphertext: &[u8]) -> (key: Vec<u8>)
    ensures
        is_repeating_key(ciphertext@, key@),
        key@ == repeating_key(ciphertext@),
        KEY_SIZE_MIN <= key.len() <= KEY_SIZE_MAX,
{
    let size = guess_key_size(ciphertext);
    let mut key: Vec<u8> = Vec::new();
    let mut i: usize = 0;
    while i < size
        invariant
            i <= size,
            key.len() == i,
            forall|j: int|
                0 <= j < i ==> is_column_key(
                    column(ciphertext@, size as int, j),
                    #[trigger] key@[j] as int,
                ),
        decreases size - i,
    {
        let col = extract_column(ciphertext, size, i);
        let byte = best_column_key(col.as_slice());
        key.push(byte);
        i += 1;
    }
    proof {
        assert(is_repeating_key(ciphertext@, key@));
        lemma_repeating_key_unique(ciphertext@, key@, repeating_key(ciphertext@));
    }
    key
}

/// Breaks a repeating-key XOR: recovers the key and gives the ciphertext
/// XORed with it.
pub fn break_repeating_xor(ciphertext: &[u8]) -> (r: Vec<u8>)
    ensures
        is_repeating_key(ciphertext@, repeating_key(ciphertext@)),
        r@ == xor_cycled(ciphertext@, repeating_key(ciphertext@)),
{
    let key = recover_repeating_key(ciphertext);
    xor_repeating(ciphertext, key.as_slice())
}

} // verus!
