use vstd::prelude::*;
use vstd::slice::slice_subrange;
use vstd::string::StringSliceAdditionalSpecFns;
use vstd::utf8::encode_utf8;
use crate::cipher::BLOCK_SIZE;
use crate::crypto::{
    break_single_xor, lemma_text_score_positive, lemma_zero_is_least, single_xor_plaintext,
    zero_score,
};
use crate::english::{english_score, text_score, Score};
use crate::ratio::{
    first_max, lemma_first_max_next, lemma_first_max_unique, lemma_le_lt, positive_on, Ratio,
};

verus! {

/// The number of pieces that a buffer is cut into: pieces of `BLOCK_SIZE`
/// bytes, and a shorter last one where bytes are left over.
pub open spec fn piece_count(data: Seq<u8>) -> int {
    (data.len() + BLOCK_SIZE - 1) / (BLOCK_SIZE as int)
}

/// Piece `i` of a buffer.
pub open spec fn piece(data: Seq<u8>, i: int) -> Seq<u8> {
    data.subrange(
        i * BLOCK_SIZE,
        if (i + 1) * BLOCK_SIZE <= data.len() {
            (i + 1) * BLOCK_SIZE
        } else {
            data.len() as int
        },
    )
}

/// How many of the first `n` pieces of a buffer are equal to piece `i`.
pub open spec fn repeats_below(data: Seq<u8>, i: int, n: nat) -> nat
    decreases n,
{
    if n == 0 {
        0
    } else {
        repeats_below(data, i, (n - 1) as nat) + if piece(data, n - 1) == piece(data, i) {
            1nat
        } else {
            0nat
        }
    }
}

/// How many pieces of a buffer are equal to piece `i`, itself among them.
pub open spec fn repeats(data: Seq<u8>, i: int) -> nat {
    repeats_below(data, i, piece_count(data) as nat)
}

/// The largest number of equal pieces among the first `n` pieces of a buffer.
pub open spec fn max_repeats_below(data: Seq<u8>, n: nat) -> nat
    decreases n,
{
    if n == 0 {
        0
    } else {
        let before = max_repeats_below(data, (n - 1) as nat);
        if repeats(data, n - 1) > before {
            repeats(data, n - 1)
        } else {
            before
        }
    }
}

/// How often the most frequent piece of a buffer occurs in it; zero for the
/// empty buffer.
pub open spec fn max_repeats(data: Seq<u8>) -> nat {
    max_repeats_below(data, piece_count(data) as nat)
}

/// No piece occurs more often than the most frequent one.
pub proof fn lemma_max_repeats_bounds(data: Seq<u8>, n: nat, i: int)
    requires
        0 <= i < n,
    ensures
        repeats(data, i) <= max_repeats_below(data, n),
    decreases n,
{
    if i < n - 1 {
        lemma_max_repeats_bounds(data, (n - 1) as nat, i);
    }
}

/// Whether two buffers hold the same bytes.
fn same_bytes(a: &[u8], b: &[u8]) -> (r: bool)
    ensures
        r == (a@ == b@),
{
    if a.len() != b.len() {
        return false;
    }
    let mut i: usize = 0;
    while i < a.len()
        invariant
            a.len() == b.len(),
            i <= a.len(),
            forall|j: int| 0 <= j < i ==> a@[j] == b@[j],
        decreases a.len() - i,
    {
        if a[i] != b[i] {
            return false;
        }
        i += 1;
    }
    assert(a@ =~= b@);
    true
}

/// Piece `i` of a buffer.
fn piece_of(data: &[u8], i: usize) -> (r: &[u8])
    requires
        i < piece_count(data@),
    ensures
        r@ == piece(data@, i as int),
{
    let len: usize = data.len();
    let start: usize = i * BLOCK_SIZE;
    let end: usize = if len - start >= BLOCK_SIZE {
        start + BLOCK_SIZE
    } else {
        len
    };
    slice_subrange(data, start, end)
}

/// Counts how often the most frequent piece of a buffer occurs in it. Equal
/// pieces in a ciphertext are the mark of ECB mode.
pub fn max_block_repeats(data: &[u8]) -> (r: usize)
    ensures
        r == max_repeats(data@),
        r <= piece_count(data@),
{
    let pieces: usize = data.len() / BLOCK_SIZE + if data.len() % BLOCK_SIZE != 0 {
        1
    } else {
        0
    };
    let mut most: usize = 0;
    let mut i: usize = 0;
    while i < pieces
        invariant
            pieces == piece_count(data@),
            i <= pieces,
            most == max_repeats_below(data@, i as nat),
            most <= pieces,
        decreases pieces - i,
    {
        let this = piece_of(data, i);
        let mut count: usize = 0;
        let mut j: usize = 0;
        while j < pieces
            invariant
                pieces == piece_count(data@),
                i < pieces,
                j <= pieces,
                this@ == piece(data@, i as int),
                count == repeats_below(data@, i as int, j as nat),
                count <= j,
            decreases pieces - j,
        {
            if same_bytes(piece_of(data, j), this) {
                count += 1;
            }
            j += 1;
        }
        if count > most {
            most = count;
        }
        i += 1;
    }
    most
}

/// Finds, among several buffers, the first of those in which a piece
/// repeats most often; none where all are empty.
pub fn most_repeating(candidates: &[Vec<u8>]) -> (r: Option<usize>)
    ensures
        match r {
            Some(k) => {
                &&& k < candidates@.len()
                &&& max_repeats(candidates@[k as int]@) > 0
                &&& forall|j: int|
                    0 <= j < candidates@.len() ==> max_repeats(#[trigger] candidates@[j]@)
                        <= max_repeats(candidates@[k as int]@)
                &&& forall|j: int|
                    0 <= j < k ==> max_repeats(#[trigger] candidates@[j]@) < max_repeats(
                        candidates@[k as int]@,
                    )
            },
            None => forall|j: int|
                0 <= j < candidates@.len() ==> max_repeats(#[trigger] candidates@[j]@) == 0,
        },
{
    let mut found: Option<usize> = None;
    let mut most: usize = 0;
    let mut i: usize = 0;
    while i < candidates.len()
        invariant
            i <= candidates@.len(),
            match found {
                Some(k) => {
                    &&& k < i
                    &&& most == max_repeats(candidates@[k as int]@)
                    &&& most > 0
                    &&& forall|j: int|
                        0 <= j < i ==> max_repeats(#[trigger] candidates@[j]@) <= most
                    &&& forall|j: int|
                        0 <= j < k ==> max_repeats(#[trigger] candidates@[j]@) < most
                },
                None => most == 0 && forall|j: int|
                    0 <= j < i ==> max_repeats(#[trigger] candidates@[j]@) == 0,
            },
        decreases candidates@.len() - i,
    {
        let repeats = max_block_repeats(candidates[i].as_slice());
        if repeats > most {
            most = repeats;
            found = Some(i);
        }
        i += 1;
    }
    found
}

/// The scores of the texts that the single-byte breaker reads out of each of
/// several ciphertexts.
pub open spec fn line_scores(lines: Seq<Vec<u8>>) -> spec_fn(int) -> Ratio {
    |i: int| text_score(encode_utf8(single_xor_plaintext(lines[i]@)))
}

/// Ciphertext `k` wins the search among several: what the single-byte
/// breaker reads out of it scores above zero, no other scores higher, and
/// every earlier one scores lower.
pub open spec fn is_detected_line(lines: Seq<Vec<u8>>, k: int) -> bool {
    &&& first_max(line_scores(lines), 0, lines.len() as int, k)
    &&& line_scores(lines)(k).gt(zero_score())
}

/// What the search among several ciphertexts gives: the text read out of the
/// winning ciphertext, and nothing where none wins.
pub open spec fn detected_plaintext(lines: Seq<Vec<u8>>) -> Seq<char> {
    if exists|k: int| is_detected_line(lines, k) {
        single_xor_plaintext(lines[choose|k: int| is_detected_line(lines, k)]@)
    } else {
        Seq::empty()
    }
}

/// Finds, among several ciphertexts, the one that a single-byte XOR hides
/// English in: each is broken by itself, and the text that scores highest is
/// given, the first of them where several score alike.
pub fn detect_single_xor(lines: &[Vec<u8>]) -> (r: String)
    ensures
        r@ == detected_plaintext(lines@),
{
    let ghost scores = line_scores(lines@);
    let ghost mut best: Option<int> = None;
    let mut max_score = Score::zero();
    let mut result = String::new();
    let mut i: usize = 0;
    proof {
        assert forall|j: int| 0 <= j < lines@.len() implies (#[trigger] scores(j)).den > 0 by {
            lemma_text_score_positive(encode_utf8(single_xor_plaintext(lines@[j]@)));
        }
    }
    while i < lines.len()
        invariant
            i <= lines@.len(),
            scores == line_scores(lines@),
            positive_on(scores, 0, lines@.len() as int),
            match best {
                Some(b) => {
                    &&& first_max(scores, 0, i as int, b)
                    &&& scores(b).gt(zero_score())
                    &&& max_score@ == scores(b)
                    &&& result@ == single_xor_plaintext(lines@[b]@)
                },
                None => {
                    &&& max_score@ == zero_score()
                    &&& result@ == Seq::<char>::empty()
                    &&& forall|j: int| 0 <= j < i ==> !(#[trigger] scores(j)).gt(zero_score())
                },
            },
        decreases lines@.len() - i,
    {
        let plaintext = break_single_xor(lines[i].as_slice());
        let score = english_score(plaintext.as_str());
        proof {
            assert(score@ == scores(i as int));
            lemma_zero_is_least(scores(i as int));
            lemma_text_score_positive(Seq::<u8>::empty());
            if best is Some {
                lemma_first_max_next(scores, 0, i as int, best->0);
            }
        }
        if score.exceeds(&max_score) {
            proof {
                match best {
                    Some(b) => {
                        lemma_le_lt(zero_score(), scores(b), scores(i as int));
                    },
                    None => {
                        assert forall|j: int| 0 <= j < i implies (#[trigger] scores(j)).lt(
                            scores(i as int),
                        ) by {
                            lemma_le_lt(scores(j), zero_score(), scores(i as int));
                        }
                    },
                }
                best = Some(i as int);
            }
            max_score = score;
            result = plaintext;
        }
        i += 1;
    }
    proof {
        match best {
            Some(b) => {
                assert(is_detected_line(lines@, b));
                lemma_first_max_unique(
                    scores,
                    0,
                    lines@.len() as int,
                    b,
                    choose|k: int| is_detected_line(lines@, k),
                );
            },
            None => {
                assert forall|m: int| is_detected_line(lines@, m) implies false by {
                    assert(!scores(m).gt(zero_score()));
                }
            },
        }
    }
    result
}

} // verus!
