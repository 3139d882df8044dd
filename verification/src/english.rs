use vstd::prelude::*;
use vstd::string::StringSliceAdditionalSpecFns;
use crate::english::letters::{lemma_weighted_count_of_text, string_score};
use crate::ratio::{ratio_less, Ratio};

pub mod letters;

verus! {

/// The number of entries of the frequency table: the letters `a` to `z` and
/// the space character.
pub const TABLE_LEN: usize = 27;

/// Frequencies are held in ten-thousandths: 13.0000 is held as 130000.
pub const SCALE: u128 = 10_000;

/// The largest frequency of the table, that of the space character.
pub const FREQUENCY_MAX: u128 = 130_000;

/// An upper-case ASCII letter becomes its lower-case form; every other byte
/// stays as it is.
pub open spec fn fold_case(b: u8) -> u8 {
    if 'A' as u8 <= b && b <= 'Z' as u8 {
        (b + 32) as u8
    } else {
        b
    }
}

/// The letter of entry `j` of the frequency table.
pub open spec fn table_letter(j: int) -> u8 {
    if j == 0 {
        ' ' as u8
    } else if j == 1 {
        'e' as u8
    } else if j == 2 {
        'a' as u8
    } else if j == 3 {
        'r' as u8
    } else if j == 4 {
        'i' as u8
    } else if j == 5 {
        'o' as u8
    } else if j == 6 {
        't' as u8
    } else if j == 7 {
        'n' as u8
    } else if j == 8 {
        's' as u8
    } else if j == 9 {
        'l' as u8
    } else if j == 10 {
        'c' as u8
    } else if j == 11 {
        'u' as u8
    } else if j == 12 {
        'd' as u8
    } else if j == 13 {
        'p' as u8
    } else if j == 14 {
        'm' as u8
    } else if j == 15 {
        'h' as u8
    } else if j == 16 {
        'g' as u8
    } else if j == 17 {
        'b' as u8
    } else if j == 18 {
        'f' as u8
    } else if j == 19 {
        'y' as u8
    } else if j == 20 {
        'w' as u8
    } else if j == 21 {
        'k' as u8
    } else if j == 22 {
        'v' as u8
    } else if j == 23 {
        'x' as u8
    } else if j == 24 {
        'z' as u8
    } else if j == 25 {
        'j' as u8
    } else if j == 26 {
        'q' as u8
    } else {
        0
    }
}

/// The expected relative frequency of entry `j` of the frequency table, in
/// ten-thousandths.
pub open spec fn table_frequency(j: int) -> nat {
    if j == 0 {
        130000
    } else if j == 1 {
        111607
    } else if j == 2 {
        84966
    } else if j == 3 {
        75809
    } else if j == 4 {
        75448
    } else if j == 5 {
        71635
    } else if j == 6 {
        69509
    } else if j == 7 {
        66544
    } else if j == 8 {
        57351
    } else if j == 9 {
        54893
    } else if j == 10 {
        45388
    } else if j == 11 {
        36308
    } else if j == 12 {
        33844
    } else if j == 13 {
        31671
    } else if j == 14 {
        30129
    } else if j == 15 {
        30034
    } else if j == 16 {
        24705
    } else if j == 17 {
        20720
    } else if j == 18 {
        18121
    } else if j == 19 {
        17779
    } else if j == 20 {
        12899
    } else if j == 21 {
        11016
    } else if j == 22 {
        10074
    } else if j == 23 {
        2902
    } else if j == 24 {
        2722
    } else if j == 25 {
        1965
    } else if j == 26 {
        1962
    } else {
        0
    }
}

/// How often a letter of the table occurs in a text, upper and lower case
/// counted alike.
pub open spec fn occurrences(text: Seq<u8>, letter: u8) -> nat
    decreases text.len(),
{
    if text.len() == 0 {
        0
    } else {
        occurrences(text.drop_last(), letter) + if fold_case(text.last()) == letter {
            1nat
        } else {
            0nat
        }
    }
}

/// The sum, over the first `entries` entries of the table, of the count of
/// the entry's letter in the text times the entry's frequency.
pub open spec fn weighted_count(text: Seq<u8>, entries: nat) -> nat
    decreases entries,
{
    if entries == 0 {
        0
    } else {
        weighted_count(text, (entries - 1) as nat) + occurrences(
            text,
            table_letter(entries - 1),
        ) * table_frequency(entries - 1)
    }
}

/// The length by which a text's weighted count is divided: its length in
/// bytes, and one for the empty text, whose score is zero.
pub open spec fn score_span(text: Seq<u8>) -> nat {
    if text.len() == 0 {
        1
    } else {
        text.len()
    }
}

/// The plausibility score of a text, given as its bytes: for every entry of
/// the table the count of its letter times its frequency, summed, and divided
/// by the length of the text. Bytes that are no letter of the table add
/// nothing to the sum and still count towards the length.
pub open spec fn text_score(text: Seq<u8>) -> Ratio {
    Ratio { num: weighted_count(text, TABLE_LEN as nat), den: (SCALE * score_span(text)) as nat }
}

/// What one byte adds to the weighted count over the first `entries` entries
/// of the table.
pub open spec fn letter_gain(b: u8, entries: nat) -> nat
    decreases entries,
{
    if entries == 0 {
        0
    } else {
        letter_gain(b, (entries - 1) as nat) + if fold_case(b) == table_letter(entries - 1) {
            table_frequency(entries - 1)
        } else {
            0
        }
    }
}

/// Appending a byte raises the count of one letter by one, if the byte is
/// that letter, and of no other.
pub proof fn lemma_occurrences_push(text: Seq<u8>, b: u8, letter: u8)
    ensures
        occurrences(text.push(b), letter) == occurrences(text, letter) + if fold_case(b)
            == letter {
            1nat
        } else {
            0nat
        },
{
    assert(text.push(b).drop_last() =~= text);
}

/// Appending a byte raises the weighted count by that byte's gain.
pub proof fn lemma_weighted_count_push(text: Seq<u8>, b: u8, entries: nat)
    ensures
        weighted_count(text.push(b), entries) == weighted_count(text, entries) + letter_gain(
            b,
            entries,
        ),
    decreases entries,
{
    if entries > 0 {
        lemma_weighted_count_push(text, b, (entries - 1) as nat);
        let letter = table_letter(entries - 1);
        let f = table_frequency(entries - 1);
        lemma_occurrences_push(text, b, letter);
        let n = occurrences(text, letter);
        assert((n + 1) * f == n * f + f) by (nonlinear_arith);
    }
}

/// The letters of the table differ from one another, so one byte gains at
/// most the largest frequency.
pub proof fn lemma_letter_gain_bound(b: u8)
    ensures
        letter_gain(b, TABLE_LEN as nat) <= FREQUENCY_MAX,
{
    reveal_with_fuel(letter_gain, 28);
}

/// The empty text has the weighted count zero.
pub proof fn lemma_weighted_count_empty(entries: nat)
    ensures
        weighted_count(Seq::<u8>::empty(), entries) == 0,
    decreases entries,
{
    if entries > 0 {
        lemma_weighted_count_empty((entries - 1) as nat);
        let f = table_frequency(entries - 1);
        assert(0 * f == 0) by (nonlinear_arith);
    }
}

/// The weighted count over fewer entries of the table is no larger.
pub proof fn lemma_weighted_count_grows(text: Seq<u8>, fewer: nat, entries: nat)
    requires
        fewer <= entries,
    ensures
        weighted_count(text, fewer) <= weighted_count(text, entries),
    decreases entries,
{
    if fewer < entries {
        lemma_weighted_count_grows(text, fewer, (entries - 1) as nat);
    }
}

/// No text scores above the largest frequency of the table.
pub proof fn lemma_weighted_count_bound(text: Seq<u8>)
    ensures
        weighted_count(text, TABLE_LEN as nat) <= FREQUENCY_MAX * text.len(),
    decreases text.len(),
{
    if text.len() == 0 {
        assert(text =~= Seq::<u8>::empty());
        lemma_weighted_count_empty(TABLE_LEN as nat);
    } else {
        let front = text.drop_last();
        assert(front.push(text.last()) =~= text);
        lemma_weighted_count_bound(front);
        lemma_weighted_count_push(front, text.last(), TABLE_LEN as nat);
        lemma_letter_gain_bound(text.last());
        assert(front.len() + 1 == text.len());
        assert(FREQUENCY_MAX * front.len() + FREQUENCY_MAX == FREQUENCY_MAX * text.len())
            by (nonlinear_arith)
            requires
                front.len() + 1 == text.len(),
        ;
    }
}

/// An English plausibility score: the exact rational number of its view.
/// Higher is more like English.
#[derive(Clone, Copy, Debug)]
pub struct Score {
    weighted: u128,
    length: usize,
}

impl View for Score {
    type V = Ratio;

    closed spec fn view(&self) -> Ratio {
        Ratio { num: self.weighted as nat, den: (SCALE * self.length) as nat }
    }
}

impl Score {
    #[verifier::type_invariant]
    spec fn well_formed(&self) -> bool {
        &&& self.length >= 1
        &&& self.weighted <= FREQUENCY_MAX * self.length
    }

    /// The score zero, which the empty text has.
    pub fn zero() -> (r: Score)
        ensures
            r@ == (Ratio { num: 0, den: SCALE as nat }),
            r@ == text_score(Seq::<u8>::empty()),
    {
        proof {
            lemma_weighted_count_empty(TABLE_LEN as nat);
        }
        Score { weighted: 0, length: 1 }
    }

    /// Whether this score is strictly higher than the other.
    pub fn exceeds(&self, other: &Score) -> (r: bool)
        ensures
            r == self@.gt(other@),
    {
        proof {
            use_type_invariant(self);
            use_type_invariant(other);
            let w1 = self.weighted as int;
            let l1 = self.length as int;
            let w2 = other.weighted as int;
            let l2 = other.length as int;
            assert((w2 * (10000 * l1) < w1 * (10000 * l2)) == (w2 * l1 < w1 * l2))
                by (nonlinear_arith);
        }
        ratio_less(other.weighted, other.length, self.weighted, self.length)
    }

    /// The numerator of the score: the weighted count of the letters.
    pub fn weighted(&self) -> (r: u128)
        ensures
            r == self@.num,
    {
        self.weighted
    }

    /// The length that the weighted count is divided by; the score is
    /// `weighted / (SCALE * length)`.
    pub fn length(&self) -> (r: usize)
        ensures
            SCALE * r == self@.den,
            r >= 1,
    {
        proof {
            use_type_invariant(self);
        }
        self.length
    }
}

/// The letter of entry `j` of the frequency table.
fn letter_at(j: usize) -> (r: u8)
    ensures
        r == table_letter(j as int),
{
    match j {
        0 => ' ' as u8,
        1 => 'e' as u8,
        2 => 'a' as u8,
        3 => 'r' as u8,
        4 => 'i' as u8,
        5 => 'o' as u8,
        6 => 't' as u8,
        7 => 'n' as u8,
        8 => 's' as u8,
        9 => 'l' as u8,
        10 => 'c' as u8,
        11 => 'u' as u8,
        12 => 'd' as u8,
        13 => 'p' as u8,
        14 => 'm' as u8,
        15 => 'h' as u8,
        16 => 'g' as u8,
        17 => 'b' as u8,
        18 => 'f' as u8,
        19 => 'y' as u8,
        20 => 'w' as u8,
        21 => 'k' as u8,
        22 => 'v' as u8,
        23 => 'x' as u8,
        24 => 'z' as u8,
        25 => 'j' as u8,
        26 => 'q' as u8,
        _ => 0,
    }
}

/// The frequency of entry `j` of the frequency table, in ten-thousandths.
fn frequency_at(j: usize) -> (r: u128)
    ensures
        r == table_frequency(j as int),
        r <= FREQUENCY_MAX,
{
    match j {
        0 => 130000,
        1 => 111607,
        2 => 84966,
        3 => 75809,
        4 => 75448,
        5 => 71635,
        6 => 69509,
        7 => 66544,
        8 => 57351,
        9 => 54893,
        10 => 45388,
        11 => 36308,
        12 => 33844,
        13 => 31671,
        14 => 30129,
        15 => 30034,
        16 => 24705,
        17 => 20720,
        18 => 18121,
        19 => 17779,
        20 => 12899,
        21 => 11016,
        22 => 10074,
        23 => 2902,
        24 => 2722,
        25 => 1965,
        26 => 1962,
        _ => 0,
    }
}

/// The entry of the table that a byte counts for, if any.
fn table_index(b: u8) -> (r: Option<usize>)
    ensures
        match r {
            Some(j) => j < TABLE_LEN && table_letter(j as int) == fold_case(b),
            None => forall|j: int| 0 <= j < TABLE_LEN ==> table_letter(j) != fold_case(b),
        },
{
    let folded: u8 = if 'A' as u8 <= b && b <= 'Z' as u8 {
        b + 32
    } else {
        b
    };
    let mut j: usize = 0;
    while j < TABLE_LEN
        invariant
            j <= TABLE_LEN,
            folded == fold_case(b),
            forall|k: int| 0 <= k < j ==> table_letter(k) != folded,
        decreases TABLE_LEN - j,
    {
        if letter_at(j) == folded {
            return Some(j);
        }
        j += 1;
    }
    None
}

/// Scores a text given as its bytes. The bytes need not be well-formed text:
/// each is counted for the letter that it is, if it is one.
pub fn score_bytes(text: &[u8]) -> (r: Score)
    ensures
        r@ == text_score(text@),
{
    if text.len() == 0 {
        assert(text@ =~= Seq::<u8>::empty());
        return Score::zero();
    }
    let mut counts: Vec<usize> = Vec::new();
    let mut j: usize = 0;
    while j < TABLE_LEN
        invariant
            j <= TABLE_LEN,
            counts.len() == j,
            forall|k: int| 0 <= k < j ==> counts[k] == 0,
        decreases TABLE_LEN - j,
    {
        counts.push(0);
        j += 1;
    }
    let mut i: usize = 0;
    while i < text.len()
        invariant
            i <= text.len(),
            counts.len() == TABLE_LEN,
            forall|k: int|
                0 <= k < TABLE_LEN ==> #[trigger] counts[k] == occurrences(
                    text@.take(i as int),
                    table_letter(k),
                ),
            forall|k: int| 0 <= k < TABLE_LEN ==> #[trigger] counts[k] <= i,
        decreases text.len() - i,
    {
        let found = table_index(text[i]);
        proof {
            assert(text@.take(i as int).push(text@[i as int]) =~= text@.take(i + 1));
            assert forall|k: int| 0 <= k < TABLE_LEN implies occurrences(
                text@.take(i + 1),
                table_letter(k),
            ) == occurrences(text@.take(i as int), table_letter(k)) + if fold_case(text@[i as int])
                == table_letter(k) {
                1nat
            } else {
                0nat
            } by {
                lemma_occurrences_push(text@.take(i as int), text@[i as int], table_letter(k));
            }
            lemma_table_letters_differ();
        }
        match found {
            Some(at) => {
                let raised: usize = counts[at] + 1;
                counts.set(at, raised);
            },
            None => {},
        }
        i += 1;
    }
    assert(text@.take(i as int) =~= text@);
    let mut weighted: u128 = 0;
    let mut j: usize = 0;
    while j < TABLE_LEN
        invariant
            j <= TABLE_LEN,
            counts.len() == TABLE_LEN,
            forall|k: int|
                0 <= k < TABLE_LEN ==> #[trigger] counts[k] == occurrences(text@, table_letter(k)),
            weighted == weighted_count(text@, j as nat),
            text@.len() <= usize::MAX,
        decreases TABLE_LEN - j,
    {
        let count: u128 = counts[j] as u128;
        let frequency: u128 = frequency_at(j);
        proof {
            lemma_weighted_count_grows(text@, (j + 1) as nat, TABLE_LEN as nat);
            lemma_weighted_count_bound(text@);
            assert(FREQUENCY_MAX * text@.len() <= 130_000 * 0xffff_ffff_ffff_ffff)
                by (nonlinear_arith)
                requires
                    text@.len() <= 0xffff_ffff_ffff_ffff,
                    FREQUENCY_MAX == 130_000,
            ;
        }
        weighted = weighted + count * frequency;
        j += 1;
    }
    proof {
        lemma_weighted_count_bound(text@);
    }
    Score { weighted, length: text.len() }
}

/// The letters of the table differ from one another.
pub proof fn lemma_table_letters_differ()
    ensures
        forall|j: int, k: int|
            0 <= j < TABLE_LEN && 0 <= k < TABLE_LEN && j != k ==> table_letter(j) != table_letter(
                k,
            ),
{
}

/// Scores a text for how much it looks like English: for every letter of
/// the table its count in the text times its frequency, summed, and divided
/// by the length of the text in bytes. The empty text scores zero.
pub fn english_score(text: &str) -> (r: Score)
    ensures
        r@ == string_score(text@),
        r@ == text_score(text.spec_bytes()),
{
    proof {
        lemma_weighted_count_of_text(text@, TABLE_LEN as nat);
    }
    score_bytes(text.as_bytes())
}

/// No text scores above thirteen, the frequency of the space character.
pub proof fn lemma_score_bound(text: Seq<u8>)
    ensures
        !text_score(text).gt(Ratio { num: 13, den: 1 }),
{
    lemma_weighted_count_bound(text);
    let weight = weighted_count(text, TABLE_LEN as nat) as int;
    let len = text.len() as int;
    let span = score_span(text) as int;
    assert(130000 * len <= 13 * (10000 * span)) by (nonlinear_arith)
        requires
            len <= span,
    ;
}

/// Whether a text scores above seventy.
pub fn is_english_text(text: &str) -> (r: bool)
    ensures
        r == string_score(text@).gt(Ratio { num: 70, den: 1 }),
{
    let score = english_score(text);
    proof {
        use_type_invariant(&score);
    }
    let bar: u128 = 70 * SCALE * (score.length as u128);
    score.weighted > bar
}

} // verus!
