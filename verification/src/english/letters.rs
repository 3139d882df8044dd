use vstd::prelude::*;
use vstd::utf8::{char_is_scalar, encode_scalar, encode_utf8};
use crate::english::{
    fold_case, occurrences, score_span, table_frequency, table_letter, weighted_count, SCALE,
    TABLE_LEN,
};
use crate::ratio::Ratio;

verus! {

/// An upper-case ASCII letter becomes its lower-case form; every other
/// character stays as it is.
pub open spec fn fold_char(c: char) -> char {
    if 'A' <= c && c <= 'Z' {
        (c as u8 + 32) as char
    } else {
        c
    }
}

/// How often a letter occurs among the characters of a text, upper and lower
/// case counted alike.
pub open spec fn letter_count(chars: Seq<char>, letter: char) -> nat
    decreases chars.len(),
{
    if chars.len() == 0 {
        0
    } else {
        letter_count(chars.drop_first(), letter) + if fold_char(chars[0]) == letter {
            1nat
        } else {
            0nat
        }
    }
}

/// The sum, over the first `entries` entries of the table, of the count of
/// the entry's letter among the characters times the entry's frequency.
pub open spec fn char_weighted_count(chars: Seq<char>, entries: nat) -> nat
    decreases entries,
{
    if entries == 0 {
        0
    } else {
        char_weighted_count(chars, (entries - 1) as nat) + letter_count(
            chars,
            table_letter(entries - 1) as char,
        ) * table_frequency(entries - 1)
    }
}

/// The plausibility score of a text, given as its characters: for every
/// entry of the table the count of its letter among the characters times its
/// frequency, summed, and divided by the length of the text in bytes.
pub open spec fn string_score(chars: Seq<char>) -> Ratio {
    Ratio {
        num: char_weighted_count(chars, TABLE_LEN as nat),
        den: (SCALE * score_span(encode_utf8(chars))) as nat,
    }
}

/// The count of a letter in two buffers in a row is the sum of its counts in
/// each.
pub proof fn lemma_occurrences_concat(a: Seq<u8>, b: Seq<u8>, letter: u8)
    ensures
        occurrences(a + b, letter) == occurrences(a, letter) + occurrences(b, letter),
    decreases b.len(),
{
    if b.len() == 0 {
        assert(a + b =~= a);
    } else {
        lemma_occurrences_concat(a, b.drop_last(), letter);
        assert((a + b).drop_last() =~= a + b.drop_last());
    }
}

/// Bytes with the high bit set are no letter of the table.
pub proof fn lemma_no_letter_in_high_bytes(bytes: Seq<u8>, letter: u8)
    requires
        letter < 128,
        forall|i: int| 0 <= i < bytes.len() ==> bytes[i] >= 128,
    ensures
        occurrences(bytes, letter) == 0,
    decreases bytes.len(),
{
    if bytes.len() > 0 {
        lemma_no_letter_in_high_bytes(bytes.drop_last(), letter);
    }
}

/// The bytes that encode one character hold a letter of the table once where
/// the character is that letter, and not at all where it is not.
pub proof fn lemma_scalar_occurrences(c: char, letter: u8)
    requires
        letter < 128,
    ensures
        occurrences(encode_scalar(c as u32), letter) == if fold_char(c) == letter as char {
            1nat
        } else {
            0nat
        },
{
    let scalar = c as u32;
    let bytes = encode_scalar(scalar);
    char_is_scalar(c);
    if scalar <= 0x7f {
        let byte = (scalar & 0x7f) as u8;
        assert(byte == scalar) by (bit_vector)
            requires
                scalar <= 0x7f,
                byte == (scalar & 0x7f) as u8,
        ;
        assert(bytes =~= seq![byte]);
        assert(bytes.drop_last() =~= Seq::<u8>::empty());
        assert(bytes.last() == byte);
        assert(byte == c as u8);
        assert(occurrences(bytes.drop_last(), letter) == 0);
        assert((fold_case(byte) == letter) == (fold_char(c) == letter as char));
    } else {
        let b1 = 0xC0u8 | (((scalar >> 6) & 0x1F) as u8);
        let b2 = 0xE0u8 | (((scalar >> 12) & 0x0F) as u8);
        let b3 = 0xF0u8 | (((scalar >> 18) & 0x7) as u8);
        let c1 = 0x80u8 | ((scalar & 0x3F) as u8);
        let c2 = 0x80u8 | (((scalar >> 6) & 0x3F) as u8);
        let c3 = 0x80u8 | (((scalar >> 12) & 0x3F) as u8);
        assert(b1 >= 128 && b2 >= 128 && b3 >= 128 && c1 >= 128 && c2 >= 128 && c3 >= 128)
            by (bit_vector)
            requires
                b1 == 0xC0u8 | (((scalar >> 6) & 0x1F) as u8),
                b2 == 0xE0u8 | (((scalar >> 12) & 0x0F) as u8),
                b3 == 0xF0u8 | (((scalar >> 18) & 0x7) as u8),
                c1 == 0x80u8 | ((scalar & 0x3F) as u8),
                c2 == 0x80u8 | (((scalar >> 6) & 0x3F) as u8),
                c3 == 0x80u8 | (((scalar >> 12) & 0x3F) as u8),
        ;
        if scalar <= 0x7ff {
            assert(bytes =~= seq![b1, c1]);
        } else if scalar <= 0xffff {
            assert(bytes =~= seq![b2, c2, c1]);
        } else {
            assert(bytes =~= seq![b3, c3, c2, c1]);
        }
        lemma_no_letter_in_high_bytes(bytes, letter);
        assert(fold_char(c) == c);
        assert(c as u32 >= 128);
    }
}

/// A letter of the table occurs among the bytes of a text as often as among
/// its characters.
pub proof fn lemma_letters_of_text(chars: Seq<char>, letter: u8)
    requires
        letter < 128,
    ensures
        occurrences(encode_utf8(chars), letter) == letter_count(chars, letter as char),
    decreases chars.len(),
{
    if chars.len() > 0 {
        lemma_letters_of_text(chars.drop_first(), letter);
        lemma_scalar_occurrences(chars[0], letter);
        lemma_occurrences_concat(
            encode_scalar(chars[0] as u32),
            encode_utf8(chars.drop_first()),
            letter,
        );
    }
}

/// The weighted count of a text is the same over its bytes and over its
/// characters.
pub proof fn lemma_weighted_count_of_text(chars: Seq<char>, entries: nat)
    requires
        entries <= TABLE_LEN,
    ensures
        weighted_count(encode_utf8(chars), entries) == char_weighted_count(chars, entries),
    decreases entries,
{
    if entries > 0 {
        lemma_weighted_count_of_text(chars, (entries - 1) as nat);
        lemma_letters_of_text(chars, table_letter(entries - 1));
    }
}

} // verus!
