use crypto_lib::english::{english_score, is_english_text, score_bytes, Score, SCALE};
use crypto_lib::error::CryptoError;
use crypto_lib::text::decode_text;

fn value(score: &Score) -> f64 {
    score.weighted() as f64 / (SCALE as f64 * score.length() as f64)
}

#[test]
fn test_english_score_higher_than_japanese() {
    let text = "This is a simple English sentence.";
    let score_en = english_score(text);
    let score_ja = english_score("これは日本語の文章です。");
    assert!(score_en.exceeds(&score_ja));
    assert!(value(&score_en) > value(&score_ja));
}

#[test]
fn test_english_score_higher_than_mixed_charts() {
    let text = "This is a simple English sentence.";
    let score_en = english_score(text);
    let mixed_score =
        english_score("これは日本語の文章です。This is a simple English sentence.");
    assert!(score_en.exceeds(&mixed_score));
    assert!(value(&score_en) > value(&mixed_score));
}

#[test]
fn test_get_english_score_with_empty_string() {
    let text = "";
    let score = english_score(text);
    assert_eq!(value(&score), 0.0);
    assert_eq!(score.weighted(), 0);
}

#[test]
fn score_of_hello_is_exact() {
    let score = english_score("Hello");
    assert_eq!(score.weighted(), 30034 + 111607 + 2 * 54893 + 71635);
    assert_eq!(score.length(), 5);
    assert_eq!(value(&score), 6.46124);
}

#[test]
fn score_counts_both_cases_and_the_space() {
    let lower = english_score("a b");
    let upper = english_score("A B");
    assert_eq!(lower.weighted(), 84966 + 130000 + 20720);
    assert_eq!(upper.weighted(), lower.weighted());
    assert_eq!(lower.length(), 3);
    assert!(!lower.exceeds(&upper));
    assert!(!upper.exceeds(&lower));
}

#[test]
fn other_characters_add_nothing_and_count_towards_the_length() {
    let plain = english_score("e");
    let diluted = english_score("e1!\n\t");
    assert_eq!(plain.weighted(), 111607);
    assert_eq!(plain.length(), 1);
    assert_eq!(diluted.weighted(), 111607);
    assert_eq!(diluted.length(), 5);
    assert!(plain.exceeds(&diluted));
}

#[test]
fn text_length_is_counted_in_bytes() {
    let score = english_score("これは日本語の文章です。");
    assert_eq!(score.weighted(), 0);
    assert_eq!(score.length(), 36);
}

#[test]
fn every_letter_of_the_table_has_its_frequency() {
    let letters = " eariotnslcudpmhgbfywkvxzjq";
    let expected: [u128; 27] = [
        130000, 111607, 84966, 75809, 75448, 71635, 69509, 66544, 57351, 54893, 45388, 36308,
        33844, 31671, 30129, 30034, 24705, 20720, 18121, 17779, 12899, 11016, 10074, 2902, 2722,
        1965, 1962,
    ];
    for (i, letter) in letters.chars().enumerate() {
        let score = english_score(&letter.to_string());
        assert_eq!(score.weighted(), expected[i]);
        assert_eq!(score.length(), 1);
    }
    assert_eq!(english_score(letters).weighted(), expected.iter().sum::<u128>());
}

#[test]
fn score_zero_is_the_lowest() {
    let zero = Score::zero();
    assert_eq!(zero.weighted(), 0);
    assert_eq!(zero.length(), 1);
    assert!(!zero.exceeds(&english_score("")));
    assert!(english_score("q").exceeds(&zero));
    assert!(!zero.exceeds(&english_score("q")));
}

#[test]
fn scores_of_different_lengths_compare_exactly() {
    // 130000 / 3 against 84966 * 2 / 4
    let one_space = english_score(" ..");
    let two_a = english_score("aa..");
    assert!(one_space.exceeds(&two_a));
    assert!(!two_a.exceeds(&one_space));
    // 111607 / 2 against 2 * 111607 / 4: equal
    let one_e = english_score("e.");
    let two_e = english_score("ee..");
    assert!(!one_e.exceeds(&two_e));
    assert!(!two_e.exceeds(&one_e));
}

#[test]
fn score_bytes_takes_bytes_that_are_no_text() {
    let score = score_bytes(&[0xff, b'e', 0x80]);
    assert_eq!(score.weighted(), 111607);
    assert_eq!(score.length(), 3);
    assert_eq!(score_bytes(b"Hello").weighted(), english_score("Hello").weighted());
}

#[test]
fn no_text_scores_above_seventy() {
    assert!(!is_english_text("This is a simple English sentence."));
    assert!(!is_english_text("    "));
    assert!(!is_english_text(""));
}

#[test]
fn decode_text_reads_utf8() {
    assert_eq!(decode_text(b"Hello".to_vec()), Ok("Hello".to_string()));
    assert_eq!(decode_text(vec![0xe3, 0x81, 0x93]), Ok("こ".to_string()));
    assert_eq!(decode_text(Vec::new()), Ok(String::new()));
}

#[test]
fn decode_text_rejects_bytes_that_are_no_text() {
    assert_eq!(decode_text(vec![0xff]), Err(CryptoError::InvalidText));
    assert_eq!(decode_text(vec![b'a', 0x80]), Err(CryptoError::InvalidText));
    assert_eq!(decode_text(vec![0xe3, 0x81]), Err(CryptoError::InvalidText));
    assert_eq!(decode_text(vec![0xed, 0xa0, 0x80]), Err(CryptoError::InvalidText));
}
