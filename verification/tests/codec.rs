use crypto_lib::arrays::{b64_decode, b64_encode, hex_decode, hex_encode};
use crypto_lib::error::CryptoError;

#[test]
fn test_hex_to_bytes() {
    let hex = "48656c6c6f";
    let expected_bytes = b"Hello".to_vec();
    let result = hex_decode(hex).unwrap();
    assert_eq!(result, expected_bytes);
}

#[test]
fn test_bytes_to_base64() {
    let bytes = b"Hello";
    let expected_base64 = "SGVsbG8=";
    let result = b64_encode(bytes);
    assert_eq!(result, expected_base64);
}

#[test]
fn hex_text_of_hello_decodes_to_hello() {
    let bytes = hex_decode("48656c6c6f").unwrap();
    assert_eq!(hex_encode(&bytes), "48656c6c6f");
    assert_eq!(String::from_utf8(bytes).unwrap(), "Hello");
}

#[test]
fn hex_encode_writes_two_lower_case_digits_per_byte() {
    assert_eq!(hex_encode(&[0x00, 0x0f, 0xa0, 0xff]), "000fa0ff");
    assert_eq!(hex_encode(b""), "");
}

#[test]
fn hex_decode_takes_both_cases() {
    assert_eq!(hex_decode("DEADbeef"), Ok(vec![0xde, 0xad, 0xbe, 0xef]));
    assert_eq!(hex_decode(""), Ok(Vec::new()));
}

#[test]
fn hex_decode_rejects_odd_length() {
    assert_eq!(hex_decode("abc"), Err(CryptoError::InvalidHexDigit));
    assert_eq!(hex_decode("a"), Err(CryptoError::InvalidHexDigit));
}

#[test]
fn hex_decode_rejects_other_characters() {
    assert_eq!(hex_decode("zz"), Err(CryptoError::InvalidHexDigit));
    assert_eq!(hex_decode("0g"), Err(CryptoError::InvalidHexDigit));
    assert_eq!(hex_decode("+f"), Err(CryptoError::InvalidHexDigit));
    assert_eq!(hex_decode("12 4"), Err(CryptoError::InvalidHexDigit));
    assert_eq!(hex_decode("\u{e9}a"), Err(CryptoError::InvalidHexDigit));
}

#[test]
fn hex_round_trip_of_every_byte() {
    let all: Vec<u8> = (0..=255u8).collect();
    let text = hex_encode(&all);
    assert_eq!(text.len(), 512);
    assert_eq!(hex_decode(&text), Ok(all));
}

#[test]
fn base64_of_the_known_vectors() {
    assert_eq!(b64_encode(b""), "");
    assert_eq!(b64_encode(b"f"), "Zg==");
    assert_eq!(b64_encode(b"fo"), "Zm8=");
    assert_eq!(b64_encode(b"foo"), "Zm9v");
    assert_eq!(b64_encode(b"foob"), "Zm9vYg==");
    assert_eq!(b64_encode(b"fooba"), "Zm9vYmE=");
    assert_eq!(b64_encode(b"foobar"), "Zm9vYmFy");
    assert_eq!(b64_encode(&[0xfb, 0xff, 0xbf]), "+/+/");
}

#[test]
fn base64_of_a_hex_buffer() {
    let decoded = hex_decode("49276d206b696c6c696e6720796f757220627261696e206c696b65206120706f69736f6e6f7573206d757368726f6f6d").unwrap();
    assert_eq!(
        b64_encode(&decoded),
        "SSdtIGtpbGxpbmcgeW91ciBicmFpbiBsaWtlIGEgcG9pc29ub3VzIG11c2hyb29t"
    );
}

#[test]
fn base64_decode_of_the_known_vectors() {
    assert_eq!(b64_decode(""), Ok(Vec::new()));
    assert_eq!(b64_decode("Zg=="), Ok(b"f".to_vec()));
    assert_eq!(b64_decode("Zm8="), Ok(b"fo".to_vec()));
    assert_eq!(b64_decode("Zm9v"), Ok(b"foo".to_vec()));
    assert_eq!(b64_decode("Zm9vYmFy"), Ok(b"foobar".to_vec()));
    assert_eq!(b64_decode("SGVsbG8="), Ok(b"Hello".to_vec()));
    assert_eq!(b64_decode("+/+/"), Ok(vec![0xfb, 0xff, 0xbf]));
}

#[test]
fn base64_decode_needs_no_padding() {
    assert_eq!(b64_decode("SGVsbG8"), Ok(b"Hello".to_vec()));
    assert_eq!(b64_decode("Zg"), Ok(b"f".to_vec()));
    assert_eq!(b64_decode("Z"), Ok(Vec::new()));
}

#[test]
fn base64_decode_reads_up_to_the_first_padding_character() {
    assert_eq!(b64_decode("Zg==Zm9v"), Ok(b"f".to_vec()));
    assert_eq!(b64_decode("Zm8=Zg=="), Ok(b"fo".to_vec()));
    assert_eq!(b64_decode("="), Ok(Vec::new()));
    assert_eq!(b64_decode("===="), Ok(Vec::new()));
}

#[test]
fn base64_decode_rejects_other_characters_behind_the_padding() {
    assert_eq!(b64_decode("Zm8=$$$"), Err(CryptoError::InvalidAlphabetChar));
    assert_eq!(b64_decode("=!"), Err(CryptoError::InvalidAlphabetChar));
    assert_eq!(b64_decode("Zg==\n"), Err(CryptoError::InvalidAlphabetChar));
    assert_eq!(b64_decode("Zg=\u{e9}="), Err(CryptoError::InvalidAlphabetChar));
}

#[test]
fn base64_decode_rejects_other_characters() {
    assert_eq!(b64_decode("SGV$bG8="), Err(CryptoError::InvalidAlphabetChar));
    assert_eq!(b64_decode("Zm9v\n"), Err(CryptoError::InvalidAlphabetChar));
    assert_eq!(b64_decode("Zm-v"), Err(CryptoError::InvalidAlphabetChar));
    assert_eq!(b64_decode("\u{e9}"), Err(CryptoError::InvalidAlphabetChar));
    assert_eq!(b64_decode("SGV!"), Err(CryptoError::InvalidAlphabetChar));
}

#[test]
fn base64_round_trip_of_every_length_up_to_sixty() {
    let all: Vec<u8> = (0..60u8).map(|i| i.wrapping_mul(37).wrapping_add(11)).collect();
    for n in 0..=all.len() {
        let text = b64_encode(&all[..n]);
        assert_eq!(text.len(), 4 * ((n + 2) / 3));
        assert_eq!(b64_decode(&text), Ok(all[..n].to_vec()));
    }
}

#[test]
fn base64_round_trip_of_every_byte() {
    let all: Vec<u8> = (0..=255u8).collect();
    assert_eq!(b64_decode(&b64_encode(&all)), Ok(all));
}
