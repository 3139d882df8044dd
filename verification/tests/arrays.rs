use crypto_lib::arrays::{
    bit_difference, count_bits, fixed_xor, hamming_distance, hex_decode, hex_encode, single_xor,
    xor_equal, xor_repeating,
};
use crypto_lib::error::CryptoError;

#[test]
fn test_xor_single() {
    let a = b"Hello";
    let b = 0xA;
    let expected_result = vec![0x42, 0x6F, 0x66, 0x66, 0x65];
    let result = single_xor(a, b);
    assert_eq!(result, expected_result);
}

#[test]
fn test_xor_repeating() {
    let a = b"Burning 'em, if you ain't quick and nimble\nI go crazy when I hear a cymbal";
    let b = b"ICE";
    let expected_result = hex_decode("0b3637272a2b2e63622c2e69692a23693a2a3c6324202d623d63343c2a26226324272765272a282b2f20430a652e2c652a3124333a653e2b2027630c692b20283165286326302e27282f").unwrap();
    let result = xor_repeating(a, b);
    assert_eq!(result, expected_result);
}

#[test]
fn test_hamming_distance() {
    let a = b"this is a test";
    let b = b"wokka wokka!!!";
    let expected_result = 37;
    let result = hamming_distance(a, b).unwrap();
    assert_eq!(result, expected_result);
}

#[test]
fn repeating_xor_gives_the_known_hex_text() {
    let a = b"Burning 'em, if you ain't quick and nimble\nI go crazy when I hear a cymbal";
    let result = hex_encode(&xor_repeating(a, b"ICE"));
    assert_eq!(result, "0b3637272a2b2e63622c2e69692a23693a2a3c6324202d623d63343c2a26226324272765272a282b2f20430a652e2c652a3124333a653e2b2027630c692b20283165286326302e27282f");
}

#[test]
fn fixed_xor_of_two_hex_buffers() {
    let a = hex_decode("1c0111001f010100061a024b53535009181c").unwrap();
    let b = hex_decode("686974207468652062756c6c277320657965").unwrap();
    let c = fixed_xor(&a, &b).unwrap();
    assert_eq!(hex_encode(&c), "746865206b696420646f6e277420706c6179");
    assert_eq!(c, b"the kid don't play".to_vec());
}

#[test]
fn fixed_xor_rejects_different_lengths() {
    assert_eq!(fixed_xor(b"abc", b"ab"), Err(CryptoError::LengthMismatch));
    assert_eq!(fixed_xor(b"", b"a"), Err(CryptoError::LengthMismatch));
}

#[test]
fn fixed_xor_of_empty_buffers_is_empty() {
    assert_eq!(fixed_xor(b"", b""), Ok(Vec::new()));
}

#[test]
fn fixed_xor_twice_gives_the_buffer_back() {
    let a = b"attack at dawn!!".to_vec();
    let b = b"0123456789abcdef".to_vec();
    let once = fixed_xor(&a, &b).unwrap();
    assert_ne!(once, a);
    assert_eq!(fixed_xor(&once, &b).unwrap(), a);
}

#[test]
fn xor_equal_is_byte_wise() {
    assert_eq!(xor_equal(&[0x0f, 0xf0, 0xff], &[0xff, 0xff, 0x0f]), vec![0xf0, 0x0f, 0xf0]);
}

#[test]
fn single_xor_twice_gives_the_buffer_back() {
    let a = b"Hello".to_vec();
    assert_eq!(single_xor(&single_xor(&a, 0x5a), 0x5a), a);
    assert_eq!(single_xor(&a, 0), a);
    assert_eq!(single_xor(b"", 7), Vec::<u8>::new());
}

#[test]
fn repeating_xor_twice_gives_the_buffer_back() {
    let a = b"Burning 'em, if you ain't quick and nimble".to_vec();
    let once = xor_repeating(&a, b"ICE");
    assert_ne!(once, a);
    assert_eq!(xor_repeating(&once, b"ICE"), a);
}

#[test]
fn repeating_xor_cycles_the_key() {
    assert_eq!(xor_repeating(&[0, 0, 0, 0, 0], &[1, 2]), vec![1, 2, 1, 2, 1]);
    assert_eq!(xor_repeating(&[0xff], &[1, 2, 3]), vec![0xfe]);
    assert_eq!(xor_repeating(b"", b"key"), Vec::<u8>::new());
}

#[test]
fn repeating_xor_with_one_byte_is_single_xor() {
    let a = b"Hello";
    assert_eq!(xor_repeating(a, &[0xA]), single_xor(a, 0xA));
}

#[test]
fn hamming_distance_to_itself_is_zero() {
    assert_eq!(hamming_distance(b"this is a test", b"this is a test"), Ok(0));
    assert_eq!(hamming_distance(b"", b""), Ok(0));
}

#[test]
fn hamming_distance_of_a_long_buffer_to_itself_is_zero() {
    let long = vec![0xa5u8; 1 << 20];
    assert_eq!(hamming_distance(&long, &long), Ok(0));
}

#[test]
fn hamming_distance_counts_bits() {
    assert_eq!(hamming_distance(&[0x00], &[0xff]), Ok(8));
    assert_eq!(hamming_distance(&[0b1010_1010, 0x01], &[0b0101_0101, 0x00]), Ok(9));
    assert_eq!(bit_difference(&[0x0f, 0x00], &[0x00, 0x80]), 5);
}

#[test]
fn hamming_distance_rejects_different_lengths() {
    assert_eq!(hamming_distance(b"abc", b"abcd"), Err(CryptoError::LengthMismatch));
}

#[test]
fn count_bits_of_some_bytes() {
    assert_eq!(count_bits(0), 0);
    assert_eq!(count_bits(1), 1);
    assert_eq!(count_bits(0x80), 1);
    assert_eq!(count_bits(0b0110_1001), 4);
    assert_eq!(count_bits(0xff), 8);
}
