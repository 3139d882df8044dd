use crypto_lib::arrays::hex_decode;
use crypto_lib::cipher::{block_outcome, crypt_block};
use crypto_lib::crypto::modes::{cbc_decrypt_blocks, cbc_encrypt_blocks, ecb_crypt};
use crypto_lib::crypto::padding::unpad_outcome;
use crypto_lib::crypto::{
    decrypt_aes_cbc, decrypt_aes_ecb, encrypt_aes_cbc, encrypt_aes_ecb, pkcs7_pad, pkcs7_unpad,
};
use crypto_lib::error::CryptoError;
use openssl::error::ErrorStack;

#[test]
fn test_aes_ecb() {
    let key = b"YELLOW SUBMARINE";
    let plaintext = b"Hello, World!";
    let ciphertext = encrypt_aes_ecb(plaintext, key, true).unwrap();
    let decrypted = decrypt_aes_ecb(&ciphertext, key, true).unwrap();
    assert_eq!(plaintext, decrypted.as_slice());
    assert_ne!(ciphertext, plaintext);
}

#[test]
fn test_aes_cbc() {
    let key = b"YELLOW SUBMARINE";
    let iv = vec![0; 16];
    let plaintext = b"Hello, World! Hello world, hello world!";
    let ciphertext = encrypt_aes_cbc(plaintext, key, &iv).unwrap();
    let decrypted = decrypt_aes_cbc(&ciphertext, key, &iv).unwrap();
    assert_eq!(plaintext, decrypted.as_slice());
    assert_ne!(ciphertext, plaintext);
}

#[test]
fn padding_of_the_known_vector() {
    let input = b"YELLOW SUBMARINE";
    let expected = b"YELLOW SUBMARINE\x04\x04\x04\x04";
    assert_eq!(pkcs7_pad(input, 20), expected.to_vec());
}

#[test]
fn padding_appends_a_whole_block_to_a_whole_number_of_blocks() {
    assert_eq!(pkcs7_pad(b"", 4), vec![4, 4, 4, 4]);
    assert_eq!(pkcs7_pad(b"abcd", 4), b"abcd\x04\x04\x04\x04".to_vec());
    assert_eq!(pkcs7_pad(b"abc", 4), b"abc\x01".to_vec());
    assert_eq!(pkcs7_pad(b"abc", 1), b"abc\x01".to_vec());
    assert_eq!(pkcs7_pad(b"YELLOW SUBMARINE", 16).len(), 32);
}

#[test]
fn padded_length_is_a_multiple_of_the_block_size() {
    let data = [0x61u8; 70];
    for block_size in [1usize, 2, 3, 7, 16, 20, 254, 255] {
        for n in [0usize, 1, 15, 16, 17, 69, 70] {
            let padded = pkcs7_pad(&data[..n], block_size);
            assert_eq!(padded.len() % block_size, 0);
            assert!(padded.len() > n);
            assert!(padded.len() <= n + block_size);
            assert_eq!(&padded[..n], &data[..n]);
        }
    }
}

#[test]
fn padding_to_the_largest_block_size() {
    let padded = pkcs7_pad(b"", 255);
    assert_eq!(padded, vec![255u8; 255]);
    assert_eq!(pkcs7_unpad(&padded), Vec::<u8>::new());
    let padded = pkcs7_pad(b"ab", 255);
    assert_eq!(padded.len(), 255);
    assert_eq!(padded[2], 253);
    assert_eq!(padded[254], 253);
    assert_eq!(pkcs7_unpad(&padded), b"ab".to_vec());
}

#[test]
fn unpadding_what_was_padded_gives_the_input_back() {
    let data: Vec<u8> = (0..40u8).collect();
    for block_size in [1usize, 2, 5, 16, 20, 255] {
        for n in [0usize, 1, 4, 5, 16, 39, 40] {
            let padded = pkcs7_pad(&data[..n], block_size);
            assert_eq!(pkcs7_unpad(&padded), data[..n].to_vec());
        }
    }
}

#[test]
fn unpadding_trusts_the_last_byte() {
    assert_eq!(pkcs7_unpad(b"abcdef\x02"), b"abcde".to_vec());
    assert_eq!(pkcs7_unpad(b"abc\x00"), b"abc\x00".to_vec());
    assert_eq!(pkcs7_unpad(&[1]), Vec::<u8>::new());
    assert_eq!(pkcs7_unpad(&[9, 9, 3]), Vec::<u8>::new());
}

#[test]
fn block_cipher_gives_the_known_answer() {
    let key = hex_decode("000102030405060708090a0b0c0d0e0f").unwrap();
    let plain = hex_decode("00112233445566778899aabbccddeeff").unwrap();
    let cipher = hex_decode("69c4e0d86a7b0430d8cdb78070b4c55a").unwrap();
    assert_eq!(crypt_block(&plain, &key, true), Ok(cipher.clone()));
    assert_eq!(crypt_block(&cipher, &key, false), Ok(plain.clone()));
    assert_eq!(encrypt_aes_ecb(&plain, &key, false), Ok(cipher.clone()));
    assert_eq!(decrypt_aes_ecb(&cipher, &key, false), Ok(plain));
}

#[test]
fn block_outcome_passes_one_block_on() {
    let block = vec![7u8; 16];
    assert_eq!(block_outcome(Ok(block.clone())), Ok(block));
}

#[test]
fn block_outcome_takes_anything_else_for_a_failure() {
    assert_eq!(block_outcome(Ok(vec![7u8; 15])), Err(CryptoError::CipherFailure));
    assert_eq!(block_outcome(Ok(vec![7u8; 32])), Err(CryptoError::CipherFailure));
    assert_eq!(block_outcome(Ok(Vec::new())), Err(CryptoError::CipherFailure));
    assert_eq!(block_outcome(Err(ErrorStack::get())), Err(CryptoError::CipherFailure));
}

#[test]
fn ecb_encrypts_equal_blocks_alike() {
    let key = b"YELLOW SUBMARINE";
    let plain = [0x41u8; 48];
    let cipher = encrypt_aes_ecb(&plain, key, false).unwrap();
    assert_eq!(cipher.len(), 48);
    assert_eq!(cipher[..16], cipher[16..32]);
    assert_eq!(cipher[..16], cipher[32..]);
    assert_eq!(ecb_crypt(&plain, key, true), Ok(cipher.clone()));
    assert_eq!(ecb_crypt(&cipher, key, false), Ok(plain.to_vec()));
}

#[test]
fn ecb_with_padding_is_ecb_of_the_padded_plaintext() {
    let key = b"YELLOW SUBMARINE";
    let plain = b"Hello, World!";
    let padded = pkcs7_pad(plain, 16);
    let cipher = encrypt_aes_ecb(plain, key, true).unwrap();
    assert_eq!(cipher.len(), 16);
    assert_eq!(encrypt_aes_ecb(&padded, key, false), Ok(cipher.clone()));
    assert_eq!(decrypt_aes_ecb(&cipher, key, false), Ok(padded));
    let whole = encrypt_aes_ecb(key, key, true).unwrap();
    assert_eq!(whole.len(), 32);
    assert_eq!(decrypt_aes_ecb(&whole, key, true), Ok(key.to_vec()));
}

#[test]
fn ecb_round_trip_of_every_length_up_to_forty() {
    let key = b"0123456789abcdef";
    let data: Vec<u8> = (0..40u8).map(|i| i.wrapping_mul(29)).collect();
    for n in 0..=data.len() {
        let cipher = encrypt_aes_ecb(&data[..n], key, true).unwrap();
        assert_eq!(cipher.len(), (n / 16 + 1) * 16);
        assert_eq!(decrypt_aes_ecb(&cipher, key, true), Ok(data[..n].to_vec()));
    }
}

#[test]
fn ecb_of_nothing_without_padding_is_nothing() {
    let key = b"YELLOW SUBMARINE";
    assert_eq!(encrypt_aes_ecb(b"", key, false), Ok(Vec::new()));
    assert_eq!(decrypt_aes_ecb(b"", key, false), Ok(Vec::new()));
    assert_eq!(decrypt_aes_ecb(b"", key, true), Err(CryptoError::InvalidPadding));
}

#[test]
fn ecb_rejects_a_key_of_another_length() {
    let block = [0u8; 16];
    assert_eq!(encrypt_aes_ecb(&block, b"short", true), Err(CryptoError::InvalidKeyLength));
    assert_eq!(encrypt_aes_ecb(&block, &[0u8; 32], false), Err(CryptoError::InvalidKeyLength));
    assert_eq!(decrypt_aes_ecb(&block, b"", true), Err(CryptoError::InvalidKeyLength));
    assert_eq!(decrypt_aes_ecb(&block, &[0u8; 17], false), Err(CryptoError::InvalidKeyLength));
    assert_eq!(encrypt_aes_ecb(b"abc", b"short", false), Err(CryptoError::InvalidKeyLength));
}

#[test]
fn ecb_rejects_data_that_is_no_whole_number_of_blocks() {
    let key = b"YELLOW SUBMARINE";
    assert_eq!(encrypt_aes_ecb(b"abc", key, false), Err(CryptoError::LengthMismatch));
    assert_eq!(encrypt_aes_ecb(&[0u8; 17], key, false), Err(CryptoError::LengthMismatch));
    assert_eq!(decrypt_aes_ecb(&[0u8; 15], key, false), Err(CryptoError::LengthMismatch));
    assert_eq!(decrypt_aes_ecb(&[0u8; 31], key, true), Err(CryptoError::LengthMismatch));
}

#[test]
fn ecb_rejects_a_last_byte_that_asks_for_too_much() {
    let key = b"YELLOW SUBMARINE";
    let cipher = encrypt_aes_ecb(&[0xffu8; 16], key, false).unwrap();
    assert_eq!(decrypt_aes_ecb(&cipher, key, true), Err(CryptoError::InvalidPadding));
    assert_eq!(decrypt_aes_ecb(&cipher, key, false), Ok(vec![0xffu8; 16]));
}

#[test]
fn ecb_unpadding_does_not_check_the_removed_bytes() {
    let key = b"YELLOW SUBMARINE";
    let cipher = encrypt_aes_ecb(b"0123456789abc\x07\x08\x03", key, false).unwrap();
    assert_eq!(decrypt_aes_ecb(&cipher, key, true), Ok(b"0123456789abc".to_vec()));
}

#[test]
fn cbc_gives_the_known_answer_for_one_block() {
    let key = hex_decode("000102030405060708090a0b0c0d0e0f").unwrap();
    let iv = hex_decode("00010203040506070001020304050607").unwrap();
    let cipher = hex_decode(
        "b4b9e730d6d6f7de773f1cffb33e445a91d72762874dfb3c5ec459724af47ca1",
    )
    .unwrap();
    assert_eq!(encrypt_aes_cbc(b"Some Crypto Text", &key, &iv), Ok(cipher.clone()));
    assert_eq!(decrypt_aes_cbc(&cipher, &key, &iv), Ok(b"Some Crypto Text".to_vec()));
}

#[test]
fn cbc_gives_the_known_answer_for_a_part_block() {
    let key = hex_decode("000102030405060708090a0b0c0d0e0f").unwrap();
    let iv = hex_decode("00010203040506070001020304050607").unwrap();
    let cipher = hex_decode(
        "0f21837eb28804afd9cce20349b488f6c4610e321cf90d66b1e62c7776188d99",
    )
    .unwrap();
    assert_eq!(encrypt_aes_cbc(b"Some Stream of Crypto Text", &key, &iv), Ok(cipher.clone()));
    assert_eq!(decrypt_aes_cbc(&cipher, &key, &iv), Ok(b"Some Stream of Crypto Text".to_vec()));
}

#[test]
fn cbc_chains_the_blocks() {
    let key = b"YELLOW SUBMARINE";
    let iv = [0u8; 16];
    let plain = [0x41u8; 32];
    let cipher = encrypt_aes_cbc(&plain, key, &iv).unwrap();
    assert_eq!(cipher.len(), 48);
    assert_ne!(cipher[..16], cipher[16..32]);
    // with a zero vector the first block is the ECB block
    let first = encrypt_aes_ecb(&plain[..16], key, false).unwrap();
    assert_eq!(cipher[..16], first[..]);
    // the second block is the ECB block of the plaintext XORed with the first
    let mixed: Vec<u8> = plain[16..].iter().zip(first.iter()).map(|(a, b)| a ^ b).collect();
    assert_eq!(cipher[16..32], encrypt_aes_ecb(&mixed, key, false).unwrap()[..]);
}

#[test]
fn cbc_round_trip_of_every_length_up_to_forty() {
    let key = b"0123456789abcdef";
    let iv = b"fedcba9876543210";
    let data: Vec<u8> = (0..40u8).map(|i| i.wrapping_mul(53).wrapping_add(1)).collect();
    for n in 0..=data.len() {
        let cipher = encrypt_aes_cbc(&data[..n], key, iv).unwrap();
        assert_eq!(cipher.len(), (n / 16 + 1) * 16);
        assert_eq!(decrypt_aes_cbc(&cipher, key, iv), Ok(data[..n].to_vec()));
    }
}

#[test]
fn cbc_needs_the_same_vector_to_decrypt() {
    let key = b"YELLOW SUBMARINE";
    let plain = b"sixteen byte msg and some more";
    let cipher = encrypt_aes_cbc(plain, key, &[0u8; 16]).unwrap();
    let mut other = [0u8; 16];
    other[0] = 1;
    let decrypted = decrypt_aes_cbc(&cipher, key, &other).unwrap();
    assert_eq!(decrypted[0], plain[0] ^ 1);
    assert_eq!(decrypted[1..], plain[1..]);
}

#[test]
fn cbc_rejects_a_key_of_another_length() {
    let iv = [0u8; 16];
    assert_eq!(encrypt_aes_cbc(b"abc", b"short", &iv), Err(CryptoError::InvalidKeyLength));
    assert_eq!(decrypt_aes_cbc(&[0u8; 16], &[0u8; 24], &iv), Err(CryptoError::InvalidKeyLength));
    assert_eq!(encrypt_aes_cbc(b"abc", b"short", b"short"), Err(CryptoError::InvalidKeyLength));
    assert_eq!(decrypt_aes_cbc(&[0u8; 15], b"", b""), Err(CryptoError::InvalidKeyLength));
}

#[test]
fn cbc_rejects_a_vector_of_another_length() {
    let key = b"YELLOW SUBMARINE";
    assert_eq!(encrypt_aes_cbc(b"abc", key, &[0u8; 15]), Err(CryptoError::LengthMismatch));
    assert_eq!(encrypt_aes_cbc(b"abc", key, b""), Err(CryptoError::LengthMismatch));
    assert_eq!(decrypt_aes_cbc(&[0u8; 16], key, &[0u8; 17]), Err(CryptoError::LengthMismatch));
}

#[test]
fn cbc_rejects_a_ciphertext_that_is_no_whole_number_of_blocks() {
    let key = b"YELLOW SUBMARINE";
    let iv = [0u8; 16];
    assert_eq!(decrypt_aes_cbc(&[0u8; 15], key, &iv), Err(CryptoError::LengthMismatch));
    assert_eq!(decrypt_aes_cbc(&[0u8; 33], key, &iv), Err(CryptoError::LengthMismatch));
}

#[test]
fn cbc_rejects_what_cannot_be_unpadded() {
    let key = b"YELLOW SUBMARINE";
    let iv = [0u8; 16];
    assert_eq!(decrypt_aes_cbc(b"", key, &iv), Err(CryptoError::InvalidPadding));
    let cipher = encrypt_aes_ecb(&[0x11u8; 16], key, false).unwrap();
    assert_eq!(decrypt_aes_cbc(&cipher, key, &iv), Err(CryptoError::InvalidPadding));
}

#[test]
fn unpad_outcome_removes_what_the_last_byte_says() {
    assert_eq!(unpad_outcome(b"abcdef\x02"), Ok(b"abcde".to_vec()));
    assert_eq!(unpad_outcome(b"abc\x00"), Ok(b"abc\x00".to_vec()));
    assert_eq!(unpad_outcome(&[3, 3, 3]), Ok(Vec::new()));
    assert_eq!(unpad_outcome(&pkcs7_pad(b"YELLOW", 16)), Ok(b"YELLOW".to_vec()));
}

#[test]
fn unpad_outcome_rejects_what_cannot_be_unpadded() {
    assert_eq!(unpad_outcome(b""), Err(CryptoError::InvalidPadding));
    assert_eq!(unpad_outcome(&[2]), Err(CryptoError::InvalidPadding));
    assert_eq!(unpad_outcome(&[0x11u8; 16]), Err(CryptoError::InvalidPadding));
    assert_eq!(unpad_outcome(&[0xffu8; 254]), Err(CryptoError::InvalidPadding));
}

#[test]
fn cbc_blocks_are_chained_without_padding() {
    let key = b"YELLOW SUBMARINE";
    let iv = b"0123456789abcdef";
    let data = [0x41u8; 32];
    let cipher = cbc_encrypt_blocks(&data, key, iv).unwrap();
    assert_eq!(cipher.len(), 32);
    let first: Vec<u8> = data[..16].iter().zip(iv.iter()).map(|(a, b)| a ^ b).collect();
    assert_eq!(cipher[..16], encrypt_aes_ecb(&first, key, false).unwrap()[..]);
    let second: Vec<u8> = data[16..].iter().zip(cipher[..16].iter()).map(|(a, b)| a ^ b).collect();
    assert_eq!(cipher[16..], encrypt_aes_ecb(&second, key, false).unwrap()[..]);
    assert_eq!(cbc_decrypt_blocks(&cipher, key, iv), Ok(data.to_vec()));
    assert_eq!(encrypt_aes_cbc(&data[..20], key, iv), cbc_encrypt_blocks(&pkcs7_pad(&data[..20], 16), key, iv));
}

#[test]
fn cbc_blocks_of_nothing_are_nothing() {
    let key = b"YELLOW SUBMARINE";
    let iv = [0u8; 16];
    assert_eq!(cbc_encrypt_blocks(b"", key, &iv), Ok(Vec::new()));
    assert_eq!(cbc_decrypt_blocks(b"", key, &iv), Ok(Vec::new()));
}

#[test]
fn cbc_blocks_reject_wrong_lengths() {
    let key = b"YELLOW SUBMARINE";
    let iv = [0u8; 16];
    assert_eq!(cbc_encrypt_blocks(&[0u8; 15], key, &iv), Err(CryptoError::LengthMismatch));
    assert_eq!(cbc_encrypt_blocks(&[0u8; 16], key, &iv[..8]), Err(CryptoError::LengthMismatch));
    assert_eq!(cbc_encrypt_blocks(&[0u8; 15], b"key", &iv), Err(CryptoError::InvalidKeyLength));
    assert_eq!(cbc_decrypt_blocks(&[0u8; 17], key, &iv), Err(CryptoError::LengthMismatch));
    assert_eq!(cbc_decrypt_blocks(&[0u8; 16], key, b""), Err(CryptoError::LengthMismatch));
    assert_eq!(cbc_decrypt_blocks(&[0u8; 16], b"", b""), Err(CryptoError::InvalidKeyLength));
}
