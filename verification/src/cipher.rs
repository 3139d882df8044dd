use vstd::prelude::*;
use openssl::error::ErrorStack;
use openssl::symm::{Cipher, Crypter, Mode};
use crate::error::CryptoError;

verus! {

/// The length in bytes of one AES block, and of an AES-128 key.
pub const BLOCK_SIZE: usize = 16;

#[verifier::external_type_specification]
#[verifier::external_body]
pub struct ExErrorStack(ErrorStack);

/// The bytes that OpenSSL's AES-128 gives for one block under a key: the
/// encrypted block where `encrypting` holds, the decrypted block where not.
pub uninterp spec fn aes128_block(block: Seq<u8>, key: Seq<u8>, encrypting: bool) -> Seq<u8>;

/// Runs OpenSSL's AES-128 on one block: a `Crypter` for the ECB cipher, in
/// encrypting or decrypting mode, with padding switched off, is fed the block
/// and finished. Nothing is proved of it. The contract names the bytes that
/// come out, and claims of them that AES-128 is invertible: where one block
/// came out, the other direction under the same key takes it back to the
/// block that went in.
#[verifier::external_body]
fn openssl_crypt_block(block: &[u8], key: &[u8], encrypting: bool) -> (r: Result<
    Vec<u8>,
    ErrorStack,
>)
    requires
        block@.len() == BLOCK_SIZE,
        key@.len() == BLOCK_SIZE,
    ensures
        r matches Ok(out) ==> out@ == aes128_block(block@, key@, encrypting),
        r matches Ok(out) ==> out@.len() == BLOCK_SIZE ==> aes128_block(out@, key@, !encrypting)
            == block@,
{
    let cipher = Cipher::aes_128_ecb();
    let mode = if encrypting { Mode::Encrypt } else { Mode::Decrypt };
    let mut crypter = Crypter::new(cipher, mode, key, None)?;
    crypter.pad(false);
    let mut out = vec![0u8; block.len() + cipher.block_size()];
    let written = crypter.update(block, &mut out)?;
    let rest = crypter.finalize(&mut out[written..])?;
    out.truncate(written + rest);
    Ok(out)
}

/// Judges what the block cipher handed back for one block: a block of the
/// right length is passed on, anything else is a failure of the cipher.
pub fn block_outcome(outcome: Result<Vec<u8>, ErrorStack>) -> (r: Result<Vec<u8>, CryptoError>)
    ensures
        match outcome {
            Ok(out) => if out@.len() == BLOCK_SIZE {
                r == Ok::<Vec<u8>, CryptoError>(out)
            } else {
                r == Err::<Vec<u8>, CryptoError>(CryptoError::CipherFailure)
            },
            Err(_) => r == Err::<Vec<u8>, CryptoError>(CryptoError::CipherFailure),
        },
{
    match outcome {
        Ok(out) => {
            if out.len() == BLOCK_SIZE {
                Ok(out)
            } else {
                Err(CryptoError::CipherFailure)
            }
        },
        Err(_) => Err(CryptoError::CipherFailure),
    }
}

/// Runs the block cipher on one block, in either direction. What comes back
/// is one block, and the cipher run in the other direction takes it back to
/// the block that went in.
pub fn crypt_block(block: &[u8], key: &[u8], encrypting: bool) -> (r: Result<Vec<u8>, CryptoError>)
    requires
        block@.len() == BLOCK_SIZE,
        key@.len() == BLOCK_SIZE,
    ensures
        r matches Ok(out) ==> {
            &&& out@ == aes128_block(block@, key@, encrypting)
            &&& out@.len() == BLOCK_SIZE
            &&& aes128_block(out@, key@, !encrypting) == block@
        },
        r matches Err(e) ==> e == CryptoError::CipherFailure,
{
    block_outcome(openssl_crypt_block(block, key, encrypting))
}

} // verus!
