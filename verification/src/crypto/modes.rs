use vstd::prelude::*;
use vstd::slice::slice_subrange;
use crate::arrays::{lemma_xor_fixed_involution, xor_equal, xor_fixed};
use crate::cipher::{aes128_block, crypt_block, BLOCK_SIZE};
use crate::crypto::padding::{
    can_unpad, lemma_pad_unpad, lemma_padded_length, pkcs7_pad, pkcs7_padded, pkcs7_unpadded,
    unpad_outcome,
};
use crate::error::CryptoError;

verus! {

/// Block `i` of a buffer that is cut into blocks of `BLOCK_SIZE` bytes.
pub open spec fn block_at(data: Seq<u8>, i: int) -> Seq<u8> {
    data.subrange(i * BLOCK_SIZE, (i + 1) * BLOCK_SIZE)
}

/// The first `blocks` blocks of a buffer, each run through the block cipher
/// by itself, one after another.
pub open spec fn ecb_image(data: Seq<u8>, key: Seq<u8>, encrypting: bool, blocks: nat) -> Seq<u8>
    decreases blocks,
{
    if blocks == 0 {
        Seq::empty()
    } else {
        ecb_image(data, key, encrypting, (blocks - 1) as nat) + aes128_block(
            block_at(data, blocks - 1),
            key,
            encrypting,
        )
    }
}

/// A buffer of whole blocks in ECB mode: every block is run through the
/// block cipher by itself.
pub open spec fn ecb_transformed(data: Seq<u8>, key: Seq<u8>, encrypting: bool) -> Seq<u8> {
    ecb_image(data, key, encrypting, data.len() / (BLOCK_SIZE as nat))
}

/// What ECB encryption is fed: the plaintext, padded where padding is asked
/// for.
pub open spec fn ecb_input(plaintext: Seq<u8>, pad: bool) -> Seq<u8> {
    if pad {
        pkcs7_padded(plaintext, BLOCK_SIZE as nat)
    } else {
        plaintext
    }
}

/// The plaintext of an ECB ciphertext: its blocks decrypted and, where
/// padding is asked for, unpadded. There is none where the decrypted blocks
/// cannot be unpadded.
pub open spec fn ecb_plaintext(ciphertext: Seq<u8>, key: Seq<u8>, pad: bool) -> Option<Seq<u8>> {
    let raw = ecb_transformed(ciphertext, key, false);
    if !pad {
        Some(raw)
    } else if can_unpad(raw) {
        Some(pkcs7_unpadded(raw))
    } else {
        None
    }
}

/// The block that block `i` is chained with: the ciphertext block before it,
/// and the initialization vector for the first block.
pub open spec fn cbc_previous(ciphertext: Seq<u8>, iv: Seq<u8>, i: int) -> Seq<u8> {
    if i == 0 {
        iv
    } else {
        block_at(ciphertext, i - 1)
    }
}

/// The first `blocks` blocks of a buffer encrypted in CBC mode: each block is
/// XORed with the ciphertext block before it and then encrypted.
pub open spec fn cbc_encrypted(data: Seq<u8>, key: Seq<u8>, iv: Seq<u8>, blocks: nat) -> Seq<u8>
    decreases blocks,
{
    if blocks == 0 {
        Seq::empty()
    } else {
        let before = cbc_encrypted(data, key, iv, (blocks - 1) as nat);
        before + aes128_block(
            xor_fixed(block_at(data, blocks - 1), cbc_previous(before, iv, blocks - 1)),
            key,
            true,
        )
    }
}

/// The first `blocks` blocks of a ciphertext decrypted in CBC mode: each
/// block is decrypted and then XORed with the ciphertext block before it.
pub open spec fn cbc_decrypted(ciphertext: Seq<u8>, key: Seq<u8>, iv: Seq<u8>, blocks: nat) -> Seq<
    u8,
>
    decreases blocks,
{
    if blocks == 0 {
        Seq::empty()
    } else {
        cbc_decrypted(ciphertext, key, iv, (blocks - 1) as nat) + xor_fixed(
            aes128_block(block_at(ciphertext, blocks - 1), key, false),
            cbc_previous(ciphertext, iv, blocks - 1),
        )
    }
}

/// The CBC ciphertext of a plaintext: the padded plaintext, encrypted block
/// by block.
pub open spec fn cbc_ciphertext(plaintext: Seq<u8>, key: Seq<u8>, iv: Seq<u8>) -> Seq<u8> {
    let padded = pkcs7_padded(plaintext, BLOCK_SIZE as nat);
    cbc_encrypted(padded, key, iv, padded.len() / (BLOCK_SIZE as nat))
}

/// The plaintext of a CBC ciphertext: its blocks decrypted and unpadded.
/// There is none where the decrypted blocks cannot be unpadded.
pub open spec fn cbc_plaintext(ciphertext: Seq<u8>, key: Seq<u8>, iv: Seq<u8>) -> Option<Seq<u8>> {
    let raw = cbc_decrypted(ciphertext, key, iv, ciphertext.len() / (BLOCK_SIZE as nat));
    if can_unpad(raw) {
        Some(pkcs7_unpadded(raw))
    } else {
        None
    }
}

/// The block cipher gives one block for every block of a buffer.
pub open spec fn block_images_fit(data: Seq<u8>, key: Seq<u8>, encrypting: bool) -> bool {
    forall|i: int|
        0 <= i < data.len() / (BLOCK_SIZE as nat) ==> (#[trigger] aes128_block(
            block_at(data, i),
            key,
            encrypting,
        )).len() == BLOCK_SIZE
}

/// `out` is `data` in ECB mode, block for block: it is as long as `data`,
/// the block cipher gives one block for every block of `data`, and block `i`
/// of `out` is what it gives for block `i` of `data`.
pub open spec fn ecb_blockwise(data: Seq<u8>, out: Seq<u8>, key: Seq<u8>, encrypting: bool) -> bool {
    &&& out.len() == data.len()
    &&& block_images_fit(data, key, encrypting)
    &&& forall|i: int|
        0 <= i < data.len() / (BLOCK_SIZE as nat) ==> #[trigger] block_at(out, i) == aes128_block(
            block_at(data, i),
            key,
            encrypting,
        )
}

/// `out` is `data` encrypted in CBC mode, block for block: it is as long as
/// `data`, and block `i` of `out` is one block, the encryption of block `i`
/// of `data` XORed with the block of `out` before it.
pub open spec fn cbc_encrypted_blockwise(
    data: Seq<u8>,
    out: Seq<u8>,
    key: Seq<u8>,
    iv: Seq<u8>,
) -> bool {
    &&& out.len() == data.len()
    &&& forall|i: int|
        0 <= i < data.len() / (BLOCK_SIZE as nat) ==> {
            &&& #[trigger] block_at(out, i) == aes128_block(
                xor_fixed(block_at(data, i), cbc_previous(out, iv, i)),
                key,
                true,
            )
            &&& aes128_block(xor_fixed(block_at(data, i), cbc_previous(out, iv, i)), key, true).len()
                == BLOCK_SIZE
        }
}

/// `raw` is `ciphertext` decrypted in CBC mode, block for block: it is as
/// long as the ciphertext, the block cipher gives one block for every block
/// of the ciphertext, and block `i` of `raw` is that block XORed with the
/// ciphertext block before block `i`.
pub open spec fn cbc_decrypted_blockwise(
    ciphertext: Seq<u8>,
    raw: Seq<u8>,
    key: Seq<u8>,
    iv: Seq<u8>,
) -> bool {
    &&& raw.len() == ciphertext.len()
    &&& block_images_fit(ciphertext, key, false)
    &&& forall|i: int|
        0 <= i < ciphertext.len() / (BLOCK_SIZE as nat) ==> #[trigger] block_at(raw, i)
            == xor_fixed(
            aes128_block(block_at(ciphertext, i), key, false),
            cbc_previous(ciphertext, iv, i),
        )
}

/// The ECB image of the first blocks of a buffer does not depend on what
/// follows them.
pub proof fn lemma_ecb_image_prefix(
    short: Seq<u8>,
    long: Seq<u8>,
    key: Seq<u8>,
    encrypting: bool,
    blocks: nat,
)
    requires
        blocks * BLOCK_SIZE <= short.len() <= long.len(),
        long.take(short.len() as int) == short,
    ensures
        ecb_image(short, key, encrypting, blocks) == ecb_image(long, key, encrypting, blocks),
    decreases blocks,
{
    if blocks > 0 {
        lemma_ecb_image_prefix(short, long, key, encrypting, (blocks - 1) as nat);
        lemma_block_of_prefix(short, long, blocks - 1);
    }
}

/// A block of a buffer is the same block of every longer buffer that begins
/// with it.
pub proof fn lemma_block_of_prefix(short: Seq<u8>, long: Seq<u8>, i: int)
    requires
        0 <= i,
        (i + 1) * BLOCK_SIZE <= short.len() <= long.len(),
        long.take(short.len() as int) == short,
    ensures
        block_at(short, i) == block_at(long, i),
{
    assert forall|j: int| 0 <= j < short.len() implies short[j] == long[j] by {
        assert(long.take(short.len() as int)[j] == long[j]);
    }
    assert(block_at(short, i) =~= block_at(long, i));
}

/// The CBC decryption of the first blocks of a ciphertext does not depend on
/// what follows them.
pub proof fn lemma_cbc_decrypted_prefix(
    short: Seq<u8>,
    long: Seq<u8>,
    key: Seq<u8>,
    iv: Seq<u8>,
    blocks: nat,
)
    requires
        blocks * BLOCK_SIZE <= short.len() <= long.len(),
        long.take(short.len() as int) == short,
    ensures
        cbc_decrypted(short, key, iv, blocks) == cbc_decrypted(long, key, iv, blocks),
    decreases blocks,
{
    if blocks > 0 {
        lemma_cbc_decrypted_prefix(short, long, key, iv, (blocks - 1) as nat);
        lemma_block_of_prefix(short, long, blocks - 1);
        if blocks > 1 {
            lemma_block_of_prefix(short, long, blocks - 2);
        }
    }
}

/// AES-128 under a key is invertible on blocks: a block is encrypted to a
/// block, which decryption takes back. The block cipher is trusted to be so
/// for every block that it hands out; here it is a premise.
pub open spec fn aes128_inverts(key: Seq<u8>) -> bool {
    forall|block: Seq<u8>|
        block.len() == BLOCK_SIZE ==> {
            &&& (#[trigger] aes128_block(block, key, true)).len() == BLOCK_SIZE
            &&& aes128_block(aes128_block(block, key, true), key, false) == block
        }
}

/// Under an invertible block cipher, the first blocks of a buffer encrypted
/// in ECB mode decrypt to those blocks.
pub proof fn lemma_ecb_blocks_round_trip(data: Seq<u8>, key: Seq<u8>, blocks: nat)
    requires
        aes128_inverts(key),
        blocks * BLOCK_SIZE <= data.len(),
    ensures
        ecb_image(data, key, true, blocks).len() == blocks * BLOCK_SIZE,
        ecb_image(ecb_image(data, key, true, blocks), key, false, blocks) == data.take(
            blocks * BLOCK_SIZE,
        ),
    decreases blocks,
{
    if blocks > 0 {
        let fewer = (blocks - 1) as nat;
        lemma_ecb_blocks_round_trip(data, key, fewer);
        let before = ecb_image(data, key, true, fewer);
        let block = block_at(data, blocks - 1);
        let image = aes128_block(block, key, true);
        let after = before + image;
        assert(after.take(before.len() as int) =~= before);
        lemma_ecb_image_prefix(before, after, key, false, fewer);
        assert(block_at(after, blocks - 1) =~= image);
        assert(data.take(blocks * BLOCK_SIZE) =~= data.take(fewer * BLOCK_SIZE) + block);
    } else {
        assert(data.take(0) =~= Seq::<u8>::empty());
    }
}

/// Under an invertible block cipher, the first blocks of a buffer encrypted
/// in CBC mode decrypt to those blocks.
pub proof fn lemma_cbc_blocks_round_trip(data: Seq<u8>, key: Seq<u8>, iv: Seq<u8>, blocks: nat)
    requires
        aes128_inverts(key),
        iv.len() == BLOCK_SIZE,
        blocks * BLOCK_SIZE <= data.len(),
    ensures
        cbc_encrypted(data, key, iv, blocks).len() == blocks * BLOCK_SIZE,
        cbc_decrypted(cbc_encrypted(data, key, iv, blocks), key, iv, blocks) == data.take(
            blocks * BLOCK_SIZE,
        ),
    decreases blocks,
{
    if blocks > 0 {
        let fewer = (blocks - 1) as nat;
        lemma_cbc_blocks_round_trip(data, key, iv, fewer);
        let before = cbc_encrypted(data, key, iv, fewer);
        let block = block_at(data, blocks - 1);
        let previous = cbc_previous(before, iv, blocks - 1);
        let mixed = xor_fixed(block, previous);
        let image = aes128_block(mixed, key, true);
        let after = before + image;
        assert(after.take(before.len() as int) =~= before);
        lemma_cbc_decrypted_prefix(before, after, key, iv, fewer);
        assert(block_at(after, blocks - 1) =~= image);
        if blocks > 1 {
            lemma_block_of_prefix(before, after, blocks - 2);
        }
        assert(cbc_previous(after, iv, blocks - 1) == previous);
        lemma_xor_fixed_involution(block, previous);
        assert(data.take(blocks * BLOCK_SIZE) =~= data.take(fewer * BLOCK_SIZE) + block);
    } else {
        assert(data.take(0) =~= Seq::<u8>::empty());
    }
}

/// Under an invertible block cipher, decrypting in ECB mode what was
/// encrypted in ECB mode gives the plaintext back, with padding and, for a
/// whole number of blocks, without.
pub proof fn lemma_ecb_round_trip(plaintext: Seq<u8>, key: Seq<u8>, pad: bool)
    requires
        aes128_inverts(key),
        pad || plaintext.len() % (BLOCK_SIZE as nat) == 0,
    ensures
        ecb_plaintext(ecb_transformed(ecb_input(plaintext, pad), key, true), key, pad) == Some(
            plaintext,
        ),
{
    let data = ecb_input(plaintext, pad);
    if pad {
        lemma_padded_length(plaintext, BLOCK_SIZE as nat);
        lemma_pad_unpad(plaintext, BLOCK_SIZE as nat);
    }
    let blocks = data.len() / (BLOCK_SIZE as nat);
    lemma_ecb_blocks_round_trip(data, key, blocks);
    assert(data.take(blocks * BLOCK_SIZE) =~= data);
}

/// Under an invertible block cipher, decrypting in CBC mode what was
/// encrypted in CBC mode under the same key and initialization vector gives
/// the plaintext back.
pub proof fn lemma_cbc_round_trip(plaintext: Seq<u8>, key: Seq<u8>, iv: Seq<u8>)
    requires
        aes128_inverts(key),
        iv.len() == BLOCK_SIZE,
    ensures
        cbc_plaintext(cbc_ciphertext(plaintext, key, iv), key, iv) == Some(plaintext),
{
    let padded = pkcs7_padded(plaintext, BLOCK_SIZE as nat);
    lemma_padded_length(plaintext, BLOCK_SIZE as nat);
    lemma_pad_unpad(plaintext, BLOCK_SIZE as nat);
    let blocks = padded.len() / (BLOCK_SIZE as nat);
    lemma_cbc_blocks_round_trip(padded, key, iv, blocks);
    assert(padded.take(blocks * BLOCK_SIZE) =~= padded);
}

/// Appends the bytes of a block to a buffer.
fn append_block(out: &mut Vec<u8>, block: &[u8])
    ensures
        final(out)@ == old(out)@ + block@,
{
    let mut i: usize = 0;
    while i < block.len()
        invariant
            i <= block.len(),
            out@ == old(out)@ + block@.take(i as int),
        decreases block.len() - i,
    {
        out.push(block[i]);
        i += 1;
        assert(out@ =~= old(out)@ + block@.take(i as int));
    }
    assert(block@.take(i as int) =~= block@);
}

/// Runs every block of a buffer through the block cipher by itself: ECB mode
/// without padding, in either direction. A key of the wrong length and a
/// buffer that is not a whole number of blocks are rejected. Running the
/// result through the other direction gives the buffer back.
pub fn ecb_crypt(data: &[u8], key: &[u8], encrypting: bool) -> (r: Result<Vec<u8>, CryptoError>)
    ensures
        key.len() != BLOCK_SIZE ==> r == Err::<Vec<u8>, CryptoError>(
            CryptoError::InvalidKeyLength,
        ),
        key.len() == BLOCK_SIZE && data.len() % BLOCK_SIZE != 0 ==> r == Err::<
            Vec<u8>,
            CryptoError,
        >(CryptoError::LengthMismatch),
        key.len() == BLOCK_SIZE && data.len() == 0 ==> (r matches Ok(out) && out@
            == Seq::<u8>::empty()),
        key.len() == BLOCK_SIZE && data.len() % BLOCK_SIZE == 0 ==> {
            &&& r matches Ok(out) ==> {
                &&& out@ == ecb_transformed(data@, key@, encrypting)
                &&& ecb_blockwise(data@, out@, key@, encrypting)
                &&& ecb_transformed(out@, key@, !encrypting) == data@
            }
            &&& r matches Err(e) ==> e == CryptoError::CipherFailure
        },
{
    if key.len() != BLOCK_SIZE {
        return Err(CryptoError::InvalidKeyLength);
    }
    if data.len() % BLOCK_SIZE != 0 {
        return Err(CryptoError::LengthMismatch);
    }
    let blocks: usize = data.len() / BLOCK_SIZE;
    let mut out: Vec<u8> = Vec::new();
    let mut i: usize = 0;
    while i < blocks
        invariant
            key.len() == BLOCK_SIZE,
            blocks * BLOCK_SIZE == data.len(),
            i <= blocks,
            out@.len() == i * BLOCK_SIZE,
            out@ == ecb_image(data@, key@, encrypting, i as nat),
            ecb_image(out@, key@, !encrypting, i as nat) == data@.take(i * BLOCK_SIZE),
            forall|j: int|
                0 <= j < i ==> (#[trigger] aes128_block(block_at(data@, j), key@, encrypting)).len()
                    == BLOCK_SIZE,
            forall|j: int|
                0 <= j < i ==> #[trigger] block_at(out@, j) == aes128_block(
                    block_at(data@, j),
                    key@,
                    encrypting,
                ),
        decreases blocks - i,
    {
        let start: usize = i * BLOCK_SIZE;
        let block = slice_subrange(data, start, start + BLOCK_SIZE);
        let image = match crypt_block(block, key, encrypting) {
            Ok(image) => image,
            Err(e) => {
                return Err(e);
            },
        };
        let ghost before = out@;
        append_block(&mut out, image.as_slice());
        proof {
            assert(out@.take(before.len() as int) =~= before);
            lemma_ecb_image_prefix(before, out@, key@, !encrypting, i as nat);
            assert(block_at(out@, i as int) =~= image@);
            assert(data@.take((i + 1) * BLOCK_SIZE) =~= data@.take(i * BLOCK_SIZE) + block@);
            assert forall|j: int| 0 <= j < i + 1 implies #[trigger] block_at(out@, j)
                == aes128_block(block_at(data@, j), key@, encrypting) by {
                if j < i {
                    lemma_block_of_prefix(before, out@, j);
                }
            }
        }
        i += 1;
    }
    proof {
        assert(data@.take(i * BLOCK_SIZE) =~= data@);
    }
    Ok(out)
}

/// Encrypts a plaintext with AES-128 in ECB mode. With `pad` the plaintext is
/// PKCS#7-padded first; without, it has to be a whole number of blocks.
pub fn encrypt_aes_ecb(plaintext: &[u8], key: &[u8], pad: bool) -> (r: Result<
    Vec<u8>,
    CryptoError,
>)
    ensures
        key.len() != BLOCK_SIZE ==> r == Err::<Vec<u8>, CryptoError>(
            CryptoError::InvalidKeyLength,
        ),
        key.len() == BLOCK_SIZE && !pad && plaintext.len() % BLOCK_SIZE != 0 ==> r == Err::<
            Vec<u8>,
            CryptoError,
        >(CryptoError::LengthMismatch),
        key.len() == BLOCK_SIZE && !pad && plaintext.len() == 0 ==> (r matches Ok(out) && out@
            == Seq::<u8>::empty()),
        key.len() == BLOCK_SIZE && (pad || plaintext.len() % BLOCK_SIZE == 0) ==> {
            &&& r matches Ok(out) ==> {
                &&& out@ == ecb_transformed(ecb_input(plaintext@, pad), key@, true)
                &&& ecb_blockwise(ecb_input(plaintext@, pad), out@, key@, true)
                &&& ecb_plaintext(out@, key@, pad) == Some(plaintext@)
            }
            &&& r matches Err(e) ==> e == CryptoError::CipherFailure
        },
{
    if pad {
        let padded = pkcs7_pad(plaintext, BLOCK_SIZE);
        proof {
            lemma_pad_unpad(plaintext@, BLOCK_SIZE as nat);
        }
        ecb_crypt(padded.as_slice(), key, true)
    } else {
        ecb_crypt(plaintext, key, true)
    }
}

/// Decrypts a ciphertext with AES-128 in ECB mode. With `pad` the decrypted
/// blocks are PKCS#7-unpadded. The ciphertext has to be a whole number of
/// blocks.
pub fn decrypt_aes_ecb(ciphertext: &[u8], key: &[u8], pad: bool) -> (r: Result<
    Vec<u8>,
    CryptoError,
>)
    ensures
        key.len() != BLOCK_SIZE ==> r == Err::<Vec<u8>, CryptoError>(
            CryptoError::InvalidKeyLength,
        ),
        key.len() == BLOCK_SIZE && ciphertext.len() % BLOCK_SIZE != 0 ==> r == Err::<
            Vec<u8>,
            CryptoError,
        >(CryptoError::LengthMismatch),
        key.len() == BLOCK_SIZE && ciphertext.len() == 0 ==> (if pad {
            r == Err::<Vec<u8>, CryptoError>(CryptoError::InvalidPadding)
        } else {
            r matches Ok(out) && out@ == Seq::<u8>::empty()
        }),
        key.len() == BLOCK_SIZE && ciphertext.len() % BLOCK_SIZE == 0 ==> {
            &&& r matches Ok(out) ==> {
                &&& ecb_plaintext(ciphertext@, key@, pad) == Some(out@)
                &&& block_images_fit(ciphertext@, key@, false)
            }
            &&& r matches Err(e) ==> e == CryptoError::CipherFailure || (e
                == CryptoError::InvalidPadding && ecb_plaintext(ciphertext@, key@, pad) is None)
        },
{
    let raw = match ecb_crypt(ciphertext, key, false) {
        Ok(raw) => raw,
        Err(e) => {
            return Err(e);
        },
    };
    if pad {
        unpad_outcome(raw.as_slice())
    } else {
        Ok(raw)
    }
}

/// Encrypts a buffer of whole blocks in CBC mode, without padding: each
/// block is XORed with the ciphertext block before it, the initialization
/// vector for the first, and then encrypted. A key or an initialization
/// vector that is not one block long and a buffer that is not a whole number
/// of blocks are rejected. Decrypting the result gives the buffer back.
pub fn cbc_encrypt_blocks(data: &[u8], key: &[u8], iv: &[u8]) -> (r: Result<Vec<u8>, CryptoError>)
    ensures
        key.len() != BLOCK_SIZE ==> r == Err::<Vec<u8>, CryptoError>(
            CryptoError::InvalidKeyLength,
        ),
        key.len() == BLOCK_SIZE && (iv.len() != BLOCK_SIZE || data.len() % BLOCK_SIZE != 0) ==> r
            == Err::<Vec<u8>, CryptoError>(CryptoError::LengthMismatch),
        key.len() == BLOCK_SIZE && iv.len() == BLOCK_SIZE && data.len() == 0 ==> (r matches Ok(
            out,
        ) && out@ == Seq::<u8>::empty()),
        key.len() == BLOCK_SIZE && iv.len() == BLOCK_SIZE && data.len() % BLOCK_SIZE == 0 ==> {
            &&& r matches Ok(out) ==> {
                &&& out@ == cbc_encrypted(data@, key@, iv@, data@.len() / (BLOCK_SIZE as nat))
                &&& cbc_encrypted_blockwise(data@, out@, key@, iv@)
                &&& cbc_decrypted(out@, key@, iv@, out@.len() / (BLOCK_SIZE as nat)) == data@
            }
            &&& r matches Err(e) ==> e == CryptoError::CipherFailure
        },
{
    if key.len() != BLOCK_SIZE {
        return Err(CryptoError::InvalidKeyLength);
    }
    if iv.len() != BLOCK_SIZE || data.len() % BLOCK_SIZE != 0 {
        return Err(CryptoError::LengthMismatch);
    }
    let blocks: usize = data.len() / BLOCK_SIZE;
    let mut out: Vec<u8> = Vec::new();
    let mut previous: Vec<u8> = vstd::slice::slice_to_vec(iv);
    let mut i: usize = 0;
    while i < blocks
        invariant
            key.len() == BLOCK_SIZE,
            iv.len() == BLOCK_SIZE,
            blocks * BLOCK_SIZE == data.len(),
            i <= blocks,
            out@.len() == i * BLOCK_SIZE,
            previous@ == cbc_previous(out@, iv@, i as int),
            previous@.len() == BLOCK_SIZE,
            out@ == cbc_encrypted(data@, key@, iv@, i as nat),
            cbc_decrypted(out@, key@, iv@, i as nat) == data@.take(i * BLOCK_SIZE),
            forall|j: int|
                0 <= j < i ==> {
                    &&& #[trigger] block_at(out@, j) == aes128_block(
                        xor_fixed(block_at(data@, j), cbc_previous(out@, iv@, j)),
                        key@,
                        true,
                    )
                    &&& aes128_block(
                        xor_fixed(block_at(data@, j), cbc_previous(out@, iv@, j)),
                        key@,
                        true,
                    ).len() == BLOCK_SIZE
                },
        decreases blocks - i,
    {
        let start: usize = i * BLOCK_SIZE;
        let block = slice_subrange(data, start, start + BLOCK_SIZE);
        let mixed = xor_equal(block, previous.as_slice());
        let encrypted = match crypt_block(mixed.as_slice(), key, true) {
            Ok(encrypted) => encrypted,
            Err(e) => {
                return Err(e);
            },
        };
        let ghost before = out@;
        append_block(&mut out, encrypted.as_slice());
        proof {
            assert(out@.take(before.len() as int) =~= before);
            lemma_cbc_decrypted_prefix(before, out@, key@, iv@, i as nat);
            assert(block_at(out@, i as int) =~= encrypted@);
            if i > 0 {
                lemma_block_of_prefix(before, out@, i - 1);
            }
            assert(cbc_previous(out@, iv@, i as int) == previous@);
            lemma_xor_fixed_involution(block@, previous@);
            assert(data@.take((i + 1) * BLOCK_SIZE) =~= data@.take(i * BLOCK_SIZE) + block@);
            assert forall|j: int| 0 <= j < i + 1 implies {
                &&& #[trigger] block_at(out@, j) == aes128_block(
                    xor_fixed(block_at(data@, j), cbc_previous(out@, iv@, j)),
                    key@,
                    true,
                )
                &&& aes128_block(
                    xor_fixed(block_at(data@, j), cbc_previous(out@, iv@, j)),
                    key@,
                    true,
                ).len() == BLOCK_SIZE
            } by {
                if j < i {
                    lemma_block_of_prefix(before, out@, j);
                    if j > 0 {
                        lemma_block_of_prefix(before, out@, j - 1);
                    }
                    assert(cbc_previous(out@, iv@, j) == cbc_previous(before, iv@, j));
                    assert(block_at(before, j) == aes128_block(
                        xor_fixed(block_at(data@, j), cbc_previous(before, iv@, j)),
                        key@,
                        true,
                    ));
                }
            }
        }
        previous = encrypted;
        i += 1;
    }
    proof {
        assert(data@.take(i * BLOCK_SIZE) =~= data@);
    }
    Ok(out)
}

/// Decrypts a ciphertext in CBC mode, without unpadding: each block is
/// decrypted and then XORed with the ciphertext block before it, the
/// initialization vector for the first. A key or an initialization vector
/// that is not one block long and a ciphertext that is not a whole number of
/// blocks are rejected.
pub fn cbc_decrypt_blocks(ciphertext: &[u8], key: &[u8], iv: &[u8]) -> (r: Result<
    Vec<u8>,
    CryptoError,
>)
    ensures
        key.len() != BLOCK_SIZE ==> r == Err::<Vec<u8>, CryptoError>(
            CryptoError::InvalidKeyLength,
        ),
        key.len() == BLOCK_SIZE && (iv.len() != BLOCK_SIZE || ciphertext.len() % BLOCK_SIZE != 0)
            ==> r == Err::<Vec<u8>, CryptoError>(CryptoError::LengthMismatch),
        key.len() == BLOCK_SIZE && iv.len() == BLOCK_SIZE && ciphertext.len() == 0 ==> (
        r matches Ok(out) && out@ == Seq::<u8>::empty()),
        key.len() == BLOCK_SIZE && iv.len() == BLOCK_SIZE && ciphertext.len() % BLOCK_SIZE == 0
            ==> {
            &&& r matches Ok(out) ==> {
                &&& out@ == cbc_decrypted(
                    ciphertext@,
                    key@,
                    iv@,
                    ciphertext@.len() / (BLOCK_SIZE as nat),
                )
                &&& cbc_decrypted_blockwise(ciphertext@, out@, key@, iv@)
            }
            &&& r matches Err(e) ==> e == CryptoError::CipherFailure
        },
{
    if key.len() != BLOCK_SIZE {
        return Err(CryptoError::InvalidKeyLength);
    }
    if iv.len() != BLOCK_SIZE || ciphertext.len() % BLOCK_SIZE != 0 {
        return Err(CryptoError::LengthMismatch);
    }
    let blocks: usize = ciphertext.len() / BLOCK_SIZE;
    let mut out: Vec<u8> = Vec::new();
    let mut i: usize = 0;
    while i < blocks
        invariant
            key.len() == BLOCK_SIZE,
            iv.len() == BLOCK_SIZE,
            blocks * BLOCK_SIZE == ciphertext.len(),
            i <= blocks,
            out@.len() == i * BLOCK_SIZE,
            out@ == cbc_decrypted(ciphertext@, key@, iv@, i as nat),
            forall|j: int|
                0 <= j < i ==> (#[trigger] aes128_block(block_at(ciphertext@, j), key@, false)).len()
                    == BLOCK_SIZE,
            forall|j: int|
                0 <= j < i ==> #[trigger] block_at(out@, j) == xor_fixed(
                    aes128_block(block_at(ciphertext@, j), key@, false),
                    cbc_previous(ciphertext@, iv@, j),
                ),
        decreases blocks - i,
    {
        let start: usize = i * BLOCK_SIZE;
        let block = slice_subrange(ciphertext, start, start + BLOCK_SIZE);
        let previous = if i == 0 {
            iv
        } else {
            slice_subrange(ciphertext, start - BLOCK_SIZE, start)
        };
        let decrypted = match crypt_block(block, key, false) {
            Ok(decrypted) => decrypted,
            Err(e) => {
                return Err(e);
            },
        };
        let plain = xor_equal(decrypted.as_slice(), previous);
        let ghost before = out@;
        append_block(&mut out, plain.as_slice());
        proof {
            assert(out@.take(before.len() as int) =~= before);
            assert(block_at(out@, i as int) =~= plain@);
            assert forall|j: int| 0 <= j < i + 1 implies #[trigger] block_at(out@, j) == xor_fixed(
                aes128_block(block_at(ciphertext@, j), key@, false),
                cbc_previous(ciphertext@, iv@, j),
            ) by {
                if j < i {
                    lemma_block_of_prefix(before, out@, j);
                }
            }
        }
        i += 1;
    }
    Ok(out)
}

/// Encrypts a plaintext with AES-128 in CBC mode: the plaintext is
/// PKCS#7-padded, and each block is XORed with the ciphertext block before
/// it, the initialization vector for the first, and then encrypted. A key or
/// an initialization vector that is not one block long is rejected.
/// Decrypting the result under the same key and vector gives the plaintext
/// back.
pub fn encrypt_aes_cbc(plaintext: &[u8], key: &[u8], iv: &[u8]) -> (r: Result<
    Vec<u8>,
    CryptoError,
>)
    ensures
        key.len() != BLOCK_SIZE ==> r == Err::<Vec<u8>, CryptoError>(
            CryptoError::InvalidKeyLength,
        ),
        key.len() == BLOCK_SIZE && iv.len() != BLOCK_SIZE ==> r == Err::<Vec<u8>, CryptoError>(
            CryptoError::LengthMismatch,
        ),
        key.len() == BLOCK_SIZE && iv.len() == BLOCK_SIZE ==> {
            &&& r matches Ok(out) ==> {
                &&& out@ == cbc_ciphertext(plaintext@, key@, iv@)
                &&& cbc_encrypted_blockwise(
                    pkcs7_padded(plaintext@, BLOCK_SIZE as nat),
                    out@,
                    key@,
                    iv@,
                )
                &&& cbc_plaintext(out@, key@, iv@) == Some(plaintext@)
            }
            &&& r matches Err(e) ==> e == CryptoError::CipherFailure
        },
{
    let padded = pkcs7_pad(plaintext, BLOCK_SIZE);
    proof {
        lemma_pad_unpad(plaintext@, BLOCK_SIZE as nat);
    }
    cbc_encrypt_blocks(padded.as_slice(), key, iv)
}

/// Decrypts a ciphertext with AES-128 in CBC mode: each block is decrypted
/// and then XORed with the ciphertext block before it, the initialization
/// vector for the first; the result is PKCS#7-unpadded. A key or an
/// initialization vector that is not one block long and a ciphertext that is
/// not a whole number of blocks are rejected.
pub fn decrypt_aes_cbc(ciphertext: &[u8], key: &[u8], iv: &[u8]) -> (r: Result<
    Vec<u8>,
    CryptoError,
>)
    ensures
        key.len() != BLOCK_SIZE ==> r == Err::<Vec<u8>, CryptoError>(
            CryptoError::InvalidKeyLength,
        ),
        key.len() == BLOCK_SIZE && (iv.len() != BLOCK_SIZE || ciphertext.len() % BLOCK_SIZE != 0)
            ==> r == Err::<Vec<u8>, CryptoError>(CryptoError::LengthMismatch),
        key.len() == BLOCK_SIZE && iv.len() == BLOCK_SIZE && ciphertext.len() == 0 ==> r == Err::<
            Vec<u8>,
            CryptoError,
        >(CryptoError::InvalidPadding),
        key.len() == BLOCK_SIZE && iv.len() == BLOCK_SIZE && ciphertext.len() % BLOCK_SIZE == 0
            ==> {
            &&& r matches Ok(out) ==> {
                &&& cbc_plaintext(ciphertext@, key@, iv@) == Some(out@)
                &&& block_images_fit(ciphertext@, key@, false)
            }
            &&& r matches Err(e) ==> e == CryptoError::CipherFailure || (e
                == CryptoError::InvalidPadding && cbc_plaintext(ciphertext@, key@, iv@) is None)
        },
{
    let raw = match cbc_decrypt_blocks(ciphertext, key, iv) {
        Ok(raw) => raw,
        Err(e) => {
            return Err(e);
        },
    };
    unpad_outcome(raw.as_slice())
}

} // verus!
