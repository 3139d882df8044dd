use vstd::prelude::*;
use vstd::slice::slice_to_vec;
use crate::error::CryptoError;

verus! {

/// The number of bytes that PKCS#7 appends to an input of `len` bytes: what is
/// missing to the next multiple of the block size, and a whole block where
/// nothing is missing.
pub open spec fn padding_length(len: nat, block_size: nat) -> nat {
    (block_size - len % block_size) as nat
}

/// The largest block size that can be padded to: the number of bytes added
/// has to fit the byte that holds it.
pub const BLOCK_SIZE_MAX: usize = 255;

/// The input with its PKCS#7 padding: `n` bytes are appended, each holding
/// `n`.
pub open spec fn pkcs7_padded(input: Seq<u8>, block_size: nat) -> Seq<u8>
    recommends
        1 <= block_size <= BLOCK_SIZE_MAX,
{
    let n = padding_length(input.len(), block_size);
    input + Seq::new(n, |i: int| n as u8)
}

/// A buffer can be unpadded: it has a last byte, and holds at least as many
/// bytes as that byte says.
pub open spec fn can_unpad(input: Seq<u8>) -> bool {
    input.len() >= 1 && input.last() <= input.len()
}

/// The buffer without its padding: the last byte says how many bytes go. The
/// bytes that go are not looked at.
pub open spec fn pkcs7_unpadded(input: Seq<u8>) -> Seq<u8> {
    input.take(input.len() - input.last())
}

/// A padded buffer is longer than the input by one byte at least and one
/// block at most, and its length is a multiple of the block size.
pub proof fn lemma_padded_length(input: Seq<u8>, block_size: nat)
    requires
        block_size >= 1,
    ensures
        1 <= padding_length(input.len(), block_size) <= block_size,
        pkcs7_padded(input, block_size).len() == input.len() + padding_length(
            input.len(),
            block_size,
        ),
        pkcs7_padded(input, block_size).len() % block_size == 0,
        pkcs7_padded(input, block_size).len() >= block_size,
{
    let len = input.len() as int;
    let size = block_size as int;
    vstd::arithmetic::div_mod::lemma_fundamental_div_mod(len, size);
    vstd::arithmetic::div_mod::lemma_mod_bound(len, size);
    let q = len / size;
    let r = len % size;
    assert(len + size - r == (q + 1) * size + 0) by (nonlinear_arith)
        requires
            len == size * q + r,
    ;
    vstd::arithmetic::div_mod::lemma_fundamental_div_mod_converse(len + size - r, size, q + 1, 0);
    assert((q + 1) * size >= size) by (nonlinear_arith)
        requires
            q >= 0,
            size >= 1,
    ;
}

/// Unpadding what was padded gives the input back.
pub proof fn lemma_pad_unpad(input: Seq<u8>, block_size: nat)
    requires
        1 <= block_size <= BLOCK_SIZE_MAX,
    ensures
        can_unpad(pkcs7_padded(input, block_size)),
        pkcs7_unpadded(pkcs7_padded(input, block_size)) == input,
{
    lemma_padded_length(input, block_size);
    let padded = pkcs7_padded(input, block_size);
    let n = padding_length(input.len(), block_size);
    assert(padded.last() == n as u8);
    assert(padded.take(padded.len() - n) =~= input);
}

/// Pads an input to a multiple of the block size. A whole block is appended
/// where the input already is such a multiple, so the padding is never empty.
/// The block size is 255 at most, so that a byte can hold the number of bytes
/// added.
pub fn pkcs7_pad(input: &[u8], block_size: usize) -> (r: Vec<u8>)
    requires
        1 <= block_size <= BLOCK_SIZE_MAX,
    ensures
        r@ == pkcs7_padded(input@, block_size as nat),
        r@.len() == input@.len() + padding_length(input@.len(), block_size as nat),
        r@.len() % (block_size as nat) == 0,
        r@.len() >= block_size,
        can_unpad(r@),
        pkcs7_unpadded(r@) == input@,
{
    let padding: usize = block_size - input.len() % block_size;
    let fill: u8 = padding as u8;
    let mut result = slice_to_vec(input);
    let mut i: usize = 0;
    while i < padding
        invariant
            i <= padding,
            result@ == input@ + Seq::new(i as nat, |j: int| fill),
        decreases padding - i,
    {
        result.push(fill);
        i += 1;
        assert(result@ =~= input@ + Seq::new(i as nat, |j: int| fill));
    }
    proof {
        lemma_padded_length(input@, block_size as nat);
        assert(result@ =~= pkcs7_padded(input@, block_size as nat));
        lemma_pad_unpad(input@, block_size as nat);
    }
    result
}

/// Removes the padding of a buffer: as many bytes as its last byte says. The
/// removed bytes are not checked.
pub fn pkcs7_unpad(input: &[u8]) -> (r: Vec<u8>)
    requires
        can_unpad(input@),
    ensures
        r@ == pkcs7_unpadded(input@),
{
    let padding: usize = input[input.len() - 1] as usize;
    let mut result = slice_to_vec(input);
    result.truncate(input.len() - padding);
    assert(result@ =~= pkcs7_unpadded(input@));
    result
}

/// Removes the padding of a buffer where that can be done, and rejects the
/// buffer where not: where it is empty, or its last byte asks for more bytes
/// than it holds.
pub fn unpad_outcome(raw: &[u8]) -> (r: Result<Vec<u8>, CryptoError>)
    ensures
        can_unpad(raw@) ==> (r matches Ok(v) && v@ == pkcs7_unpadded(raw@)),
        !can_unpad(raw@) ==> r == Err::<Vec<u8>, CryptoError>(CryptoError::InvalidPadding),
{
    if raw.len() == 0 || raw[raw.len() - 1] as usize > raw.len() {
        return Err(CryptoError::InvalidPadding);
    }
    Ok(pkcs7_unpad(raw))
}

} // verus!
