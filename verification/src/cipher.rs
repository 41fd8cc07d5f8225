//! The cipher applied to one byte range: DES in electronic-codebook mode
//! with PKCS#7 padding, as the `des` and `block-modes` crates implement it.
//!
//! DES itself is not modelled. The two results that the crates compute are
//! given names, [`des_ecb_encrypt`] and [`des_ecb_decrypt`], and the
//! contracts of this library are stated over those names.

use crate::key::{NormalizedKey, BLOCK_SIZE};
use block_modes::block_padding::Pkcs7;
use block_modes::{BlockMode, BlockModeError, Ecb};
use des::Des;
use vstd::prelude::*;

verus! {

/// Direction of the cipher.
#[derive(Clone, Copy, Debug, PartialEq, Eq)]
pub enum Mode {
    /// Pad, then encipher.
    Encrypt,
    /// Decipher, then strip the padding.
    Decrypt,
}

/// Decryption refused its input: the length is not a whole number of blocks,
/// or the deciphered bytes do not end in a legal padding.
#[derive(Clone, Copy, Debug, PartialEq, Eq)]
pub struct CipherError;

/// The initialization vector handed to the cipher. The codebook mode chains
/// nothing, so the vector only satisfies the cipher's interface.
pub const ZERO_IV: [u8; BLOCK_SIZE] = [0, 0, 0, 0, 0, 0, 0, 0];

/// `block_modes::BlockModeError`, the error of `decrypt_vec`. It carries no
/// data.
#[verifier::external_type_specification]
#[verifier::external_body]
pub struct ExBlockModeError(BlockModeError);

/// The bytes that `encrypt_vec` of `Ecb<Des, Pkcs7>` returns for a key of
/// eight bytes and a plaintext.
pub uninterp spec fn des_ecb_encrypt(key: Seq<u8>, plaintext: Seq<u8>) -> Seq<u8>;

/// What `decrypt_vec` of `Ecb<Des, Pkcs7>` returns for a key of eight bytes
/// and a ciphertext: the plaintext, or `None` where it reports an error.
pub uninterp spec fn des_ecb_decrypt(key: Seq<u8>, ciphertext: Seq<u8>) -> Option<Seq<u8>>;

/// Length of the ciphertext of `len` plaintext bytes: the next multiple of
/// the block size above `len`. The padding is between one byte and a whole
/// block, so an aligned input grows by a full block.
pub open spec fn padded_len(len: int) -> int {
    (len / (BLOCK_SIZE as int) + 1) * (BLOCK_SIZE as int)
}

/// The padded length is a whole number of blocks, and it exceeds the length
/// by at least one byte and at most a block.
pub proof fn lemma_padded_len(len: int)
    requires
        0 <= len,
    ensures
        padded_len(len) % (BLOCK_SIZE as int) == 0,
        len < padded_len(len) <= len + BLOCK_SIZE,
        len % (BLOCK_SIZE as int) == 0 ==> padded_len(len) == len + BLOCK_SIZE,
{
}

/// What one cipher call on `bytes` has shown of the named results at that
/// point. Encryption: the output has the padded length, and decryption takes
/// it back to `bytes`. Decryption: an input that is no whole number of blocks
/// is refused, and a plaintext is shorter than its ciphertext.
pub open spec fn observed(mode: Mode, key: Seq<u8>, bytes: Seq<u8>) -> bool {
    match mode {
        Mode::Encrypt => {
            &&& des_ecb_encrypt(key, bytes).len() == padded_len(bytes.len() as int)
            &&& des_ecb_decrypt(key, des_ecb_encrypt(key, bytes)) == Some(bytes)
        },
        Mode::Decrypt => {
            &&& bytes.len() % (BLOCK_SIZE as nat) != 0 ==> des_ecb_decrypt(key, bytes) is None
            &&& des_ecb_decrypt(key, bytes) matches Some(plaintext) ==> plaintext.len()
                < bytes.len()
        },
    }
}

/// The result of the cipher on one range, over the named results.
pub open spec fn cipher_output(mode: Mode, key: Seq<u8>, bytes: Seq<u8>) -> Result<
    Seq<u8>,
    CipherError,
> {
    match mode {
        Mode::Encrypt => Ok(des_ecb_encrypt(key, bytes)),
        Mode::Decrypt => match des_ecb_decrypt(key, bytes) {
            Some(plaintext) => Ok(plaintext),
            None => Err(CipherError),
        },
    }
}

/// A result with its bytes taken as a sequence.
pub open spec fn output_view(result: Result<Vec<u8>, CipherError>) -> Result<
    Seq<u8>,
    CipherError,
> {
    match result {
        Ok(bytes) => Ok(bytes@),
        Err(e) => Err(e),
    }
}

/// Calls `Ecb::<Des, Pkcs7>::new_var` and `BlockMode::encrypt_vec`.
///
/// Trusted: the result is the named ciphertext; it is `plaintext` padded by
/// PKCS#7 to the next multiple of eight bytes, so it has the padded length;
/// and `decrypt_vec` under the same key gives `plaintext` back. The mode
/// never reads `iv`. A key of eight bytes is always accepted.
#[verifier::external_body]
fn ecb_encrypt(key: &[u8; BLOCK_SIZE], iv: &[u8; BLOCK_SIZE], plaintext: &[u8]) -> (ciphertext:
    Vec<u8>)
    ensures
        ciphertext@ == des_ecb_encrypt(key@, plaintext@),
        ciphertext@.len() == padded_len(plaintext@.len() as int),
        des_ecb_decrypt(key@, ciphertext@) == Some(plaintext@),
{
    Ecb::<Des, Pkcs7>::new_var(key, iv).unwrap().encrypt_vec(plaintext)
}

/// Calls `Ecb::<Des, Pkcs7>::new_var` and `BlockMode::decrypt_vec`.
///
/// Trusted: the result is the named plaintext, an error standing for `None`;
/// a ciphertext whose length is no multiple of eight is refused before any
/// block is deciphered; and stripping the padding removes at least one byte.
/// The mode never reads `iv`. A key of eight bytes is always accepted.
#[verifier::external_body]
fn ecb_decrypt(key: &[u8; BLOCK_SIZE], iv: &[u8; BLOCK_SIZE], ciphertext: &[u8]) -> (plaintext:
    Result<Vec<u8>, BlockModeError>)
    ensures
        match plaintext {
            Ok(bytes) => des_ecb_decrypt(key@, ciphertext@) == Some(bytes@),
            Err(_) => des_ecb_decrypt(key@, ciphertext@) is None,
        },
        ciphertext@.len() % (BLOCK_SIZE as nat) != 0 ==> plaintext is Err,
        plaintext matches Ok(bytes) ==> bytes@.len() < ciphertext@.len(),
{
    Ecb::<Des, Pkcs7>::new_var(key, iv).unwrap().decrypt_vec(ciphertext)
}

/// Applies the cipher to one range of bytes, padded on its own.
///
/// Encryption always succeeds, and its output is longer than the range by
/// the padding: at least one byte, at most a block. Decryption strips the
/// padding; it fails exactly where the cipher refuses the range, as it does
/// every range that is no whole number of blocks.
pub fn apply(mode: Mode, range_bytes: &[u8], key: &NormalizedKey) -> (output: Result<
    Vec<u8>,
    CipherError,
>)
    ensures
        output_view(output) == cipher_output(mode, key@, range_bytes@),
        observed(mode, key@, range_bytes@),
        mode is Encrypt ==> (output matches Ok(bytes) && bytes@.len() == padded_len(
            range_bytes@.len() as int,
        )),
        mode is Decrypt && range_bytes@.len() % (BLOCK_SIZE as nat) != 0 ==> output is Err,
        mode is Decrypt ==> (output matches Ok(bytes) ==> bytes@.len() < range_bytes@.len()),
{
    match mode {
        Mode::Encrypt => Ok(ecb_encrypt(&key.bytes, &ZERO_IV, range_bytes)),
        Mode::Decrypt => match ecb_decrypt(&key.bytes, &ZERO_IV, range_bytes) {
            Ok(bytes) => Ok(bytes),
            Err(_) => Err(CipherError),
        },
    }
}

} // verus!
