use vstd::prelude::*;

use aes::cipher::block_padding::NoPadding;
use aes::cipher::generic_array::typenum::consts::U16;
use aes::cipher::generic_array::GenericArray;
use aes::cipher::inout::NotEqualError;
use aes::cipher::{BlockDecryptMut, KeyIvInit};
use sha2::{Digest, Sha512};

verus! {

/// The SHA-512 digest of `data`.
pub uninterp spec fn sha512(data: Seq<u8>) -> Seq<u8>;

/// AES-256 decryption of the 16-byte block `block` under the 32-byte key `key`.
pub uninterp spec fn aes256_decrypt_block(key: Seq<u8>, block: Seq<u8>) -> Seq<u8>;

/// Byte-wise exclusive or of two blocks of equal length.
pub open spec fn xor_block(a: Seq<u8>, b: Seq<u8>) -> Seq<u8> {
    Seq::new(a.len(), |i: int| a[i] ^ b[i])
}

/// The ciphertext block that is xored into plaintext block `i` in CBC mode:
/// `iv` for the first block, ciphertext block `i - 1` for the others.
pub open spec fn cbc_chain_block(iv: Seq<u8>, ciphertext: Seq<u8>, i: int) -> Seq<u8> {
    if i == 0 {
        iv
    } else {
        ciphertext.subrange(16 * (i - 1), 16 * i)
    }
}

/// Ciphertext block `i` (bytes `16 * i .. 16 * i + 16`).
pub open spec fn cipher_block(ciphertext: Seq<u8>, i: int) -> Seq<u8> {
    ciphertext.subrange(16 * i, 16 * i + 16)
}

/// The CBC decryption laws for `plaintext`, given the block decryptions in
/// `decrypted`: it is as long as `ciphertext`, and each of its 16-byte blocks is
/// the decrypted ciphertext block xored with the previous ciphertext block.
pub open spec fn is_cbc_decryption(
    key: Seq<u8>,
    iv: Seq<u8>,
    ciphertext: Seq<u8>,
    plaintext: Seq<u8>,
    decrypted: spec_fn(int) -> Seq<u8>,
) -> bool {
    &&& plaintext.len() == ciphertext.len()
    &&& forall|i: int|
        0 <= i < ciphertext.len() / 16 ==> #[trigger] plaintext.subrange(16 * i, 16 * i + 16)
            == xor_block(decrypted(i), cbc_chain_block(iv, ciphertext, i))
}

/// CBC-mode decryption with AES-256 of a ciphertext made of whole 16-byte blocks:
/// plaintext block `i` is the AES-256 decryption of ciphertext block `i`, xored
/// with ciphertext block `i - 1` (with `iv` before the first block).
pub open spec fn cbc_decrypt(key: Seq<u8>, iv: Seq<u8>, ciphertext: Seq<u8>) -> Seq<u8> {
    Seq::new(
        ciphertext.len(),
        |j: int|
            aes256_decrypt_block(key, cipher_block(ciphertext, j / 16))[j % 16]
                ^ cbc_chain_block(iv, ciphertext, j / 16)[j % 16],
    )
}

/// A sequence that satisfies the CBC decryption laws is the CBC decryption.
proof fn lemma_cbc_decryption_unique(key: Seq<u8>, iv: Seq<u8>, ciphertext: Seq<u8>, plaintext: Seq<u8>)
    requires
        ciphertext.len() % 16 == 0,
        iv.len() == 16,
        is_cbc_decryption(
            key,
            iv,
            ciphertext,
            plaintext,
            |i: int| aes256_decrypt_block(key, cipher_block(ciphertext, i)),
        ),
    ensures
        plaintext == cbc_decrypt(key, iv, ciphertext),
{
    let expected = cbc_decrypt(key, iv, ciphertext);
    assert forall|j: int| 0 <= j < plaintext.len() implies plaintext[j] == expected[j] by {
        let i = j / 16;
        let block = plaintext.subrange(16 * i, 16 * i + 16);
        assert(block == xor_block(
            aes256_decrypt_block(key, cipher_block(ciphertext, i)),
            cbc_chain_block(iv, ciphertext, i),
        ));
        assert(plaintext[j] == block[j % 16]);
    }
    assert(plaintext =~= expected);
}

#[verifier::external_type_specification]
#[verifier::external_body]
pub struct ExNotEqualError(NotEqualError);

/// Calls `sha2::Sha512::digest` on `data`. Claimed: the result is the SHA-512
/// digest of `data`, which is 64 bytes long.
#[verifier::external_body]
pub(crate) fn sha512_digest(data: &[u8]) -> (digest: Vec<u8>)
    ensures
        digest@ == sha512(data@),
        digest@.len() == 64,
{
    Sha512::digest(data).to_vec()
}

/// Creates a `cbc::Decryptor<aes::Aes256>` from `key` and `iv` and calls its
/// `decrypt_padded_b2b_mut::<NoPadding>` on `ciphertext`. Claimed, as the source
/// of `cipher` and `block-padding` shows: the call fails exactly when the length
/// of `ciphertext` is not a multiple of the block size, with an `UnpadError`
/// whose message is "Unpad Error"; otherwise the result is the CBC decryption of
/// `ciphertext`, as long as `ciphertext`. `key` and `iv` must have the cipher's
/// key and block sizes, or the conversion panics.
#[verifier::external_body]
fn aes256_cbc_decrypt_raw(key: &[u8], iv: &[u8], ciphertext: &[u8]) -> (r: Result<
    Vec<u8>,
    String,
>)
    requires
        key@.len() == 32,
        iv@.len() == 16,
    ensures
        match r {
            Ok(plaintext) => ciphertext@.len() % 16 == 0 && is_cbc_decryption(
                key@,
                iv@,
                ciphertext@,
                plaintext@,
                |i: int| aes256_decrypt_block(key@, cipher_block(ciphertext@, i)),
            ),
            Err(message) => ciphertext@.len() % 16 != 0 && message@ == "Unpad Error"@,
        },
{
    let mut plaintext = vec![0u8; ciphertext.len()];
    let decryptor = cbc::Decryptor::<aes::Aes256>::new(key.into(), iv.into());
    match decryptor.decrypt_padded_b2b_mut::<NoPadding>(ciphertext, &mut plaintext) {
        Ok(_) => Ok(plaintext),
        Err(e) => Err(format!("{e}")),
    }
}

/// Creates a `cbc::Decryptor<aes::Aes256>` from `key` and `iv` and calls its
/// `decrypt_blocks_b2b_mut` on the two 16-byte blocks of `ciphertext`. Claimed,
/// as the source of `cipher` and `inout` shows: with as many output blocks as
/// input blocks the call succeeds, and the result is the CBC decryption of
/// `ciphertext`.
#[verifier::external_body]
fn aes256_cbc_decrypt_two_blocks_raw(key: &[u8], iv: &[u8], ciphertext: &[u8]) -> (r:
    Result<Vec<u8>, NotEqualError>)
    requires
        key@.len() == 32,
        iv@.len() == 16,
        ciphertext@.len() == 32,
    ensures
        match r {
            Ok(plaintext) => is_cbc_decryption(
                key@,
                iv@,
                ciphertext@,
                plaintext@,
                |i: int| aes256_decrypt_block(key@, cipher_block(ciphertext@, i)),
            ),
            Err(_) => false,
        },
{
    let mut decryptor = cbc::Decryptor::<aes::Aes256>::new(key.into(), iv.into());
    let i1: GenericArray<u8, U16> = GenericArray::clone_from_slice(&ciphertext[..16]);
    let i2: GenericArray<u8, U16> = GenericArray::clone_from_slice(&ciphertext[16..]);
    let mut out: [GenericArray<u8, U16>; 2] = Default::default();
    decryptor.decrypt_blocks_b2b_mut(&[i1, i2], &mut out)?;
    Ok([out[0].as_slice(), out[1].as_slice()].concat())
}

/// Decrypts `ciphertext` with AES-256 in CBC mode: fails exactly when its
/// length is not a multiple of 16 (with the message "Unpad Error"), and
/// otherwise returns its CBC decryption.
pub fn aes256_cbc_decrypt(key: &[u8], iv: &[u8], ciphertext: &[u8]) -> (r: Result<Vec<u8>, String>)
    requires
        key@.len() == 32,
        iv@.len() == 16,
    ensures
        match r {
            Ok(plaintext) => ciphertext@.len() % 16 == 0 && plaintext@ == cbc_decrypt(key@, iv@, ciphertext@),
            Err(message) => ciphertext@.len() % 16 != 0 && message@ == "Unpad Error"@,
        },
{
    let r = aes256_cbc_decrypt_raw(key, iv, ciphertext);
    if let Ok(plaintext) = &r {
        proof {
            lemma_cbc_decryption_unique(key@, iv@, ciphertext@, plaintext@);
        }
    }
    r
}

/// Decrypts the two 16-byte blocks of `ciphertext` with AES-256 in CBC mode.
pub fn aes256_cbc_decrypt_two_blocks(key: &[u8], iv: &[u8], ciphertext: &[u8]) -> (r: Result<Vec<u8>, NotEqualError>)
    requires
        key@.len() == 32,
        iv@.len() == 16,
        ciphertext@.len() == 32,
    ensures
        r matches Ok(plaintext) && plaintext@ == cbc_decrypt(key@, iv@, ciphertext@),
{
    let r = aes256_cbc_decrypt_two_blocks_raw(key, iv, ciphertext);
    if let Ok(plaintext) = &r {
        proof {
            lemma_cbc_decryption_unique(key@, iv@, ciphertext@, plaintext@);
        }
    }
    r
}

} // verus!
