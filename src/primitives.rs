//! The outside primitives the encoder relies on: a seeded random generator,
//! PBKDF2, AES-256-CBC and Base64.
use vstd::prelude::*;
use crate::format::{aes256_cbc_pkcs7, base64_encode, padded_len, pbkdf2_hmac_sha256};
use aes::cipher::block_padding::Pkcs7;
use aes::cipher::{BlockDecryptMut, BlockEncryptMut, KeyIvInit};
use base64::Engine;
use rand::SeedableRng;
use rand::RngCore;
use rand_chacha::ChaCha20Rng;

verus! {

#[verifier::external_type_specification]
#[verifier::external_body]
pub struct ExChaCha20Rng(rand_chacha::ChaCha20Rng);

#[verifier::external_type_specification]
#[verifier::external_body]
pub struct ExRandError(rand::Error);

#[verifier::external_type_specification]
#[verifier::external_body]
pub struct ExBase64DecodeError(base64::DecodeError);

#[verifier::external_type_specification]
#[verifier::external_body]
pub struct ExUnpadError(aes::cipher::block_padding::UnpadError);

/// Relies on rand_core's `SeedableRng::from_rng` with `rand::rngs::OsRng`: a
/// ChaCha20 generator seeded from the operating system, or the error of the
/// entropy source. Nothing is known of the seed.
#[verifier::external_body]
pub(crate) fn seeded_generator() -> (r: Result<ChaCha20Rng, rand::Error>) {
    ChaCha20Rng::from_rng(rand::rngs::OsRng)
}

/// Relies on `RngCore::fill_bytes` of ChaCha20Rng: overwrites the buffer with
/// fresh output of the generator. Nothing is known of the bytes.
#[verifier::external_body]
pub(crate) fn fill_random(rng: &mut ChaCha20Rng, buf: &mut [u8; 16]) {
    rng.fill_bytes(buf)
}

/// Relies on `pbkdf2::pbkdf2_hmac_array::<sha2::Sha256, 32>`: the 32-byte
/// PBKDF2-HMAC-SHA256 output, a function of password, salt and rounds alone.
#[verifier::external_body]
pub(crate) fn pbkdf2_sha256(password: &[u8], salt: &[u8], rounds: u32) -> (r: [u8; 32])
    ensures
        r@ == pbkdf2_hmac_sha256(password@, salt@, rounds as nat),
{
    pbkdf2::pbkdf2_hmac_array::<sha2::Sha256, 32>(password, salt, rounds)
}

/// Relies on `cbc::Encryptor::<aes::Aes256>` built with `KeyIvInit::new` and
/// its `encrypt_padded_vec_mut::<Pkcs7>`: the padded data encrypted in CBC
/// mode. PKCS#7 always adds one to sixteen bytes, so the ciphertext fills
/// `len / 16 + 1` blocks.
#[verifier::external_body]
pub(crate) fn aes256_cbc_encrypt(key: &[u8; 32], iv: &[u8; 16], data: &[u8]) -> (r: Vec<u8>)
    ensures
        r@ == aes256_cbc_pkcs7(key@, iv@, data@),
        r@.len() == padded_len(data@.len()),
{
    cbc::Encryptor::<aes::Aes256>::new(key.into(), iv.into()).encrypt_padded_vec_mut::<Pkcs7>(data)
}

/// Relies on `cbc::Decryptor::<aes::Aes256>` built with `KeyIvInit::new` and
/// its `decrypt_padded_vec_mut::<Pkcs7>`. CBC over a block cipher is a
/// bijection on whole blocks, and the strict PKCS#7 check accepts exactly the
/// paddings that encryption writes; so the call succeeds on precisely the
/// ciphertexts of some data, and then returns that data.
#[verifier::external_body]
pub(crate) fn aes256_cbc_decrypt(key: &[u8; 32], iv: &[u8; 16], data: &[u8]) -> (r: Result<Vec<u8>, aes::cipher::block_padding::UnpadError>)
    ensures
        r is Ok ==> aes256_cbc_pkcs7(key@, iv@, r->Ok_0@) == data@,
        forall|p: Seq<u8>| #[trigger] aes256_cbc_pkcs7(key@, iv@, p) == data@ ==> (r is Ok && r->Ok_0@ == p),
{
    cbc::Decryptor::<aes::Aes256>::new(key.into(), iv.into()).decrypt_padded_vec_mut::<Pkcs7>(data)
}

/// Relies on base64's `general_purpose::STANDARD` engine (standard alphabet,
/// `=` padding) and its `Engine::encode`.
#[verifier::external_body]
pub(crate) fn base64_standard_encode(b: &[u8]) -> (r: String)
    ensures
        r@ == base64_encode(b@),
{
    base64::engine::general_purpose::STANDARD.encode(b)
}

/// Relies on base64's `general_purpose::STANDARD` engine and its
/// `Engine::decode`. The engine requires canonical padding and rejects
/// non-zero trailing bits, so it accepts exactly the texts that its encoder
/// writes, and returns the bytes they were written from.
#[verifier::external_body]
pub(crate) fn base64_standard_decode(s: &str) -> (r: Result<Vec<u8>, base64::DecodeError>)
    ensures
        r is Ok ==> base64_encode(r->Ok_0@) == s@,
        forall|b: Seq<u8>| #[trigger] base64_encode(b) == s@ ==> (r is Ok && r->Ok_0@ == b),
{
    base64::engine::general_purpose::STANDARD.decode(s)
}

} // verus!
