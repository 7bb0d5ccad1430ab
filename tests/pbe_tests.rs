use aes::cipher::block_padding::{NoPadding, Pkcs7};
use aes::cipher::{BlockDecryptMut, BlockEncryptMut, KeyIvInit};
use base64::Engine;
use pbe_encoder::format::{BLOCK_LEN, HEADER_LEN, ITERATIONS, IV_LEN, KEY_LEN, SALT_LEN};
use pbe_encoder::pbe::{decode, derive_key, encode_with, encrypt, pack, TokenError};

const SALT: [u8; 16] = [0, 1, 2, 3, 4, 5, 6, 7, 8, 9, 10, 11, 12, 13, 14, 15];
const IV: [u8; 16] = [
    0xa0, 0xa1, 0xa2, 0xa3, 0xa4, 0xa5, 0xa6, 0xa7, 0xa8, 0xa9, 0xaa, 0xab, 0xac, 0xad, 0xae, 0xaf,
];

fn hex(bytes: &[u8]) -> String {
    bytes.iter().map(|b| format!("{:02x}", b)).collect()
}

fn b64_decode(text: &str) -> Vec<u8> {
    base64::engine::general_purpose::STANDARD.decode(text).unwrap()
}

fn b64_encode(bytes: &[u8]) -> String {
    base64::engine::general_purpose::STANDARD.encode(bytes)
}

fn raw_decrypt(key: &[u8; 32], iv: &[u8; 16], ct: &[u8]) -> Vec<u8> {
    cbc::Decryptor::<aes::Aes256>::new(key.into(), iv.into())
        .decrypt_padded_vec_mut::<NoPadding>(ct)
        .unwrap()
}

#[test]
fn constants_match_the_scheme() {
    assert_eq!(ITERATIONS, 1000);
    assert_eq!(SALT_LEN, 16);
    assert_eq!(IV_LEN, 16);
    assert_eq!(KEY_LEN, 32);
    assert_eq!(BLOCK_LEN, 16);
    assert_eq!(HEADER_LEN, 32);
}

#[test]
fn derive_key_matches_pbkdf2_vectors() {
    assert_eq!(
        hex(&derive_key(b"test", &SALT)),
        "df480728ea82d9fb51f000f64753308af319f8b5e11bb67abe9007a9415b478c"
    );
    assert_eq!(
        hex(&derive_key(b"", &[0u8; 16])),
        "5d9c6e7fddb9017fc1069deacd76a0908b2af254e9605b7e98fefbb73d2ef025"
    );
    assert_eq!(
        hex(&derive_key(b"password", b"saltsaltsaltsalt")),
        "f275fb870144cc807c68f6a325360af3078741ce4d833d2915500abd2bb88d00"
    );
}

#[test]
fn derive_key_is_deterministic() {
    assert_eq!(derive_key(b"secret", &SALT), derive_key(b"secret", &SALT));
    assert_ne!(derive_key(b"secret", &SALT), derive_key(b"secret", &IV));
}

#[test]
fn pack_concatenates_in_order() {
    let packed = pack(&SALT, &IV, &[7, 8, 9]);
    let mut expected = SALT.to_vec();
    expected.extend_from_slice(&IV);
    expected.extend_from_slice(&[7, 8, 9]);
    assert_eq!(packed, expected);
    assert_eq!(pack(&SALT, &IV, &[]).len(), 32);
}

#[test]
fn empty_plaintext_is_one_block_of_padding() {
    let token = encode_with("", "test", &SALT, &IV);
    let bytes = b64_decode(&token);
    assert_eq!(bytes.len(), 48);
    assert_eq!(&bytes[..16], &SALT);
    assert_eq!(&bytes[16..32], &IV);
    let key = derive_key(b"test", &SALT);
    assert_eq!(raw_decrypt(&key, &IV, &bytes[32..]), vec![0x10u8; 16]);
}

#[test]
fn hello_is_followed_by_eleven_padding_bytes() {
    let token = encode_with("hello", "any password", &SALT, &IV);
    let bytes = b64_decode(&token);
    assert_eq!(bytes.len(), 48);
    let key = derive_key(b"any password", &SALT);
    let block = raw_decrypt(&key, &IV, &bytes[32..]);
    let mut expected = b"hello".to_vec();
    expected.extend_from_slice(&[0x0bu8; 11]);
    assert_eq!(block, expected);
}

#[test]
fn encode_with_matches_the_reference_pipeline() {
    let plaintext = "jdbc:postgresql://db.example/app?user=svc";
    let key = derive_key(b"pa55", &SALT);
    let ct = cbc::Encryptor::<aes::Aes256>::new((&key).into(), (&IV).into())
        .encrypt_padded_vec_mut::<Pkcs7>(plaintext.as_bytes());
    let mut bytes = SALT.to_vec();
    bytes.extend_from_slice(&IV);
    bytes.extend_from_slice(&ct);
    assert_eq!(encode_with(plaintext, "pa55", &SALT, &IV), b64_encode(&bytes));
}

#[test]
fn encode_with_is_deterministic_for_fixed_salt_and_iv() {
    assert_eq!(
        encode_with("value", "pw", &SALT, &IV),
        encode_with("value", "pw", &SALT, &IV)
    );
    assert_ne!(
        encode_with("value", "pw", &SALT, &IV),
        encode_with("value", "pw", &IV, &SALT)
    );
}

#[test]
fn ciphertext_lengths_are_whole_blocks() {
    for (n, expected) in [(0usize, 16usize), (1, 16), (15, 16), (16, 32), (17, 32), (31, 32), (32, 48)] {
        let plaintext = "x".repeat(n);
        let token = encode_with(&plaintext, "pw", &SALT, &IV);
        let bytes = b64_decode(&token);
        assert_eq!(bytes.len(), 32 + expected, "plaintext of {} bytes", n);
    }
}

#[test]
fn token_text_is_padded_standard_base64() {
    let token = encode_with("hello", "test", &SALT, &IV);
    assert_eq!(token.len(), 64);
    assert!(!token.contains('='));
    let token = encode_with("sixteen bytes!!!", "test", &SALT, &IV);
    assert_eq!(token.len(), 88);
    assert!(token.ends_with("=="));
    assert!(token
        .chars()
        .all(|c| c.is_ascii_alphanumeric() || c == '+' || c == '/' || c == '='));
    assert!(!token.contains('\n'));
}

#[test]
fn encrypt_round_trips() {
    for plaintext in ["", "hello", "exactly sixteen!", "naïve café ✓", "a longer line of text spanning blocks"] {
        let token = encrypt(plaintext, "password").unwrap();
        assert_eq!(decode(&token, "password").unwrap(), plaintext.as_bytes().to_vec());
    }
}

#[test]
fn encrypt_with_empty_password_round_trips() {
    let token = encrypt("data", "").unwrap();
    assert_eq!(decode(&token, "").unwrap(), b"data".to_vec());
}

#[test]
fn encrypt_draws_fresh_salt_and_iv() {
    let first = encrypt("same", "same").unwrap();
    let second = encrypt("same", "same").unwrap();
    assert_ne!(first, second);
    let a = b64_decode(&first);
    let b = b64_decode(&second);
    assert_ne!(&a[..16], &b[..16]);
    assert_ne!(&a[16..32], &b[16..32]);
}

#[test]
fn encrypt_decoded_length_is_header_plus_blocks() {
    let bytes = b64_decode(&encrypt("", "test").unwrap());
    assert_eq!(bytes.len(), 48);
    let bytes = b64_decode(&encrypt("hello world, hello", "test").unwrap());
    assert_eq!(bytes.len(), 64);
}

#[test]
fn decode_with_wrong_password_does_not_recover_plaintext() {
    let token = encode_with("top secret value", "right", &SALT, &IV);
    assert_eq!(decode(&token, "right").unwrap(), b"top secret value".to_vec());
    match decode(&token, "wrong") {
        Ok(v) => assert_ne!(v, b"top secret value".to_vec()),
        Err(e) => assert_eq!(e, TokenError::BadCiphertext),
    }
}

#[test]
fn decode_rejects_short_input() {
    assert_eq!(decode(&b64_encode(&[0u8; 31]), "pw"), Err(TokenError::TooShort));
    assert_eq!(decode(&b64_encode(&[]), "pw"), Err(TokenError::TooShort));
    assert_eq!(decode(&b64_encode(&[1u8; 5]), "pw"), Err(TokenError::TooShort));
}

#[test]
fn decode_rejects_text_that_is_not_base64() {
    assert_eq!(decode("not base64!", "pw"), Err(TokenError::NotBase64));
    assert_eq!(decode("QUJD\n", "pw"), Err(TokenError::NotBase64));
    assert_eq!(decode("QUI", "pw"), Err(TokenError::NotBase64));
}

#[test]
fn decode_rejects_bodies_that_are_not_ciphertexts() {
    assert_eq!(decode(&b64_encode(&[0u8; 32]), "pw"), Err(TokenError::BadCiphertext));
    assert_eq!(decode(&b64_encode(&[0u8; 47]), "pw"), Err(TokenError::BadCiphertext));
}
