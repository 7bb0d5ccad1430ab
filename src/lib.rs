//! Password-based encryption into self-contained Base64 tokens.
//!
//! A token is the standard Base64 text of `salt ‖ iv ‖ ciphertext`, where the
//! ciphertext is AES-256-CBC with PKCS#7 padding under a key derived from the
//! password and the salt by PBKDF2-HMAC-SHA256 with 1000 rounds. This is the
//! layout of the `PBEWITHHMACSHA256ANDAES_256` scheme with a random salt
//! generator and a random IV generator.
pub mod format;
pub mod primitives;
pub mod pbe;
