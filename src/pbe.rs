//! Encoding a plaintext into a token, and the companion decoder.
use vstd::prelude::*;
use vstd::string::StringSliceAdditionalSpecFns;
use crate::format::{
    lemma_base64_injective,
    aes256_cbc_pkcs7, base64_encode, derived_key, encoded_token, is_token_of, padded_len, token_bytes,
    token_ciphertext,
    BLOCK_LEN, HEADER_LEN, ITERATIONS, IV_LEN, KEY_LEN, SALT_LEN,
};
use crate::primitives::{
    aes256_cbc_decrypt, aes256_cbc_encrypt, base64_standard_decode, base64_standard_encode,
    fill_random, pbkdf2_sha256, seeded_generator,
};

verus! {

/// Why an encode call could not produce a token.
#[derive(Debug, Clone, Copy, PartialEq, Eq, Structural)]
pub enum EncodeError {
    /// The secure random source could not be seeded.
    EntropyFailure,
}

/// Why a text is not a token of any plaintext under a password.
#[derive(Debug, Clone, Copy, PartialEq, Eq, Structural)]
pub enum TokenError {
    /// The text is not canonical standard Base64.
    NotBase64,
    /// The decoded bytes are shorter than the salt and IV header.
    TooShort,
    /// The bytes after the header are no AES-256-CBC/PKCS#7 ciphertext under
    /// the key that the password and salt give.
    BadCiphertext,
}

/// What decoding `text` under `password` yields: the plaintext whose token it
/// is, or the first stage at which it fails.
pub open spec fn decoding(text: Seq<char>, password: Seq<u8>) -> Result<Seq<u8>, TokenError> {
    if exists|b: Seq<u8>| base64_encode(b) == text {
        let b = choose|b: Seq<u8>| base64_encode(b) == text;
        if b.len() < HEADER_LEN {
            Err(TokenError::TooShort)
        } else {
            let key = derived_key(password, b.subrange(0, SALT_LEN as int));
            let iv = b.subrange(SALT_LEN as int, HEADER_LEN as int);
            let body = b.subrange(HEADER_LEN as int, b.len() as int);
            if exists|p: Seq<u8>| aes256_cbc_pkcs7(key, iv, p) == body {
                Ok(choose|p: Seq<u8>| aes256_cbc_pkcs7(key, iv, p) == body)
            } else {
                Err(TokenError::BadCiphertext)
            }
        }
    } else {
        Err(TokenError::NotBase64)
    }
}

/// Bytes shorter than the 32-byte salt and IV header, written as Base64,
/// decode to `TooShort` under every password: they are never taken for a
/// token.
pub proof fn lemma_short_input_rejected(b: Seq<u8>, password: Seq<u8>)
    requires
        b.len() < HEADER_LEN,
    ensures
        decoding(base64_encode(b), password) == Err::<Seq<u8>, TokenError>(TokenError::TooShort),
{
    let t = base64_encode(b);
    assert(exists|c: Seq<u8>| base64_encode(c) == t);
    let c = choose|c: Seq<u8>| base64_encode(c) == t;
    lemma_base64_injective(c, b);
}

/// The token of a plaintext decodes successfully under the same password, to
/// a plaintext that encrypts to the token's own ciphertext. (That it is the
/// very plaintext is what `decode` ensures.)
pub proof fn lemma_token_decodes_to_same_ciphertext(salt: Seq<u8>, iv: Seq<u8>, plaintext: Seq<u8>, password: Seq<u8>)
    requires
        salt.len() == SALT_LEN,
        iv.len() == IV_LEN,
    ensures
        decoding(encoded_token(salt, iv, plaintext, password), password) matches Ok(q)
            && token_ciphertext(salt, iv, q, password) == token_ciphertext(salt, iv, plaintext, password),
{
    let b = token_bytes(salt, iv, plaintext, password);
    let t = base64_encode(b);
    assert(exists|c: Seq<u8>| base64_encode(c) == t);
    let c = choose|c: Seq<u8>| base64_encode(c) == t;
    lemma_base64_injective(c, b);
    let ct = token_ciphertext(salt, iv, plaintext, password);
    assert(b.subrange(0, 16) =~= salt);
    assert(b.subrange(16, 32) =~= iv);
    assert(b.subrange(32, b.len() as int) =~= ct);
    assert(aes256_cbc_pkcs7(derived_key(password, salt), iv, plaintext) == ct);
}

/// The AES-256 key for a password and salt: PBKDF2-HMAC-SHA256 with
/// `ITERATIONS` rounds. The same password and salt always give the same key.
pub fn derive_key(password: &[u8], salt: &[u8; 16]) -> (r: [u8; 32])
    ensures
        r@ == derived_key(password@, salt@),
        derived_key(password@, salt@).len() == KEY_LEN,
{
    pbkdf2_sha256(password, salt.as_slice(), ITERATIONS)
}

/// Deriving a key twice from the same password and salt gives the same
/// 32-byte key.
pub proof fn lemma_key_derivation_deterministic(password: Seq<u8>, salt: Seq<u8>, first: Seq<u8>, second: Seq<u8>)
    requires
        first == derived_key(password, salt),
        second == derived_key(password, salt),
    ensures
        first == second,
{
}

/// The ciphertext of an `n`-byte plaintext is a positive multiple of the block
/// length, longer than the plaintext by one to sixteen bytes of padding, and a
/// single block for an empty plaintext; so a decoded token is 32 bytes of salt
/// and IV followed by such a ciphertext.
pub proof fn lemma_padded_len_shape(n: nat)
    ensures
        padded_len(n) % (BLOCK_LEN as nat) == 0,
        padded_len(n) >= BLOCK_LEN,
        n < padded_len(n) <= n + BLOCK_LEN,
        n == 0 ==> padded_len(n) == BLOCK_LEN,
{
    assert(padded_len(n) % 16 == 0) by (nonlinear_arith)
        requires padded_len(n) == 16 * (n / 16 + 1);
    assert(n < padded_len(n) <= n + 16) by (nonlinear_arith)
        requires padded_len(n) == 16 * (n / 16 + 1);
}

/// Appends the bytes of `src` to `out`.
fn append_bytes(out: &mut Vec<u8>, src: &[u8])
    ensures
        final(out)@ == old(out)@ + src@,
{
    let mut i: usize = 0;
    while i < src.len()
        invariant
            i <= src@.len(),
            out@ == old(out)@ + src@.subrange(0, i as int),
        decreases src@.len() - i,
    {
        out.push(src[i]);
        i = i + 1;
        assert(src@.subrange(0, i as int) =~= src@.subrange(0, i - 1) + seq![src@[i - 1]]);
    }
    assert(src@.subrange(0, i as int) =~= src@);
}

/// The bytes of a token: `salt ‖ iv ‖ ciphertext`, with no separators.
pub fn pack(salt: &[u8; 16], iv: &[u8; 16], ciphertext: &[u8]) -> (r: Vec<u8>)
    ensures
        r@ == salt@ + iv@ + ciphertext@,
{
    let mut out: Vec<u8> = Vec::new();
    append_bytes(&mut out, salt.as_slice());
    append_bytes(&mut out, iv.as_slice());
    append_bytes(&mut out, ciphertext);
    out
}

/// The token of `plaintext` under `password` with the given salt and IV.
/// Its bytes hold the 32-byte header and a ciphertext of whole blocks, with
/// one block of padding alone for an empty plaintext.
pub fn encode_with(plaintext: &str, password: &str, salt: &[u8; 16], iv: &[u8; 16]) -> (r: String)
    ensures
        r@ == encoded_token(salt@, iv@, plaintext.spec_bytes(), password.spec_bytes()),
        token_bytes(salt@, iv@, plaintext.spec_bytes(), password.spec_bytes()).len()
            == HEADER_LEN + padded_len(plaintext.spec_bytes().len()),
{
    let key = derive_key(password.as_bytes(), salt);
    let ciphertext = aes256_cbc_encrypt(&key, iv, plaintext.as_bytes());
    let packed = pack(salt, iv, ciphertext.as_slice());
    base64_standard_encode(packed.as_slice())
}

/// The token of `input` under `password`, with a salt and an IV drawn fresh
/// from a ChaCha20 generator seeded by the operating system. Fails only when
/// that seeding fails.
pub fn encrypt(input: &str, password: &str) -> (r: Result<String, EncodeError>)
    ensures
        r is Ok ==> exists|salt: Seq<u8>, iv: Seq<u8>|
            {
                &&& #[trigger] is_token_of(r->Ok_0@, salt, iv, input.spec_bytes(), password.spec_bytes())
                &&& token_bytes(salt, iv, input.spec_bytes(), password.spec_bytes()).len()
                    == HEADER_LEN + padded_len(input.spec_bytes().len())
            },
{
    let mut rng = match seeded_generator() {
        Ok(g) => g,
        Err(_) => {
            return Err(EncodeError::EntropyFailure);
        },
    };
    let mut salt = [0u8; 16];
    let mut iv = [0u8; 16];
    fill_random(&mut rng, &mut salt);
    fill_random(&mut rng, &mut iv);
    let token = encode_with(input, password, &salt, &iv);
    let r: Result<String, EncodeError> = Ok(token);
    assert(is_token_of(r->Ok_0@, salt@, iv@, input.spec_bytes(), password.spec_bytes()));
    r
}

/// Copies the 16 bytes of `src` that begin at `start` into an array.
fn take_block(src: &Vec<u8>, start: usize) -> (r: [u8; 16])
    requires
        start + 16 <= src@.len(),
    ensures
        r@ == src@.subrange(start as int, start + 16),
{
    let n = src.len();
    let mut out = [0u8; 16];
    let mut i: usize = 0;
    while i < 16
        invariant
            i <= 16,
            start + 16 <= n,
            n == src@.len(),
            forall|j: int| 0 <= j < i ==> out@[j] == src@[start + j],
        decreases 16 - i,
    {
        out[i] = src[start + i];
        i = i + 1;
    }
    assert(out@ =~= src@.subrange(start as int, start + 16));
    out
}

/// Copies the bytes of `src` from `start` to its end.
fn take_rest(src: &Vec<u8>, start: usize) -> (r: Vec<u8>)
    requires
        start <= src@.len(),
    ensures
        r@ == src@.subrange(start as int, src@.len() as int),
{
    let mut out: Vec<u8> = Vec::new();
    let mut i: usize = start;
    while i < src.len()
        invariant
            start <= i <= src@.len(),
            out@ == src@.subrange(start as int, i as int),
        decreases src@.len() - i,
    {
        out.push(src[i]);
        i = i + 1;
        assert(src@.subrange(start as int, i as int) =~= src@.subrange(start as int, i - 1) + seq![src@[i - 1]]);
    }
    out
}

/// Recovers the plaintext of a token under `password`. Every token that
/// `encode_with` or `encrypt` writes for a plaintext decodes to exactly that
/// plaintext under the same password; a text whose decoded bytes are shorter
/// than the 32-byte header is rejected with `TooShort`.
pub fn decode(token: &str, password: &str) -> (r: Result<Vec<u8>, TokenError>)
    ensures
        match r {
            Ok(v) => decoding(token@, password.spec_bytes()) == Ok::<Seq<u8>, TokenError>(v@),
            Err(e) => decoding(token@, password.spec_bytes()) == Err::<Seq<u8>, TokenError>(e),
        },
        forall|salt: Seq<u8>, iv: Seq<u8>, p: Seq<u8>|
            #[trigger] is_token_of(token@, salt, iv, p, password.spec_bytes())
                ==> (r is Ok && r->Ok_0@ == p),
        forall|b: Seq<u8>|
            #[trigger] base64_encode(b) == token@ && b.len() < HEADER_LEN
                ==> r == Err::<Vec<u8>, TokenError>(TokenError::TooShort),
{
    let pw = password.as_bytes();
    let bytes = match base64_standard_decode(token) {
        Ok(b) => b,
        Err(_) => {
            return Err(TokenError::NotBase64);
        },
    };
    proof {
        assert forall|salt: Seq<u8>, iv: Seq<u8>, p: Seq<u8>|
            #[trigger] is_token_of(token@, salt, iv, p, pw@) implies bytes@ == token_bytes(salt, iv, p, pw@)
        by {}
    }
    if bytes.len() < HEADER_LEN {
        proof {
            assert forall|salt: Seq<u8>, iv: Seq<u8>, p: Seq<u8>|
                !#[trigger] is_token_of(token@, salt, iv, p, pw@)
            by {
                if is_token_of(token@, salt, iv, p, pw@) {
                    assert(bytes@.len() >= HEADER_LEN);
                }
            }
        }
        return Err(TokenError::TooShort);
    }
    let salt = take_block(&bytes, 0);
    let iv = take_block(&bytes, SALT_LEN);
    let body = take_rest(&bytes, HEADER_LEN);
    let key = derive_key(pw, &salt);
    let result = aes256_cbc_decrypt(&key, &iv, body.as_slice());
    proof {
        assert forall|s: Seq<u8>, v: Seq<u8>, p: Seq<u8>|
            #[trigger] is_token_of(token@, s, v, p, pw@) implies (result is Ok && result->Ok_0@ == p)
        by {
            let b = token_bytes(s, v, p, pw@);
            assert(b.subrange(0, 16) =~= s);
            assert(b.subrange(16, 32) =~= v);
            assert(b.subrange(32, b.len() as int) =~= token_ciphertext(s, v, p, pw@));
        }
    }
    match result {
        Ok(plain) => Ok(plain),
        Err(_) => Err(TokenError::BadCiphertext),
    }
}

} // verus!
