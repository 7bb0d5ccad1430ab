//! Constants of the token layout and its mathematical model.
use vstd::prelude::*;

verus! {

/// PBKDF2 rounds fixed by the token scheme.
pub const ITERATIONS: u32 = 1000;

/// Length of the random salt at the front of a token.
pub const SALT_LEN: usize = 16;

/// Length of the random IV that follows the salt.
pub const IV_LEN: usize = 16;

/// Length of the derived AES-256 key.
pub const KEY_LEN: usize = 32;

/// AES block length; every ciphertext is a positive multiple of it.
pub const BLOCK_LEN: usize = 16;

/// Length of the salt and IV header of a decoded token.
pub const HEADER_LEN: usize = 32;

/// The character of the standard Base64 alphabet for a 6-bit value.
pub open spec fn base64_digit(v: int) -> char {
    if v < 26 {
        ((v + 65) as u32) as char
    } else if v < 52 {
        ((v - 26 + 97) as u32) as char
    } else if v < 62 {
        ((v - 52 + 48) as u32) as char
    } else if v == 62 {
        '+'
    } else {
        '/'
    }
}

/// Standard Base64 with `=` padding and no line breaks: each group of three
/// bytes becomes four characters, and a final group of one or two bytes is
/// padded to four characters with `=`.
pub open spec fn base64_encode(b: Seq<u8>) -> Seq<char>
    decreases b.len(),
{
    let x = if b.len() > 0 { b[0] as int } else { 0 };
    let y = if b.len() > 1 { b[1] as int } else { 0 };
    let z = if b.len() > 2 { b[2] as int } else { 0 };
    if b.len() == 0 {
        Seq::empty()
    } else if b.len() == 1 {
        seq![base64_digit(x / 4), base64_digit((x % 4) * 16), '=', '=']
    } else if b.len() == 2 {
        seq![base64_digit(x / 4), base64_digit((x % 4) * 16 + y / 16), base64_digit((y % 16) * 4), '=']
    } else {
        seq![
            base64_digit(x / 4),
            base64_digit((x % 4) * 16 + y / 16),
            base64_digit((y % 16) * 4 + z / 64),
            base64_digit(z % 64),
        ] + base64_encode(b.subrange(3, b.len() as int))
    }
}

/// Distinct 6-bit values have distinct digits, none of them `=`.
pub proof fn lemma_base64_digit_injective(a: int, b: int)
    requires
        0 <= a < 64,
        0 <= b < 64,
    ensures
        base64_digit(a) != '=',
        base64_digit(a) == base64_digit(b) ==> a == b,
{
}

/// Four characters for every group of three bytes, the last group padded.
pub proof fn lemma_base64_len(b: Seq<u8>)
    ensures
        base64_encode(b).len() == 4 * ((b.len() + 2) / 3),
    decreases b.len(),
{
    if b.len() > 2 {
        lemma_base64_len(b.subrange(3, b.len() as int));
    }
}

/// Equal digits of two 6-bit values give equal values.
proof fn lemma_digits_equal(a: int, b: int)
    requires
        0 <= a < 64,
        0 <= b < 64,
        base64_digit(a) == base64_digit(b),
    ensures
        a == b,
{
    lemma_base64_digit_injective(a, b);
}

/// Standard Base64 is injective: a text is the encoding of at most one byte
/// sequence.
pub proof fn lemma_base64_injective(a: Seq<u8>, b: Seq<u8>)
    requires
        base64_encode(a) == base64_encode(b),
    ensures
        a == b,
    decreases a.len(),
{
    let e = base64_encode(a);
    lemma_base64_len(a);
    lemma_base64_len(b);
    if a.len() == 0 || b.len() == 0 {
        assert(a.len() == 0 && b.len() == 0);
        assert(a =~= b);
    } else {
        let x1 = a[0] as int;
        let x2 = b[0] as int;
        let y1 = if a.len() > 1 { a[1] as int } else { 0 };
        let y2 = if b.len() > 1 { b[1] as int } else { 0 };
        let z1 = if a.len() > 2 { a[2] as int } else { 0 };
        let z2 = if b.len() > 2 { b[2] as int } else { 0 };
        let c1 = if a.len() == 1 { 1int } else if a.len() == 2 { 2int } else { 3int };
        let c2 = if b.len() == 1 { 1int } else if b.len() == 2 { 2int } else { 3int };
        assert(c1 == c2) by {
            if a.len() == 1 {
                lemma_base64_digit_injective((y2 % 16) * 4 + z2 / 64, 0);
                lemma_base64_digit_injective(z2 % 64, 0);
                lemma_base64_digit_injective((y2 % 16) * 4, 0);
            } else if a.len() == 2 {
                lemma_base64_digit_injective((y1 % 16) * 4, 0);
                lemma_base64_digit_injective(z2 % 64, 0);
            } else {
                lemma_base64_digit_injective(z1 % 64, 0);
                lemma_base64_digit_injective((y1 % 16) * 4 + z1 / 64, 0);
            }
        }
        let f = base64_encode(b);
        assert(e[0] == base64_digit(x1 / 4) && e[1] == base64_digit((x1 % 4) * 16 + y1 / 16));
        assert(f[0] == base64_digit(x2 / 4) && f[1] == base64_digit((x2 % 4) * 16 + y2 / 16));
        lemma_digits_equal(x1 / 4, x2 / 4);
        lemma_digits_equal((x1 % 4) * 16 + y1 / 16, (x2 % 4) * 16 + y2 / 16);
        assert(x1 == x2 && y1 / 16 == y2 / 16);
        if c1 >= 2 {
            assert(e[2] == base64_digit((y1 % 16) * 4 + z1 / 64));
            assert(f[2] == base64_digit((y2 % 16) * 4 + z2 / 64));
            lemma_digits_equal((y1 % 16) * 4 + z1 / 64, (y2 % 16) * 4 + z2 / 64);
            assert(y1 == y2 && z1 / 64 == z2 / 64);
        }
        if c1 == 3 {
            assert(e[3] == base64_digit(z1 % 64) && f[3] == base64_digit(z2 % 64));
            lemma_digits_equal(z1 % 64, z2 % 64);
            assert(z1 == z2);
            let ta = a.subrange(3, a.len() as int);
            let tb = b.subrange(3, b.len() as int);
            assert(base64_encode(ta) =~= e.subrange(4, e.len() as int));
            assert(base64_encode(tb) =~= e.subrange(4, e.len() as int));
            lemma_base64_injective(ta, tb);
            assert(a =~= seq![a[0], a[1], a[2]] + ta);
            assert(b =~= seq![b[0], b[1], b[2]] + tb);
        }
        assert(a =~= b);
    }
}

/// PBKDF2-HMAC-SHA256 of a password and salt, 32 bytes long.
pub uninterp spec fn pbkdf2_hmac_sha256(password: Seq<u8>, salt: Seq<u8>, rounds: nat) -> Seq<u8>;

/// AES-256-CBC encryption of PKCS#7-padded data under a key and an IV.
pub uninterp spec fn aes256_cbc_pkcs7(key: Seq<u8>, iv: Seq<u8>, data: Seq<u8>) -> Seq<u8>;

/// The key that a token's salt and a password give.
pub open spec fn derived_key(password: Seq<u8>, salt: Seq<u8>) -> Seq<u8> {
    pbkdf2_hmac_sha256(password, salt, ITERATIONS as nat)
}

/// Length of the PKCS#7-padded form of `n` bytes: at least one byte of
/// padding, up to the next multiple of the block length.
pub open spec fn padded_len(n: nat) -> nat {
    (BLOCK_LEN as nat) * (n / (BLOCK_LEN as nat) + 1)
}

/// The ciphertext of a token for the given salt, IV, plaintext and password.
pub open spec fn token_ciphertext(salt: Seq<u8>, iv: Seq<u8>, plaintext: Seq<u8>, password: Seq<u8>) -> Seq<u8> {
    aes256_cbc_pkcs7(derived_key(password, salt), iv, plaintext)
}

/// The bytes of a token before Base64: `salt ‖ iv ‖ ciphertext`.
pub open spec fn token_bytes(salt: Seq<u8>, iv: Seq<u8>, plaintext: Seq<u8>, password: Seq<u8>) -> Seq<u8> {
    salt + iv + token_ciphertext(salt, iv, plaintext, password)
}

/// The text of a token.
pub open spec fn encoded_token(salt: Seq<u8>, iv: Seq<u8>, plaintext: Seq<u8>, password: Seq<u8>) -> Seq<char> {
    base64_encode(token_bytes(salt, iv, plaintext, password))
}

/// Whether `text` is the token of `plaintext` under `password` for some
/// well-sized salt and IV.
pub open spec fn is_token_of(text: Seq<char>, salt: Seq<u8>, iv: Seq<u8>, plaintext: Seq<u8>, password: Seq<u8>) -> bool {
    &&& salt.len() == SALT_LEN
    &&& iv.len() == IV_LEN
    &&& text == encoded_token(salt, iv, plaintext, password)
}

} // verus!
