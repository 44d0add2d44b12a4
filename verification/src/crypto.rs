use vstd::prelude::*;
use vstd::utf8::*;
use vstd::string::StringSliceAdditionalSpecFns;
use sha2::Digest;
use sha2::Sha256;
use crate::errors::GuardianError;
use crate::strings::{lemma_ascii_valid, string_from_utf8};

verus! {

broadcast use vstd::utf8::encode_utf8_valid_utf8, vstd::utf8::encode_utf8_decode_utf8;

/// The SHA-256 digest of a byte sequence.
pub uninterp spec fn sha256(data: Seq<u8>) -> Seq<u8>;

/// Calls `sha2::Sha256::digest` (the `Digest` trait of the `digest` crate):
/// the result is the SHA-256 digest of `data`, which is 32 bytes long
/// (`Sha256` has the output size `U32`).
#[verifier::external_body]
fn sha256_digest(data: &[u8]) -> (digest: Vec<u8>)
    ensures
        digest@ == sha256(data@),
        digest@.len() == 32,
{
    Sha256::digest(data).to_vec()
}

/// Each byte of `data` XOR-ed with the key byte at the same position, the
/// key being repeated as often as needed.
pub open spec fn xor_bytes(data: Seq<u8>, key: Seq<u8>) -> Seq<u8> {
    Seq::new(data.len(), |i: int| data[i] ^ key[i % (key.len() as int)])
}

/// The key derived from a password: the SHA-256 digest of its UTF-8 bytes.
pub open spec fn password_key(password: Seq<u8>) -> Seq<u8> {
    sha256(password)
}

/// The encryption of a text's bytes under a password's bytes.
pub open spec fn encryption(text: Seq<u8>, password: Seq<u8>) -> Seq<u8> {
    xor_bytes(text, password_key(password))
}

/// The text that encrypted data decrypts to under a password, if the
/// decrypted bytes are valid UTF-8.
pub open spec fn decryption(data: Seq<u8>, password: Seq<u8>) -> Option<Seq<char>> {
    let plain = xor_bytes(data, password_key(password));
    if valid_utf8(plain) {
        Some(decode_utf8(plain))
    } else {
        None
    }
}

/// XOR-ing twice with the same key gives the data back, whatever the key.
pub proof fn lemma_xor_twice(data: Seq<u8>, key: Seq<u8>)
    ensures
        xor_bytes(xor_bytes(data, key), key) == data,
{
    let once = xor_bytes(data, key);
    let twice = xor_bytes(once, key);
    assert forall|i: int| 0 <= i < data.len() implies twice[i] == data[i] by {
        let a: u8 = data[i];
        let b: u8 = key[i % (key.len() as int)];
        assert((a ^ b) ^ b == a) by (bit_vector);
    }
    assert(twice =~= data);
}

/// Decrypting with a password what was encrypted with it gives the text back.
pub proof fn lemma_decrypt_encrypt(text: Seq<char>, password: Seq<u8>)
    ensures
        decryption(encryption(encode_utf8(text), password), password) == Some(text),
{
    lemma_xor_twice(encode_utf8(text), password_key(password));
}

/// The key of a password is the SHA-256 digest of its bytes, and the
/// encryption of a text is each of its bytes XOR-ed with the digest byte at
/// the same position, the digest repeated as often as needed.
pub proof fn lemma_key_is_digest(text: Seq<u8>, password: Seq<u8>)
    ensures
        password_key(password) == sha256(password),
        encryption(text, password).len() == text.len(),
        forall|i: int|
            0 <= i < text.len() ==> #[trigger] encryption(text, password)[i] == text[i] ^ sha256(
                password,
            )[i % (sha256(password).len() as int)],
{
}

/// XORs `data` with `key`, repeating the key as often as needed.
pub fn xor_data(data: &[u8], key: &[u8]) -> (result: Vec<u8>)
    requires
        data.len() > 0 ==> key.len() > 0,
    ensures
        result@ == xor_bytes(data@, key@),
{
    let mut result: Vec<u8> = Vec::new();
    let mut i: usize = 0;
    while i < data.len()
        invariant
            i <= data.len(),
            data.len() > 0 ==> key.len() > 0,
            result.len() == i,
            forall|j: int| 0 <= j < i ==> result@[j] == data@[j] ^ key@[j % (key.len() as int)],
        decreases data.len() - i,
    {
        let data_byte = data[i];
        let key_byte = key[i % key.len()];
        result.push(data_byte ^ key_byte);
        i = i + 1;
    }
    assert(result@ =~= xor_bytes(data@, key@));
    result
}

/// The 32-byte key of a password: the SHA-256 digest of its UTF-8 bytes.
pub fn create_key(password: &str) -> (key: Vec<u8>)
    ensures
        key@ == password_key(password.spec_bytes()),
        key@ == sha256(password.spec_bytes()),
        key@.len() == 32,
{
    sha256_digest(password.as_bytes())
}

/// Encrypts a text with a password: its UTF-8 bytes XOR-ed with the key.
pub fn encrypt_text(text: &str, password: &str) -> (encrypted: Vec<u8>)
    ensures
        encrypted@ == encryption(text.spec_bytes(), password.spec_bytes()),
        encrypted@.len() == text.spec_bytes().len(),
        forall|i: int|
            0 <= i < encrypted@.len() ==> #[trigger] encrypted@[i] == text.spec_bytes()[i]
                ^ sha256(password.spec_bytes())[i % 32],
{
    let key = create_key(password);
    let data = text.as_bytes();
    xor_data(data, key.as_slice())
}

/// Decrypts data with a password; fails when the result is not valid UTF-8.
pub fn decrypt_text(encrypted_data: &[u8], password: &str) -> (text: Result<String, GuardianError>)
    ensures
        text is Ok <==> decryption(encrypted_data@, password.spec_bytes()) is Some,
        text matches Ok(s) ==> Some(s@) == decryption(encrypted_data@, password.spec_bytes()),
        text matches Err(e) ==> e is CorruptedBaseline,
{
    let key = create_key(password);
    let decrypted_data = xor_data(encrypted_data, key.as_slice());
    match string_from_utf8(decrypted_data) {
        Some(s) => Ok(s),
        None => Err(GuardianError::CorruptedBaseline),
    }
}

/// The ASCII lowercase hex digit of a number below 16.
pub open spec fn hex_digit(n: u8) -> u8 {
    if n < 10 {
        (n + 0x30) as u8
    } else {
        (n + 0x57) as u8
    }
}

/// Each byte as two lowercase hex digits, most significant first.
pub open spec fn lower_hex(data: Seq<u8>) -> Seq<u8>
    decreases data.len(),
{
    if data.len() == 0 {
        Seq::empty()
    } else {
        lower_hex(data.drop_last()) + seq![
            hex_digit(data.last() / 16),
            hex_digit(data.last() % 16),
        ]
    }
}

proof fn lemma_lower_hex_ascii(data: Seq<u8>)
    ensures
        lower_hex(data).len() == 2 * data.len(),
        forall|i: int| 0 <= i < lower_hex(data).len() ==> lower_hex(data)[i] < 0x80,
    decreases data.len(),
{
    if data.len() > 0 {
        lemma_lower_hex_ascii(data.drop_last());
    }
}

/// The value of a lowercase hex digit (`0`-`9`, `a`-`f`), or -1 for any
/// other byte.
pub open spec fn hex_value(c: u8) -> int {
    if 0x30 <= c <= 0x39 {
        c - 0x30
    } else if 0x61 <= c <= 0x66 {
        c - 0x61 + 10
    } else {
        -1
    }
}

proof fn lemma_hex_digit_value(n: u8)
    requires
        n < 16,
    ensures
        hex_value(hex_digit(n)) == n,
{
}

/// The hex text of bytes has two characters per byte, each a lowercase hex
/// digit, and each pair reads back, most significant digit first, as its
/// byte.
pub proof fn lemma_lower_hex_reads_back(data: Seq<u8>)
    ensures
        lower_hex(data).len() == 2 * data.len(),
        forall|k: int| 0 <= k < lower_hex(data).len() ==> 0 <= #[trigger] hex_value(lower_hex(data)[k]) < 16,
        forall|i: int|
            0 <= i < data.len() ==> hex_value(lower_hex(data)[2 * i]) * 16 + hex_value(
                lower_hex(data)[2 * i + 1],
            ) == #[trigger] data[i],
    decreases data.len(),
{
    if data.len() > 0 {
        let init = data.drop_last();
        lemma_lower_hex_reads_back(init);
        let b = data.last();
        lemma_hex_digit_value(b / 16);
        lemma_hex_digit_value(b % 16);
        let h = lower_hex(data);
        let hi = lower_hex(init);
        assert(h =~= hi + seq![hex_digit(b / 16), hex_digit(b % 16)]);
        assert forall|k: int| 0 <= k < h.len() implies 0 <= #[trigger] hex_value(h[k]) < 16 by {
            if k < hi.len() {
                assert(h[k] == hi[k]);
            }
        }
        assert forall|i: int| 0 <= i < data.len() implies hex_value(h[2 * i]) * 16 + hex_value(
            h[2 * i + 1],
        ) == #[trigger] data[i] by {
            if i < init.len() {
                assert(h[2 * i] == hi[2 * i]);
                assert(h[2 * i + 1] == hi[2 * i + 1]);
                assert(init[i] == data[i]);
            } else {
                assert(h[2 * i] == hex_digit(b / 16));
                assert(h[2 * i + 1] == hex_digit(b % 16));
            }
        }
    }
}

/// The SHA-256 digest of a file's content, as 64 lowercase hex digits.
pub fn calculate_file_hash(file_data: &[u8]) -> (hash: String)
    ensures
        encode_utf8(hash@) == lower_hex(sha256(file_data@)),
        hash@.len() == 64,
        // Each pair of hex digits reads back as the digest byte it stands for.
        forall|k: int| 0 <= k < 64 ==> 0 <= #[trigger] hex_value(encode_utf8(hash@)[k]) < 16,
        forall|i: int|
            0 <= i < 32 ==> hex_value(encode_utf8(hash@)[2 * i]) * 16 + hex_value(
                encode_utf8(hash@)[2 * i + 1],
            ) == #[trigger] sha256(file_data@)[i],
{
    let digest = sha256_digest(file_data);
    let mut hex: Vec<u8> = Vec::new();
    let mut i: usize = 0;
    while i < digest.len()
        invariant
            i <= digest.len(),
            hex@ == lower_hex(digest@.take(i as int)),
        decreases digest.len() - i,
    {
        let byte = digest[i];
        let high = byte / 16;
        let low = byte % 16;
        hex.push(if high < 10 { high + 0x30 } else { high + 0x57 });
        hex.push(if low < 10 { low + 0x30 } else { low + 0x57 });
        proof {
            assert(digest@.take(i + 1).drop_last() =~= digest@.take(i as int));
            assert(hex@ =~= lower_hex(digest@.take(i + 1)));
        }
        i = i + 1;
    }
    proof {
        assert(digest@.take(digest.len() as int) =~= digest@);
        lemma_lower_hex_ascii(digest@);
        lemma_lower_hex_reads_back(digest@);
        lemma_ascii_valid(hex@);
        decode_utf8_encode_utf8(hex@);
        crate::strings::lemma_ascii_decode_len(hex@);
    }
    match string_from_utf8(hex) {
        Some(hash) => hash,
        None => {
            proof {
                assert(false);
            }
            String::new()
        },
    }
}

} // verus!
