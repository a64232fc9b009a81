use vstd::prelude::*;

use crate::chars::starts_with;
use crate::chars::starts_with_str;
use crate::errors::CryptoError;

use aes_gcm::aead::rand_core::RngCore;
use aes_gcm::aead::Aead;
use aes_gcm::aead::OsRng;
use aes_gcm::KeyInit;
use argon2::password_hash::SaltString;
use argon2::PasswordHasher;
use argon2::PasswordVerifier;
use base64::Engine;
use zeroize::Zeroize;

verus! {

/// The key that the memory-hard key-derivation function yields for a
/// password and a salt.
pub uninterp spec fn kdf(password: Seq<char>, salt: Seq<u8>) -> Seq<u8>;

/// The bytes that the authenticated cipher produces when sealing the
/// UTF-8 encoding of `plaintext` under `key` and `nonce`: the ciphertext
/// with the authentication tag appended.
pub uninterp spec fn gcm_seal(key: Seq<u8>, nonce: Seq<u8>, plaintext: Seq<char>) -> Seq<u8>;

/// The base64 encoding (standard alphabet, canonical padding) of `data`.
pub uninterp spec fn b64_of(data: Seq<u8>) -> Seq<char>;

/// Whether `password` verifies against the self-describing password-hash
/// string `hash`.
pub uninterp spec fn phc_verifies(password: Seq<char>, hash: Seq<char>) -> bool;

/// The characters of the standard base64 alphabet, with padding.
pub open spec fn is_b64_char(c: char) -> bool {
    ('A' <= c && c <= 'Z') || ('a' <= c && c <= 'z') || ('0' <= c && c <= '9') || c == '+' || c
        == '/' || c == '='
}

/// The tag that opens every envelope this engine produces.
pub open spec fn envelope_prefix() -> Seq<char> {
    "ENC~v1~"@
}

/// Largest plaintext, in UTF-8 bytes, that one envelope may carry: with
/// salt, nonce and tag around it the whole decoded payload stays under
/// 256 MiB.
pub open spec fn max_plaintext_bytes() -> int {
    0x0FFF_FFD4
}

/// Largest plaintext, in characters, accepted for sealing: four bytes a
/// character keeps the UTF-8 form under the byte limit.
pub open spec fn max_plaintext_chars() -> int {
    0x03FF_FFF5
}

/// A sealing whose length is the one the cipher really produces: the
/// UTF-8 length of the plaintext plus the 16-byte tag.
pub open spec fn sealed_wf(key: Seq<u8>, nonce: Seq<u8>, plaintext: Seq<char>) -> bool {
    gcm_seal(key, nonce, plaintext).len() == vstd::utf8::encode_utf8(plaintext).len() + 16
}

/// The exact text an envelope with these parts has.
pub open spec fn envelope_body(
    password: Seq<char>,
    salt: Seq<u8>,
    nonce: Seq<u8>,
    plaintext: Seq<char>,
) -> Seq<char> {
    envelope_prefix() + b64_of(salt + nonce + gcm_seal(kdf(password, salt), nonce, plaintext))
}

/// `enc` is exactly the envelope of `plaintext` under `password` with the
/// given salt and nonce; under one password, an envelope determines its
/// plaintext.
pub open spec fn is_envelope(
    enc: Seq<char>,
    password: Seq<char>,
    salt: Seq<u8>,
    nonce: Seq<u8>,
    plaintext: Seq<char>,
) -> bool {
    &&& salt.len() == 16
    &&& nonce.len() == 12
    &&& vstd::utf8::encode_utf8(plaintext).len() <= max_plaintext_bytes()
    &&& sealed_wf(kdf(password, salt), nonce, plaintext)
    &&& enc == envelope_body(password, salt, nonce, plaintext)
    &&& forall|s2: Seq<u8>, n2: Seq<u8>, p2: Seq<char>|
        s2.len() == 16 && n2.len() == 12 && enc == #[trigger] envelope_body(password, s2, n2, p2)
            ==> p2 == plaintext
}

/// Cancelling a shared prefix of two equal concatenations.
pub proof fn lemma_concat_cancel_left(p: Seq<char>, a: Seq<char>, b: Seq<char>)
    requires
        p + a == p + b,
    ensures
        a == b,
{
    assert(a =~= (p + a).skip(p.len() as int));
    assert(b =~= (p + b).skip(p.len() as int));
    assert(a =~= b);
}

/// `enc` is an envelope of `plaintext` under `password`, for some salt
/// and nonce.
pub open spec fn is_envelope_for(enc: Seq<char>, password: Seq<char>, plaintext: Seq<char>) -> bool {
    exists|salt: Seq<u8>, nonce: Seq<u8>| is_envelope(enc, password, salt, nonce, plaintext)
}

/// The string has the envelope tag and carries a base64 body that decodes
/// to at least salt, nonce and tag.
pub open spec fn envelope_format_ok(enc: Seq<char>) -> bool {
    &&& starts_with(enc, envelope_prefix())
    &&& exists|d: Seq<u8>| #[trigger] b64_of(d) == enc.skip(envelope_prefix().len() as int)
        && d.len() >= 44
}

/// UTF-8 encodes each character into one to four bytes.
pub proof fn lemma_utf8_len(chars: Seq<char>)
    ensures
        chars.len() <= vstd::utf8::encode_utf8(chars).len() <= 4 * chars.len(),
    decreases chars.len(),
{
    if chars.len() > 0 {
        lemma_utf8_len(chars.drop_first());
    }
}

/// Relies on `rand_core::OsRng::fill_bytes`: fills the buffer from the
/// operating system's randomness source. Nothing is promised of the
/// values.
#[verifier::external_body]
fn random_bytes(n: usize) -> (r: Vec<u8>)
    ensures
        r@.len() == n,
{
    let mut buf = vec![0u8; n];
    OsRng.fill_bytes(&mut buf);
    buf
}

/// Relies on `argon2::Argon2::hash_password_into` with Argon2id v19,
/// 64 MiB of memory, 3 iterations and 1 lane: a deterministic function of
/// the password and the salt, yielding the requested 32 bytes. With a
/// 16-byte salt and valid fixed parameters the call cannot fail.
#[verifier::external_body]
fn derive_key(password: &str, salt: &[u8]) -> (r: Vec<u8>)
    requires
        salt@.len() == 16,
    ensures
        r@ == kdf(password@, salt@),
        r@.len() == 32,
{
    let params = argon2::Params::new(64 * 1024, 3, 1, Some(32)).expect("fixed params are valid");
    let a2 = argon2::Argon2::new(argon2::Algorithm::Argon2id, argon2::Version::V0x13, params);
    let mut key = vec![0u8; 32];
    let _ = a2.hash_password_into(password.as_bytes(), salt, &mut key);
    key
}

/// Relies on `aes_gcm::Aes256Gcm::encrypt`: AES-256-GCM over the UTF-8
/// bytes of the plaintext, a deterministic function of key, nonce and
/// plaintext, returning the ciphertext with the 16-byte tag appended;
/// under one key and nonce the sealed bytes determine the plaintext,
/// since decryption inverts encryption.
#[verifier::external_body]
fn aead_seal(key: &[u8], nonce: &[u8], plaintext: &str) -> (r: Vec<u8>)
    requires
        key@.len() == 32,
        nonce@.len() == 12,
        vstd::utf8::encode_utf8(plaintext@).len() <= max_plaintext_bytes(),
    ensures
        r@ == gcm_seal(key@, nonce@, plaintext@),
        r@.len() == vstd::utf8::encode_utf8(plaintext@).len() + 16,
        forall|x: Seq<char>| gcm_seal(key@, nonce@, x) == r@ ==> x == plaintext@,
{
    let cipher = <aes_gcm::Aes256Gcm as KeyInit>::new_from_slice(key).expect("key is 32 bytes");
    let nonce = aes_gcm::Nonce::from_slice(nonce);
    cipher.encrypt(nonce, plaintext.as_bytes()).expect("plaintext is far below the cipher's limit")
}

/// Relies on `aes_gcm::Aes256Gcm::decrypt`: opens a sealing and verifies
/// its tag; it succeeds exactly on the output of the sealing with the
/// same key and nonce, and returns that plaintext. A sealed byte string
/// determines its plaintext, so the opened value is unique. `None` also
/// covers an authentic byte plaintext that is not valid UTF-8, which the
/// sealing of a character sequence can never produce.
#[verifier::external_body]
fn aead_open(key: &[u8], nonce: &[u8], sealed: &[u8]) -> (r: Option<String>)
    requires
        key@.len() == 32,
        nonce@.len() == 12,
        sealed@.len() <= 0x1000_0000,
    ensures
        match r {
            Option::Some(pt) => sealed@ == gcm_seal(key@, nonce@, pt@) && sealed@.len()
                == vstd::utf8::encode_utf8(pt@).len() + 16 && forall|x: Seq<char>|
                sealed@ == gcm_seal(key@, nonce@, x) ==> x == pt@,
            Option::None => forall|x: Seq<char>| sealed@ != gcm_seal(key@, nonce@, x),
        },
{
    let cipher = <aes_gcm::Aes256Gcm as KeyInit>::new_from_slice(key).expect("key is 32 bytes");
    let nonce = aes_gcm::Nonce::from_slice(nonce);
    match cipher.decrypt(nonce, sealed) {
        Ok(bytes) => String::from_utf8(bytes).ok(),
        Err(_) => None,
    }
}

/// Relies on `base64::engine::general_purpose::STANDARD.encode`: standard
/// alphabet with canonical padding, a deterministic and lossless
/// encoding (decoding inverts it) whose output uses only that alphabet.
#[verifier::external_body]
fn b64_encode(data: &[u8]) -> (r: String)
    requires
        data@.len() <= 0x1000_0000,
    ensures
        r@ == b64_of(data@),
        forall|i: int| 0 <= i < r@.len() ==> is_b64_char(#[trigger] r@[i]),
        forall|x: Seq<u8>| b64_of(x) == r@ ==> x == data@,
    {
    base64::engine::general_purpose::STANDARD.encode(data)
}

/// Relies on `base64::engine::general_purpose::STANDARD.decode`: with
/// canonical padding required and trailing bits refused, it accepts
/// exactly the encodings that `encode` produces, and inverts them.
#[verifier::external_body]
fn b64_decode(s: &str) -> (r: Option<Vec<u8>>)
    ensures
        match r {
            Option::Some(d) => b64_of(d@) == s@ && d@.len() <= s@.len() && forall|x: Seq<u8>|
                b64_of(x) == s@ ==> x == d@,
            Option::None => forall|x: Seq<u8>| b64_of(x) != s@,
        },
{
    base64::engine::general_purpose::STANDARD.decode(s).ok()
}

/// Relies on `zeroize::Zeroize` for `Vec<u8>`: overwrites the buffer with
/// zeroes and clears it.
#[verifier::external_body]
fn wipe_bytes(buf: &mut Vec<u8>)
    ensures
        final(buf)@.len() == 0,
{
    buf.zeroize();
}

/// Relies on `argon2::Argon2::default` together with
/// `PasswordHasher::hash_password` over a fresh random salt: on success
/// the result is a non-empty self-describing hash string, drawn from the
/// PHC character set (so free of whitespace), against which the hashed
/// password verifies.
#[verifier::external_body]
pub fn hash_password(password: &str) -> (r: Result<String, CryptoError>)
    ensures
        match r {
            Ok(h) => phc_verifies(password@, h@) && h@.len() > 0 && forall|i: int|
                0 <= i < h@.len() ==> !crate::chars::is_ws(#[trigger] h@[i]),
            Err(e) => e == CryptoError::PasswordHashFailed,
        },
{
    let salt = SaltString::generate(&mut OsRng);
    let argon2 = argon2::Argon2::default();
    argon2
        .hash_password(password.as_bytes(), &salt)
        .map(|hash| hash.to_string())
        .map_err(|_| CryptoError::PasswordHashFailed)
}

/// Relies on `argon2::Argon2::default` together with
/// `PasswordVerifier::verify_password` over `PasswordHash::new`: succeeds
/// exactly when the password verifies against the hash string; a hash
/// that does not parse is reported as `InvalidFormat`.
#[verifier::external_body]
pub fn verify_password(password: &str, hash: &str) -> (r: Result<(), CryptoError>)
    ensures
        r is Ok <==> phc_verifies(password@, hash@),
        r is Err ==> (r == Result::<(), CryptoError>::Err(CryptoError::InvalidFormat) || r
            == Result::<(), CryptoError>::Err(CryptoError::PasswordVerificationFailed)),
{
    let parsed_hash = match argon2::PasswordHash::new(hash) {
        Ok(h) => h,
        Err(_) => {
            return Err(CryptoError::InvalidFormat);
        },
    };
    argon2::Argon2::default()
        .verify_password(password.as_bytes(), &parsed_hash)
        .map_err(|_| CryptoError::PasswordVerificationFailed)
}

/// Textual shape every envelope string has: the tag followed by base64
/// characters only.
pub open spec fn envelope_text_wf(enc: Seq<char>) -> bool {
    &&& starts_with(enc, envelope_prefix())
    &&& forall|i: int|
        envelope_prefix().len() <= i < enc.len() ==> is_b64_char(#[trigger] enc[i])
}

/// Seal one value: a fresh 16-byte salt and 12-byte nonce are drawn, a
/// key is derived from the password and the salt, the plaintext is
/// encrypted and authenticated under that key, and everything but the
/// password is packed into a tagged base64 string.
pub fn encrypt_value_with_salt(password: &str, plaintext: &str) -> (r: Result<
    String,
    CryptoError,
>)
    requires
        vstd::utf8::encode_utf8(plaintext@).len() <= max_plaintext_bytes(),
    ensures
        match r {
            Ok(env) => is_envelope_for(env@, password@, plaintext@) && envelope_text_wf(env@),
            Err(_) => false,
        },
{
    let salt = random_bytes(16);
    let nonce = random_bytes(12);
    let mut key = derive_key(password, salt.as_slice());
    let sealed = aead_seal(key.as_slice(), nonce.as_slice(), plaintext);
    wipe_bytes(&mut key);
    proof {
        lemma_utf8_len(plaintext@);
    }
    let mut blob: Vec<u8> = Vec::new();
    blob.extend_from_slice(salt.as_slice());
    blob.extend_from_slice(nonce.as_slice());
    blob.extend_from_slice(sealed.as_slice());
    let body = b64_encode(blob.as_slice());
    let mut env = String::from_str("ENC~v1~");
    env.append(body.as_str());
    proof {
        assert(blob@ =~= salt@ + nonce@ + sealed@);
        assert(env@ == envelope_prefix() + b64_of(blob@));
        assert forall|s2: Seq<u8>, n2: Seq<u8>, p2: Seq<char>|
            s2.len() == 16 && n2.len() == 12 && env@ == #[trigger] envelope_body(
                password@,
                s2,
                n2,
                p2,
            ) implies p2 == plaintext@ by {
            let blob2 = s2 + n2 + gcm_seal(kdf(password@, s2), n2, p2);
            assert(envelope_prefix() + b64_of(blob2) == envelope_prefix() + b64_of(blob@));
            lemma_concat_cancel_left(envelope_prefix(), b64_of(blob2), b64_of(blob@));
            assert(b64_of(blob2) == body@);
            assert(blob2 == blob@);
            assert(s2 =~= blob@.subrange(0, 16));
            assert(salt@ =~= blob@.subrange(0, 16));
            assert(n2 =~= blob@.subrange(16, 28));
            assert(nonce@ =~= blob@.subrange(16, 28));
            assert(gcm_seal(kdf(password@, s2), n2, p2) =~= blob@.subrange(
                28,
                blob@.len() as int,
            ));
            assert(sealed@ =~= blob@.subrange(28, blob@.len() as int));
            assert(gcm_seal(kdf(password@, salt@), nonce@, p2) == sealed@);
        }
        assert(is_envelope(env@, password@, salt@, nonce@, plaintext@));
        assert(starts_with(env@, envelope_prefix())) by {
            assert(env@.subrange(0, envelope_prefix().len() as int) =~= envelope_prefix());
        }
        assert forall|i: int|
            envelope_prefix().len() <= i < env@.len() implies is_b64_char(#[trigger] env@[i]) by {
            assert(env@[i] == b64_of(blob@)[i - envelope_prefix().len()]);
        }
    }
    Ok(env)
}

/// Open one envelope: the tag is checked, the base64 body decoded, the
/// key re-derived from the embedded salt, and the authenticated cipher
/// asked to open the sealed part. Success returns exactly the plaintext
/// the envelope was made of; a missing tag, undecodable body or short
/// payload is `InvalidFormat`, and a failed authentication (wrong
/// password or tampering, indistinguishable by design) is
/// `DecryptionFailed`.
pub fn decrypt_value_with_salt(enc: &str, password: &str) -> (r: Result<String, CryptoError>)
    ensures
        match r {
            Ok(pt) => is_envelope_for(enc@, password@, pt@),
            Err(e) => (e == CryptoError::InvalidFormat || e == CryptoError::DecryptionFailed)
                && forall|pt: Seq<char>| !is_envelope_for(enc@, password@, pt),
        },
        r == Result::<String, CryptoError>::Err(CryptoError::InvalidFormat)
            <==> !envelope_format_ok(enc@),
{
    proof {
        reveal_strlit("ENC~v1~");
    }
    if !starts_with_str(enc, "ENC~v1~") {
        proof {
            assert forall|pt: Seq<char>| !is_envelope_for(enc@, password@, pt) by {
                if is_envelope_for(enc@, password@, pt) {
                    lemma_envelope_starts(enc@, password@, pt);
                }
            }
        }
        return Err(CryptoError::InvalidFormat);
    }
    let len: usize = enc.unicode_len();
    let body = enc.substring_char(7, len);
    proof {
        assert(body@ =~= enc@.skip(envelope_prefix().len() as int));
    }
    let data = match b64_decode(body) {
        Option::Some(d) => d,
        Option::None => {
            proof {
                assert forall|pt: Seq<char>| !is_envelope_for(enc@, password@, pt) by {
                    if is_envelope_for(enc@, password@, pt) {
                        lemma_envelope_body(enc@, password@, pt);
                    }
                }
            }
            return Err(CryptoError::InvalidFormat);
        },
    };
    if data.len() < 44 {
        proof {
            assert forall|pt: Seq<char>| !is_envelope_for(enc@, password@, pt) by {
                if is_envelope_for(enc@, password@, pt) {
                    lemma_envelope_body(enc@, password@, pt);
                }
            }
        }
        return Err(CryptoError::InvalidFormat);
    }
    if data.len() > 0x1000_0000 {
        proof {
            assert forall|pt: Seq<char>| !is_envelope_for(enc@, password@, pt) by {
                if is_envelope_for(enc@, password@, pt) {
                    lemma_envelope_body(enc@, password@, pt);
                }
            }
            assert(envelope_format_ok(enc@));
        }
        return Err(CryptoError::DecryptionFailed);
    }
    let dlen = data.len();
    let salt = vstd::slice::slice_subrange(data.as_slice(), 0, 16);
    let nonce = vstd::slice::slice_subrange(data.as_slice(), 16, 28);
    let sealed = vstd::slice::slice_subrange(data.as_slice(), 28, dlen);
    let mut key = derive_key(password, salt);
    let opened = aead_open(key.as_slice(), nonce, sealed);
    wipe_bytes(&mut key);
    match opened {
        Option::Some(pt) => {
            proof {
                assert(enc@ =~= envelope_prefix() + b64_of(data@)) by {
                    assert(enc@.subrange(0, envelope_prefix().len() as int) == envelope_prefix());
                }
                assert(data@ =~= salt@ + nonce@ + sealed@);
                assert forall|s2: Seq<u8>, n2: Seq<u8>, p2: Seq<char>|
                    s2.len() == 16 && n2.len() == 12 && enc@ == #[trigger] envelope_body(
                        password@,
                        s2,
                        n2,
                        p2,
                    ) implies p2 == pt@ by {
                    let blob2 = s2 + n2 + gcm_seal(kdf(password@, s2), n2, p2);
                    assert(envelope_prefix() + b64_of(blob2) == envelope_prefix() + b64_of(
                        data@,
                    ));
                    lemma_concat_cancel_left(envelope_prefix(), b64_of(blob2), b64_of(data@));
                    assert(b64_of(blob2) == body@);
                    assert(blob2 == data@);
                    assert(s2 =~= data@.subrange(0, 16));
                    assert(salt@ =~= data@.subrange(0, 16));
                    assert(n2 =~= data@.subrange(16, 28));
                    assert(nonce@ =~= data@.subrange(16, 28));
                    assert(gcm_seal(kdf(password@, s2), n2, p2) =~= data@.subrange(
                        28,
                        data@.len() as int,
                    ));
                    assert(sealed@ =~= data@.subrange(28, data@.len() as int));
                    assert(sealed@ == gcm_seal(kdf(password@, salt@), nonce@, p2));
                }
                assert(is_envelope(enc@, password@, salt@, nonce@, pt@));
                assert(envelope_format_ok(enc@));
            }
            Ok(pt)
        },
        Option::None => {
            proof {
                assert forall|pt: Seq<char>| !is_envelope_for(enc@, password@, pt) by {
                    if is_envelope_for(enc@, password@, pt) {
                        let (s2, n2) = choose|s2: Seq<u8>, n2: Seq<u8>|
                            is_envelope(enc@, password@, s2, n2, pt);
                        let blob = s2 + n2 + gcm_seal(kdf(password@, s2), n2, pt);
                        assert(b64_of(blob) == enc@.skip(envelope_prefix().len() as int));
                        assert(blob == data@);
                        assert(s2 =~= data@.subrange(0, 16));
                        assert(n2 =~= data@.subrange(16, 28));
                        assert(gcm_seal(kdf(password@, s2), n2, pt) =~= data@.subrange(
                            28,
                            data@.len() as int,
                        ));
                    }
                }
                assert(envelope_format_ok(enc@));
            }
            Err(CryptoError::DecryptionFailed)
        },
    }
}

/// No envelope lacks the format tag.
proof fn lemma_envelope_starts(enc: Seq<char>, password: Seq<char>, pt: Seq<char>)
    requires
        is_envelope_for(enc, password, pt),
    ensures
        starts_with(enc, envelope_prefix()),
{
    let (s2, n2) = choose|s2: Seq<u8>, n2: Seq<u8>| is_envelope(enc, password, s2, n2, pt);
    assert(enc.subrange(0, envelope_prefix().len() as int) =~= envelope_prefix());
}

/// Every envelope's body decodes to a payload of at least 44 bytes, and
/// the payload determines the envelope.
proof fn lemma_envelope_body(enc: Seq<char>, password: Seq<char>, pt: Seq<char>)
    requires
        is_envelope_for(enc, password, pt),
    ensures
        exists|d: Seq<u8>| #[trigger] b64_of(d) == enc.skip(envelope_prefix().len() as int) && 44
            <= d.len() <= 0x1000_0000,
{
    let (s2, n2) = choose|s2: Seq<u8>, n2: Seq<u8>| is_envelope(enc, password, s2, n2, pt);
    let blob = s2 + n2 + gcm_seal(kdf(password, s2), n2, pt);
    assert(enc.skip(envelope_prefix().len() as int) =~= b64_of(blob));
    assert(blob.len() >= 44);
    assert(blob.len() <= 0x1000_0000);
}

/// Round trip: an envelope determines its plaintext under its password.
/// Together with the contracts of `encrypt_value_with_salt` (the result
/// is an envelope of the plaintext) and `decrypt_value_with_salt`
/// (opening an envelope returns a plaintext it envelops, and never
/// fails on one), opening what was sealed under the same password gives
/// back exactly the sealed text.
pub proof fn lemma_envelope_round_trip(
    enc: Seq<char>,
    password: Seq<char>,
    pt1: Seq<char>,
    pt2: Seq<char>,
)
    requires
        is_envelope_for(enc, password, pt1),
        is_envelope_for(enc, password, pt2),
    ensures
        pt1 == pt2,
{
    let (s1, n1) = choose|s1: Seq<u8>, n1: Seq<u8>| is_envelope(enc, password, s1, n1, pt1);
    let (s2, n2) = choose|s2: Seq<u8>, n2: Seq<u8>| is_envelope(enc, password, s2, n2, pt2);
    assert(enc == envelope_body(password, s2, n2, pt2));
}

/// Chained construction of one encryption request: password and
/// plaintext are supplied, then `encrypt` seals the value.
pub struct EncryptBuilder<'a> {
    pub password: Option<&'a str>,
    pub plaintext: Option<&'a str>,
}

/// Chained construction of one decryption request: password and
/// ciphertext are supplied, then `decrypt` opens the envelope.
pub struct DecryptBuilder<'a> {
    pub password: Option<&'a str>,
    pub ciphertext: Option<&'a str>,
}

impl<'a> EncryptBuilder<'a> {
    pub fn new() -> (r: Self)
        ensures
            r.password is None,
            r.plaintext is None,
    {
        EncryptBuilder { password: None, plaintext: None }
    }

    pub fn password(self, password: &'a str) -> (r: Self)
        ensures
            r.password == Some(password),
            r.plaintext == self.plaintext,
    {
        EncryptBuilder { password: Some(password), plaintext: self.plaintext }
    }

    pub fn plaintext(self, plaintext: &'a str) -> (r: Self)
        ensures
            r.plaintext == Some(plaintext),
            r.password == self.password,
    {
        EncryptBuilder { password: self.password, plaintext: Some(plaintext) }
    }

    /// Seal the supplied plaintext under the supplied password; a request
    /// with either part missing fails with `EncryptionFailed`.
    pub fn encrypt(self) -> (r: Result<String, CryptoError>)
        requires
            self.plaintext matches Some(pt) ==> vstd::utf8::encode_utf8(pt@).len()
                <= max_plaintext_bytes(),
        ensures
            match (self.password, self.plaintext) {
                (Some(pw), Some(pt)) => match r {
                    Ok(env) => is_envelope_for(env@, pw@, pt@) && envelope_text_wf(env@),
                    Err(_) => false,
                },
                _ => r == Result::<String, CryptoError>::Err(CryptoError::EncryptionFailed),
            },
    {
        match (self.password, self.plaintext) {
            (Some(pw), Some(pt)) => encrypt_value_with_salt(pw, pt),
            _ => Err(CryptoError::EncryptionFailed),
        }
    }
}

impl<'a> DecryptBuilder<'a> {
    pub fn new() -> (r: Self)
        ensures
            r.password is None,
            r.ciphertext is None,
    {
        DecryptBuilder { password: None, ciphertext: None }
    }

    pub fn password(self, password: &'a str) -> (r: Self)
        ensures
            r.password == Some(password),
            r.ciphertext == self.ciphertext,
    {
        DecryptBuilder { password: Some(password), ciphertext: self.ciphertext }
    }

    pub fn ciphertext(self, ciphertext: &'a str) -> (r: Self)
        ensures
            r.ciphertext == Some(ciphertext),
            r.password == self.password,
    {
        DecryptBuilder { password: self.password, ciphertext: Some(ciphertext) }
    }

    /// Open the supplied envelope with the supplied password; a request
    /// with either part missing fails with `DecryptionFailed`.
    pub fn decrypt(self) -> (r: Result<String, CryptoError>)
        ensures
            match (self.password, self.ciphertext) {
                (Some(pw), Some(ct)) => match r {
                    Ok(pt) => is_envelope_for(ct@, pw@, pt@),
                    Err(e) => (e == CryptoError::InvalidFormat || e
                        == CryptoError::DecryptionFailed) && forall|pt: Seq<char>|
                        !is_envelope_for(ct@, pw@, pt),
                },
                _ => r == Result::<String, CryptoError>::Err(CryptoError::DecryptionFailed),
            },
    {
        match (self.password, self.ciphertext) {
            (Some(pw), Some(ct)) => decrypt_value_with_salt(ct, pw),
            _ => Err(CryptoError::DecryptionFailed),
        }
    }
}

} // verus!
