//! The cryptographic functions that other crates provide, with what this library relies on.

use aes_gcm::aead::{Aead, KeyInit, Payload};
use ed25519_dalek::{Signer, Verifier};
use hmac::Mac;
use rand::RngCore;
use sha2::Digest;
use ssh_key::private::{Ed25519Keypair, KeypairData, PrivateKey};
use ssh_key::LineEnding;
use vstd::prelude::*;
use vstd::utf8::encode_utf8;

verus! {

/// The SHA-256 digest.
pub uninterp spec fn sha256_digest(data: Seq<u8>) -> Seq<u8>;

/// `Sha256::digest` of the `sha2` crate: the digest is a function of the data alone. It counts
/// the bits of the data in 64 bits; no address space holds data of 2^61 bytes.
#[verifier::external_body]
pub(crate) fn sha256(data: &[u8]) -> (r: [u8; 32])
    ensures
        r@ == sha256_digest(data@),
{
    sha2::Sha256::digest(data).into()
}

/// The HMAC-SHA256 tag.
pub uninterp spec fn hmac_sha256_tag(key: Seq<u8>, data: Seq<u8>) -> Seq<u8>;

/// `Hmac::<Sha256>`, keyed with `new_from_slice`, fed with `update` and ended with
/// `finalize`: the tag is a function of the key and the data alone.
#[verifier::external_body]
pub(crate) fn hmac_sha256(key: &[u8; 32], data: &[u8]) -> (r: [u8; 32])
    ensures
        r@ == hmac_sha256_tag(key@, data@),
{
    let mut mac = <hmac::Hmac<sha2::Sha256> as Mac>::new_from_slice(key).expect("any key size");
    mac.update(data);
    mac.finalize().into_bytes().into()
}

/// `Hmac::<Sha256>`, ended with `verify_slice`: it accepts exactly the tag that `finalize`
/// would have returned.
#[verifier::external_body]
pub(crate) fn hmac_sha256_verify(key: &[u8; 32], data: &[u8], tag: &[u8; 32]) -> (ok: bool)
    ensures
        ok == (tag@ == hmac_sha256_tag(key@, data@)),
{
    let mut mac = <hmac::Hmac<sha2::Sha256> as Mac>::new_from_slice(key).expect("any key size");
    mac.update(data);
    mac.verify_slice(tag).is_ok()
}

/// The error type of the two ciphers; it says nothing about what went wrong.
#[verifier::external_type_specification]
#[verifier::external_body]
pub struct ExAeadError(aes_gcm::Error);

/// AES-256-GCM ciphertext, followed by the 16-byte tag.
pub uninterp spec fn aes256gcm_seal(
    key: Seq<u8>,
    nonce: Seq<u8>,
    aad: Seq<u8>,
    plain: Seq<u8>,
) -> Seq<u8>;

/// What AES-256-GCM makes of a ciphertext and its tag: the plaintext, or nothing.
pub uninterp spec fn aes256gcm_open(
    key: Seq<u8>,
    nonce: Seq<u8>,
    aad: Seq<u8>,
    sealed: Seq<u8>,
) -> Option<Seq<u8>>;

/// The most bytes that AES-256-GCM seals, or takes as associated data.
pub open spec fn aes256gcm_limit() -> nat {
    0x10_0000_0000
}

/// The lengths of plaintext and associated data that AES-256-GCM seals.
pub open spec fn aes256gcm_accepts(plain: nat, aad: nat) -> bool {
    plain <= aes256gcm_limit() && aad <= aes256gcm_limit()
}

/// `Aes256Gcm::encrypt`: fails beyond the length limits only; the result is 16 bytes longer
/// than the plaintext, and `decrypt` with the same key, nonce and associated data gives the
/// plaintext back.
#[verifier::external_body]
pub(crate) fn aes256gcm_encrypt(
    key: &[u8; 32],
    nonce: &[u8; 12],
    aad: &[u8],
    plain: &[u8],
) -> (r: Result<Vec<u8>, aes_gcm::Error>)
    ensures
        r is Ok <==> aes256gcm_accepts(plain@.len(), aad@.len()),
        r matches Ok(c) ==> c@ == aes256gcm_seal(key@, nonce@, aad@, plain@),
        r matches Ok(c) ==> c@.len() == plain@.len() + 16,
        r matches Ok(c) ==> aes256gcm_open(key@, nonce@, aad@, c@) == Some(plain@),
{
    let cipher = aes_gcm::Aes256Gcm::new(aes_gcm::Key::<aes_gcm::Aes256Gcm>::from_slice(key));
    cipher.encrypt(aes_gcm::Nonce::from_slice(nonce), Payload { msg: plain, aad })
}

/// `Aes256Gcm::decrypt`: the result is a function of the arguments alone; where it succeeds,
/// `encrypt` of the plaintext, if it is within the limit, gives the ciphertext back.
#[verifier::external_body]
pub(crate) fn aes256gcm_decrypt(
    key: &[u8; 32],
    nonce: &[u8; 12],
    aad: &[u8],
    sealed: &[u8],
) -> (r: Result<Vec<u8>, aes_gcm::Error>)
    ensures
        r is Ok <==> aes256gcm_open(key@, nonce@, aad@, sealed@) is Some,
        r matches Ok(p) ==> aes256gcm_open(key@, nonce@, aad@, sealed@) == Some(p@),
        r matches Ok(p) ==> p@.len() + 16 == sealed@.len(),
        r matches Ok(p) ==> p@.len() <= aes256gcm_limit() ==> aes256gcm_seal(
            key@,
            nonce@,
            aad@,
            p@,
        ) == sealed@,
{
    let cipher = aes_gcm::Aes256Gcm::new(aes_gcm::Key::<aes_gcm::Aes256Gcm>::from_slice(key));
    cipher.decrypt(aes_gcm::Nonce::from_slice(nonce), Payload { msg: sealed, aad })
}

/// ChaCha20-Poly1305 ciphertext, followed by the 16-byte tag.
pub uninterp spec fn chacha20poly1305_seal(
    key: Seq<u8>,
    nonce: Seq<u8>,
    aad: Seq<u8>,
    plain: Seq<u8>,
) -> Seq<u8>;

/// What ChaCha20-Poly1305 makes of a ciphertext and its tag: the plaintext, or nothing.
pub uninterp spec fn chacha20poly1305_open(
    key: Seq<u8>,
    nonce: Seq<u8>,
    aad: Seq<u8>,
    sealed: Seq<u8>,
) -> Option<Seq<u8>>;

/// The most bytes that one ChaCha20 key stream, after its first block, covers.
pub open spec fn chacha20poly1305_limit() -> nat {
    0xffff_fffe * 64
}

/// Lengths that are beyond the key stream but below the length check of the
/// `chacha20poly1305` crate: it panics there.
pub open spec fn chacha20poly1305_panics(len: int) -> bool {
    0xffff_fffe * 64 < len < 0xffff_ffff * 64
}

/// `ChaCha20Poly1305::encrypt`: fails beyond the length limit only; the result is 16 bytes
/// longer than the plaintext, and `decrypt` with the same key, nonce and associated data gives
/// the plaintext back.
#[verifier::external_body]
pub(crate) fn chacha20poly1305_encrypt(
    key: &[u8; 32],
    nonce: &[u8; 12],
    aad: &[u8],
    plain: &[u8],
) -> (r: Result<Vec<u8>, aes_gcm::Error>)
    requires
        !chacha20poly1305_panics(plain@.len() as int),
    ensures
        r is Ok <==> plain@.len() <= chacha20poly1305_limit(),
        r matches Ok(c) ==> c@ == chacha20poly1305_seal(key@, nonce@, aad@, plain@),
        r matches Ok(c) ==> c@.len() == plain@.len() + 16,
        r matches Ok(c) ==> chacha20poly1305_open(key@, nonce@, aad@, c@) == Some(plain@),
{
    let key = chacha20poly1305::Key::from_slice(key);
    let cipher = chacha20poly1305::ChaCha20Poly1305::new(key);
    cipher.encrypt(chacha20poly1305::Nonce::from_slice(nonce), Payload { msg: plain, aad })
}

/// `ChaCha20Poly1305::decrypt`: the result is a function of the arguments alone; where it
/// succeeds, `encrypt` of the plaintext gives the ciphertext back.
#[verifier::external_body]
pub(crate) fn chacha20poly1305_decrypt(
    key: &[u8; 32],
    nonce: &[u8; 12],
    aad: &[u8],
    sealed: &[u8],
) -> (r: Result<Vec<u8>, aes_gcm::Error>)
    requires
        !chacha20poly1305_panics(sealed@.len() - 16),
    ensures
        r is Ok <==> chacha20poly1305_open(key@, nonce@, aad@, sealed@) is Some,
        r matches Ok(p) ==> chacha20poly1305_open(key@, nonce@, aad@, sealed@) == Some(p@),
        r matches Ok(p) ==> p@.len() + 16 == sealed@.len(),
        r matches Ok(p) ==> chacha20poly1305_seal(key@, nonce@, aad@, p@) == sealed@,
{
    let key = chacha20poly1305::Key::from_slice(key);
    let cipher = chacha20poly1305::ChaCha20Poly1305::new(key);
    cipher.decrypt(chacha20poly1305::Nonce::from_slice(nonce), Payload { msg: sealed, aad })
}

/// The Argon2id (version 0x13) hash of `len` bytes, for a memory cost of `m` KiB, `t` passes
/// and `p` lanes.
pub uninterp spec fn argon2id_hash(
    password: Seq<u8>,
    salt: Seq<u8>,
    m: nat,
    t: nat,
    p: nat,
    len: nat,
) -> Seq<u8>;

/// The lengths of password and salt that Argon2 takes.
pub open spec fn argon2_accepts(password: Seq<u8>, salt: Seq<u8>) -> bool {
    password.len() <= 0xffff_ffff && 8 <= salt.len() <= 0xffff_ffff
}

/// What the `argon2` crate says of a password or a salt that it does not take.
pub open spec fn argon2_refusal(password: Seq<u8>, salt: Seq<u8>) -> Seq<char> {
    if password.len() > 0xffff_ffff {
        "password is too long"@
    } else if salt.len() < 8 {
        "salt is too short"@
    } else {
        "salt is too long"@
    }
}

/// `Argon2::hash_password_into` with parameters from `Params::new`: fails only where the
/// password or the salt has a length that it does not take, with the message for that length;
/// otherwise the hash is a function of the arguments alone.
#[verifier::external_body]
pub(crate) fn argon2id(
    password: &[u8],
    salt: &[u8],
    m: u32,
    t: u32,
    p: u32,
    out: &mut [u8; 32],
) -> (r: Result<(), String>)
    requires
        1 <= p <= 0xff_ffff,
        8 * p <= m,
        1 <= t,
    ensures
        r is Ok <==> argon2_accepts(password@, salt@),
        r is Ok ==> final(out)@ == argon2id_hash(
            password@,
            salt@,
            m as nat,
            t as nat,
            p as nat,
            32,
        ),
        r matches Err(e) ==> e@ == argon2_refusal(password@, salt@),
{
    let params = argon2::Params::new(m, t, p, Some(out.len())).map_err(|e| e.to_string())?;
    argon2::Argon2::new(argon2::Algorithm::Argon2id, argon2::Version::V0x13, params)
        .hash_password_into(password, salt, out)
        .map_err(|e| e.to_string())
}

/// `OsRng::try_fill_bytes`: on success the bytes come from the operating system's generator,
/// so that nothing can be said of their values; the error is the description of its failure.
#[verifier::external_body]
pub(crate) fn os_random<const N: usize>(out: &mut [u8; N]) -> (r: Result<(), String>) {
    rand::rngs::OsRng.try_fill_bytes(out).map_err(|e| e.to_string())
}

/// The character of a six-bit value in standard Base64.
pub open spec fn base64_char(v: int) -> char {
    if v < 26 {
        (65 + v) as u8 as char
    } else if v < 52 {
        (71 + v) as u8 as char
    } else if v < 62 {
        (v - 4) as u8 as char
    } else if v == 62 {
        '+'
    } else {
        '/'
    }
}

/// The byte at an index, or zero past the end.
pub open spec fn byte_or_zero(data: Seq<u8>, i: int) -> int {
    if i < data.len() {
        data[i] as int
    } else {
        0
    }
}

/// The 24 bits of the three bytes from an index on.
pub open spec fn base64_group(data: Seq<u8>, from: int) -> int {
    byte_or_zero(data, from) * 0x1_0000 + byte_or_zero(data, from + 1) * 0x100 + byte_or_zero(
        data,
        from + 2,
    )
}

/// Bytes in standard Base64: four characters for three bytes, with `=` in the place of
/// characters that stand for no byte.
pub open spec fn base64_text(data: Seq<u8>) -> Seq<char> {
    Seq::new(
        (data.len() + 2) as nat / 3 * 4,
        |i: int|
            {
                let from = i / 4 * 3;
                let bits = base64_group(data, from);
                if from + i % 4 > data.len() {
                    '='
                } else if i % 4 == 0 {
                    base64_char(bits / 0x4_0000)
                } else if i % 4 == 1 {
                    base64_char(bits / 0x1000 % 64)
                } else if i % 4 == 2 {
                    base64_char(bits / 64 % 64)
                } else {
                    base64_char(bits % 64)
                }
            },
    )
}

/// `Base64::encode_string` of the `base64ct` crate: standard alphabet, with padding. It panics
/// where four times the length does not fit a `usize`.
#[verifier::external_body]
pub(crate) fn base64(data: &[u8]) -> (r: String)
    requires
        data@.len() <= usize::MAX / 4,
    ensures
        r@ == base64_text(data@),
{
    <base64ct::Base64 as base64ct::Encoding>::encode_string(data)
}

/// The Ed25519 public key that belongs to a secret key.
pub uninterp spec fn ed25519_public(secret: Seq<u8>) -> Seq<u8>;

/// Whether 32 bytes encode a point of the curve.
pub uninterp spec fn ed25519_decodes(public: Seq<u8>) -> bool;

/// The Ed25519 signature of a message.
pub uninterp spec fn ed25519_signature(secret: Seq<u8>, message: Seq<u8>) -> Seq<u8>;

/// Whether a signature belongs to a message, under a public key that encodes a point.
pub uninterp spec fn ed25519_accepts(
    public: Seq<u8>,
    message: Seq<u8>,
    signature: Seq<u8>,
) -> bool;

/// Whether 32 bytes are a public key and the signature belongs to the message under it.
pub open spec fn ed25519_valid(public: Seq<u8>, message: Seq<u8>, signature: Seq<u8>) -> bool {
    public.len() == 32 && ed25519_decodes(public) && ed25519_accepts(public, message, signature)
}

/// `SigningKey::verifying_key` of the `ed25519-dalek` crate: the public key is a function of
/// the secret key alone, and it encodes a point.
#[verifier::external_body]
pub(crate) fn ed25519_public_key(secret: &[u8; 32]) -> (r: [u8; 32])
    ensures
        r@ == ed25519_public(secret@),
        ed25519_decodes(r@),
{
    ed25519_dalek::SigningKey::from_bytes(secret).verifying_key().to_bytes()
}

/// `SigningKey::sign`: the signature is a function of the secret key and the message alone, and
/// verifies under the public key that belongs to the secret key.
#[verifier::external_body]
pub(crate) fn ed25519_sign(secret: &[u8; 32], message: &[u8]) -> (r: [u8; 64])
    ensures
        r@ == ed25519_signature(secret@, message@),
        ed25519_valid(ed25519_public(secret@), message@, r@),
{
    ed25519_dalek::SigningKey::from_bytes(secret).sign(message).to_bytes()
}

/// `VerifyingKey::from_bytes`: fails, with one message, on bytes that encode no point.
#[verifier::external_body]
pub(crate) fn ed25519_check_key(public: &[u8; 32]) -> (r: Result<(), String>)
    ensures
        r is Ok <==> ed25519_decodes(public@),
        r matches Err(e) ==> e@ == "signature error: Cannot decompress Edwards point"@,
{
    ed25519_dalek::VerifyingKey::from_bytes(public).map(|_| ()).map_err(|e| e.to_string())
}

/// `VerifyingKey::verify`, under a key that encodes a point: the answer is a function of the
/// key, the message and the signature alone.
#[verifier::external_body]
pub(crate) fn ed25519_verify(public: &[u8; 32], message: &[u8], signature: &[u8; 64]) -> (r: bool)
    requires
        ed25519_decodes(public@),
    ensures
        r == ed25519_accepts(public@, message@, signature@),
{
    let signature = ed25519_dalek::Signature::from_bytes(signature);
    ed25519_dalek::VerifyingKey::from_bytes(public)
        .is_ok_and(|key| key.verify(message, &signature).is_ok())
}

/// The step at which writing an OpenSSH private key failed, with the `ssh-key` crate's message.
pub enum OpensshFailure {
    /// The key pair was not taken.
    Build(String),
    /// The key was not encrypted.
    Encrypt(String),
    /// The key was not encoded.
    Encode(String),
}

/// The mathematical counterpart of [`OpensshFailure`].
pub ghost enum OpensshFailureView {
    Build(Seq<char>),
    Encrypt(Seq<char>),
    Encode(Seq<char>),
}

impl View for OpensshFailure {
    type V = OpensshFailureView;

    open spec fn view(&self) -> OpensshFailureView {
        match self {
            OpensshFailure::Build(m) => OpensshFailureView::Build(m@),
            OpensshFailure::Encrypt(m) => OpensshFailureView::Encrypt(m@),
            OpensshFailure::Encode(m) => OpensshFailureView::Encode(m@),
        }
    }
}

/// The 64 bytes of an Ed25519 key pair whose halves belong together.
pub open spec fn ed25519_keypair(secret: Seq<u8>) -> Seq<u8> {
    secret + ed25519_public(secret)
}

/// The unencrypted OpenSSH private key block for a key pair and a comment.
pub uninterp spec fn openssh_plain(
    keypair: Seq<u8>,
    comment: Seq<char>,
) -> Result<Seq<char>, OpensshFailureView>;

/// The key pair and the comment that `PrivateKey::from_openssh` and `decrypt` of the `ssh-key`
/// crate find in an encrypted block.
pub uninterp spec fn openssh_contents(
    block: Seq<char>,
    passphrase: Seq<char>,
) -> Option<(Seq<u8>, Seq<char>)>;

/// Why no encrypted block is written for a comment under a passphrase, if there is a reason.
pub uninterp spec fn openssh_refusal(
    comment: Seq<char>,
    passphrase: Seq<char>,
) -> Option<OpensshFailureView>;

/// Comments that are written without exceeding a length field.
pub open spec fn openssh_writes(comment: Seq<char>) -> bool {
    encode_utf8(comment).len() <= 0x1000_0000
}

/// Comments that are read back: the reader limits every length to 2^20 - 1.
pub open spec fn openssh_reads(comment: Seq<char>) -> bool {
    encode_utf8(comment).len() <= 0x8_0000
}

/// The view of what the two functions below return.
pub open spec fn openssh_outcome(r: Result<String, OpensshFailure>) -> Result<
    Seq<char>,
    OpensshFailureView,
> {
    match r {
        Ok(t) => Ok(t@),
        Err(e) => Err(e@),
    }
}

/// `Ed25519Keypair::from_bytes`, `PrivateKey::new` and `PrivateKey::to_openssh` of the
/// `ssh-key` crate: the block is a function of the key pair and the comment alone. For a key
/// pair whose halves belong together, only a comment that is too long for its length field
/// fails, and only in the encoding.
#[verifier::external_body]
pub(crate) fn openssh_encode(keypair: &[u8; 64], comment: &str) -> (r: Result<
    String,
    OpensshFailure,
>)
    requires
        keypair@ == ed25519_keypair(keypair@.take(32)),
    ensures
        openssh_outcome(r) == openssh_plain(keypair@, comment@),
        r is Err ==> !openssh_writes(comment@),
        r matches Err(e) ==> e is Encode,
{
    let pair = Ed25519Keypair::from_bytes(keypair)
        .map_err(|e| OpensshFailure::Build(e.to_string()))?;
    let key = PrivateKey::new(KeypairData::Ed25519(pair), comment)
        .map_err(|e| OpensshFailure::Build(e.to_string()))?;
    key.to_openssh(LineEnding::LF)
        .map(|mut block| std::mem::take(&mut *block))
        .map_err(|e| OpensshFailure::Encode(e.to_string()))
}

/// `Ed25519Keypair::from_bytes`, `PrivateKey::new`, `PrivateKey::encrypt` and
/// `PrivateKey::to_openssh` of the `ssh-key` crate, for a key pair whose halves belong together.
/// The block differs from call to call, as it is encrypted under a random salt from
/// `rand::thread_rng`, which does not return where the operating system has no random bytes to
/// give. Whether there is a block, or what the call fails with, is a function of the comment and
/// the passphrase alone: an empty passphrase is refused with the message `cryptographic error`,
/// and beyond that only a comment that is too long for its length field. The same passphrase
/// gives the key pair and the comment back, unless the comment is too long for the reader.
#[verifier::external_body]
pub(crate) fn openssh_encrypt(keypair: &[u8; 64], comment: &str, passphrase: &str) -> (r: Result<
    String,
    OpensshFailure,
>)
    requires
        keypair@ == ed25519_keypair(keypair@.take(32)),
    ensures
        r is Ok ==> passphrase@.len() > 0,
        r is Ok <==> openssh_refusal(comment@, passphrase@) is None,
        r matches Ok(block) ==> openssh_reads(comment@) ==> openssh_contents(block@, passphrase@)
            == Some((keypair@, comment@)),
        r matches Err(e) ==> openssh_refusal(comment@, passphrase@) == Some(e@),
        r is Err ==> passphrase@.len() > 0 ==> !openssh_writes(comment@),
        r matches Err(e) ==> e !is Build,
        r matches Err(e) ==> passphrase@.len() == 0 ==> e@ == OpensshFailureView::Encrypt(
            "cryptographic error"@,
        ),
{
    let pair = Ed25519Keypair::from_bytes(keypair)
        .map_err(|e| OpensshFailure::Build(e.to_string()))?;
    let key = PrivateKey::new(KeypairData::Ed25519(pair), comment)
        .map_err(|e| OpensshFailure::Build(e.to_string()))?;
    key.encrypt(&mut rand::thread_rng(), passphrase)
        .map_err(|e| OpensshFailure::Encrypt(e.to_string()))?
        .to_openssh(LineEnding::LF)
        .map(|mut block| std::mem::take(&mut *block))
        .map_err(|e| OpensshFailure::Encode(e.to_string()))
}

} // verus!
