//! Deterministic Ed25519 identities from a passphrase.
//!
//! An identity is a key pair that depends on a passphrase, a namespace, a version and an
//! optional sub-identity alone:
//!
//! ```text
//! salt = SHA-256("CryDNA-v1:" namespace ":v" version [":sub:" sub-identity]), first 16 bytes
//! seed = Argon2id(passphrase, salt)
//! ```
//!
//! Where an identity with a shorter namespace would hash the same bytes, the hash starts with
//! `"CryDNA-v1-len:"` and the length of the namespace in eight bytes instead, so that no two
//! identities share a salt by their layout.
//!
//! What is signed of a content is `SHA-256("CryDNA-file-sig-v1:" SHA-256(content))`.

use crate::bytes::{
    array_at, be_bytes, be_limit, be_value, lemma_be_bytes_injective, lemma_be_bytes_len,
    lemma_be_limits, lemma_be_value_bytes, u32_be, u64_be,
};
use crate::cipher::{check_overwrite, may_write};
use crate::error::{outcome, CryError, ErrorView};
pub use crate::hex::{bytes_to_hex, hex_to_bytes};
use crate::hex::{
    hex_decoded, hex_splits_character, hex_text, law_hex_round_trip, splits_character,
};
use crate::kdf::{derive_key, derived_key};
use crate::primitives::{
    argon2id_hash, base64, base64_char, base64_text, ed25519_accepts, ed25519_check_key, ed25519_decodes, ed25519_keypair,
    ed25519_public, ed25519_public_key, ed25519_sign, ed25519_signature, ed25519_valid,
    ed25519_verify, openssh_contents, openssh_encrypt, openssh_reads, openssh_refusal, openssh_writes, sha256,
    sha256_digest, OpensshFailure, OpensshFailureView,
};
use crate::secret::{zeroize_bytes, SecretKey, SecretText};
use crate::text::{chars_of, is_utf8, string_of, trim_end_of, trimmed_end_of};
use vstd::prelude::*;
use vstd::slice::slice_subrange;
use vstd::utf8::{
    decode_utf8, decode_utf8_encode_utf8, encode_utf8, encode_utf8_decode_utf8,
    encode_utf8_valid_utf8, is_ascii_chars_encode_utf8,
    is_char_boundary_iff_not_is_continuation_byte, valid_utf8, valid_utf8_split,
};

verus! {

/// Appends the UTF-8 form of a text.
fn push_text(buf: &mut Vec<u8>, s: &str)
    ensures
        final(buf)@ == old(buf)@ + encode_utf8(s@),
{
    buf.extend_from_slice(s.as_bytes());
    assert(buf@ =~= old(buf)@ + encode_utf8(s@));
}

/// The UTF-8 form of an optional sub-identity, after its marker.
pub open spec fn sub_tag(sub_id: Option<Seq<char>>) -> Seq<u8> {
    match sub_id {
        Some(sub) => encode_utf8(":sub:"@) + encode_utf8(sub),
        None => Seq::empty(),
    }
}

/// What follows the namespace in the bytes that a salt is the hash of.
pub open spec fn identity_tail(version: nat, sub_id: Option<Seq<char>>) -> Seq<u8> {
    encode_utf8(":v"@) + be_bytes(version, 4) + sub_tag(sub_id)
}

/// The bytes of an identity: the namespace and what follows it.
pub open spec fn identity_plain(
    namespace: Seq<char>,
    version: nat,
    sub_id: Option<Seq<char>>,
) -> Seq<u8> {
    encode_utf8(namespace) + identity_tail(version, sub_id)
}

/// An identity with a shorter namespace, for a version of four bytes, has the same bytes.
pub open spec fn ambiguous(
    namespace: Seq<char>,
    version: nat,
    sub_id: Option<Seq<char>>,
) -> bool {
    exists|n: Seq<char>, v: nat, s: Option<Seq<char>>|
        v < be_limit(4) && encode_utf8(n).len() < encode_utf8(namespace).len()
            && #[trigger] identity_plain(n, v, s) == identity_plain(namespace, version, sub_id)
}

/// The bytes that the salt of an identity is the hash of: those of the identity behind a fixed
/// text, and behind the length of the namespace where they are ambiguous.
pub open spec fn identity_tag(
    namespace: Seq<char>,
    version: nat,
    sub_id: Option<Seq<char>>,
) -> Seq<u8> {
    if ambiguous(namespace, version, sub_id) {
        encode_utf8("CryDNA-v1-len:"@) + be_bytes(encode_utf8(namespace).len(), 8)
            + identity_plain(namespace, version, sub_id)
    } else {
        encode_utf8("CryDNA-v1:"@) + identity_plain(namespace, version, sub_id)
    }
}

/// The salt of an identity.
pub open spec fn identity_salt(
    namespace: Seq<char>,
    version: nat,
    sub_id: Option<Seq<char>>,
) -> Seq<u8> {
    sha256_digest(identity_tag(namespace, version, sub_id)).take(16)
}

/// The view of an optional text.
pub open spec fn text_option(s: Option<&str>) -> Option<Seq<char>> {
    match s {
        Some(t) => Some(t@),
        None => None,
    }
}

/// From the given index on, bytes read like the markers, the version and the sub-identity of an
/// identity whose namespace ends there.
spec fn reads_at(bytes: Seq<u8>, i: int) -> bool {
    &&& 0 <= i
    &&& i + 11 <= bytes.len()
    &&& bytes[i] == 58
    &&& bytes[i + 1] == 118
    &&& bytes[i + 6] == 58
    &&& bytes[i + 7] == 115
    &&& bytes[i + 8] == 117
    &&& bytes[i + 9] == 98
    &&& bytes[i + 10] == 58
    &&& valid_utf8(bytes.skip(i + 11))
}

/// Whether bytes read like those of another identity, from an index on.
fn reads_like_identity(bytes: &[u8], i: usize) -> (r: bool)
    ensures
        r == reads_at(bytes@, i as int),
{
    let len: usize = bytes.len();
    if len < 11 || i > len - 11 {
        return false;
    }
    if bytes[i] != 58 || bytes[i + 1] != 118 || bytes[i + 6] != 58 || bytes[i + 7] != 115
        || bytes[i + 8] != 117 || bytes[i + 9] != 98 || bytes[i + 10] != 58 {
        return false;
    }
    let rest: &[u8] = slice_subrange(bytes, i + 11, len);
    assert(rest@ =~= bytes@.skip(i + 11));
    is_utf8(rest)
}

/// The bytes of an identity are ambiguous exactly where they read like those of another one from
/// an index within the namespace on.
proof fn lemma_ambiguous(namespace: Seq<char>, version: nat, sub_id: Option<Seq<char>>)
    ensures
        ambiguous(namespace, version, sub_id) <==> exists|i: int|
            i < encode_utf8(namespace).len() && #[trigger] reads_at(
                identity_plain(namespace, version, sub_id),
                i,
            ),
{
    let p = identity_plain(namespace, version, sub_id);
    let utf8 = encode_utf8(namespace);
    if ambiguous(namespace, version, sub_id) {
        let (n, v, s) = choose|n: Seq<char>, v: nat, s: Option<Seq<char>>|
            v < be_limit(4) && encode_utf8(n).len() < utf8.len() && #[trigger] identity_plain(
                n,
                v,
                s,
            ) == p;
        lemma_reads_at_end(n, v, s, namespace, version, sub_id);
        assert(reads_at(p, encode_utf8(n).len() as int));
    }
    if exists|i: int| i < utf8.len() && #[trigger] reads_at(p, i) {
        let i = choose|i: int| i < utf8.len() && #[trigger] reads_at(p, i);
        lemma_reads_as(namespace, version, sub_id, i);
    }
}

/// Where a shorter namespace gives the same bytes, they read like its identity from its end on.
proof fn lemma_reads_at_end(
    n: Seq<char>,
    v: nat,
    s: Option<Seq<char>>,
    namespace: Seq<char>,
    version: nat,
    sub_id: Option<Seq<char>>,
)
    requires
        encode_utf8(n).len() < encode_utf8(namespace).len(),
        identity_plain(n, v, s) == identity_plain(namespace, version, sub_id),
    ensures
        reads_at(identity_plain(n, v, s), encode_utf8(n).len() as int),
{
    let p = identity_plain(n, v, s);
    let i = encode_utf8(n).len() as int;
    lemma_identity_parts(v, s);
    lemma_identity_parts(version, sub_id);
    assert(p.len() == i + 6 + sub_tag(s).len());
    assert(p.len() >= encode_utf8(namespace).len() + 6);
    assert(s is Some);
    let t = identity_tail(v, s);
    assert forall|j: int| 0 <= j < t.len() implies p[i + j] == #[trigger] t[j] by {}
    assert(t[0] == 58 && t[1] == 118);
    let marker = encode_utf8(":sub:"@);
    assert forall|j: int| 0 <= j < 5 implies t[6 + j] == #[trigger] marker[j] by {
        assert(sub_tag(s)[j] == marker[j]);
    }
    assert(t[6] == marker[0] && t[7] == marker[1] && t[8] == marker[2] && t[9] == marker[3] && t[10]
        == marker[4]);
    assert(p[i] == t[0] && p[i + 1] == t[1] && p[i + 6] == t[6] && p[i + 7] == t[7] && p[i + 8]
        == t[8] && p[i + 9] == t[9] && p[i + 10] == t[10]);
    assert(p.skip(i + 11) =~= encode_utf8(s->0));
    encode_utf8_valid_utf8(s->0);
}

/// Where bytes read like those of another identity, there is such an identity.
proof fn lemma_reads_as(
    namespace: Seq<char>,
    version: nat,
    sub_id: Option<Seq<char>>,
    i: int,
)
    requires
        i < encode_utf8(namespace).len(),
        reads_at(identity_plain(namespace, version, sub_id), i),
    ensures
        ambiguous(namespace, version, sub_id),
{
    let p = identity_plain(namespace, version, sub_id);
    let utf8 = encode_utf8(namespace);
    encode_utf8_valid_utf8(namespace);
    assert(utf8[i] == p[i]);
    is_char_boundary_iff_not_is_continuation_byte(utf8, i);
    valid_utf8_split(utf8, i);
    let front = utf8.subrange(0, i);
    let digits = p.subrange(i + 2, i + 6);
    let sub = p.skip(i + 11);
    let n = decode_utf8(front);
    let v = be_value(digits);
    let s = Some(decode_utf8(sub));
    decode_utf8_encode_utf8(front);
    decode_utf8_encode_utf8(sub);
    lemma_be_value_bytes(digits);
    lemma_identity_parts(v, s);
    let marker = encode_utf8(":sub:"@);
    let q = identity_plain(n, v, s);
    assert(q =~= front + encode_utf8(":v"@) + digits + marker + sub);
    assert(front =~= p.take(i));
    assert(encode_utf8(":v"@) =~= p.subrange(i, i + 2));
    assert(marker =~= p.subrange(i + 6, i + 11));
    assert(q =~= p);
}

/// The bytes that the salt of an identity is the hash of.
pub fn identity_bytes(namespace: &str, version: u32, sub_id: Option<&str>) -> (r: Vec<u8>)
    ensures
        r@ == identity_tag(namespace@, version as nat, text_option(sub_id)),
{
    let ghost v = version as nat;
    let ghost s = text_option(sub_id);
    let mut plain: Vec<u8> = Vec::new();
    push_text(&mut plain, namespace);
    push_text(&mut plain, ":v");
    plain.extend_from_slice(&u32_be(version));
    if let Some(sub) = sub_id {
        push_text(&mut plain, ":sub:");
        push_text(&mut plain, sub);
    }
    assert(plain@ =~= identity_plain(namespace@, v, s));
    let len: usize = namespace.as_bytes().len();
    let mut is_ambiguous: bool = false;
    let mut i: usize = 0;
    while i < len && !is_ambiguous
        invariant
            len == encode_utf8(namespace@).len(),
            i <= len,
            is_ambiguous ==> i > 0 && reads_at(plain@, i - 1),
            !is_ambiguous ==> forall|j: int| j < i ==> !#[trigger] reads_at(plain@, j),
        decreases len - i,
    {
        is_ambiguous = reads_like_identity(plain.as_slice(), i);
        i = i + 1;
    }
    proof {
        lemma_ambiguous(namespace@, v, s);
    }
    let mut buf: Vec<u8> = Vec::new();
    if is_ambiguous {
        push_text(&mut buf, "CryDNA-v1-len:");
        buf.extend_from_slice(&u64_be(len as u64));
    } else {
        push_text(&mut buf, "CryDNA-v1:");
    }
    buf.extend_from_slice(plain.as_slice());
    assert(buf@ =~= identity_tag(namespace@, v, s));
    buf
}

/// The salt of an identity.
pub fn derive_salt(namespace: &str, version: u32, sub_id: Option<&str>) -> (r: [u8; 16])
    ensures
        r@ == identity_salt(namespace@, version as nat, text_option(sub_id)),
        !ambiguous(namespace@, version as nat, text_option(sub_id)) ==> r@ == sha256_digest(
            encode_utf8("CryDNA-v1:"@) + encode_utf8(namespace@) + encode_utf8(":v"@) + be_bytes(
                version as nat,
                4,
            ) + (match sub_id {
                Some(sub) => encode_utf8(":sub:"@) + encode_utf8(sub@),
                None => Seq::empty(),
            }),
        ).take(16),
        ambiguous(namespace@, version as nat, text_option(sub_id)) ==> r@ == sha256_digest(
            encode_utf8("CryDNA-v1-len:"@) + be_bytes(encode_utf8(namespace@).len(), 8)
                + encode_utf8(namespace@) + encode_utf8(":v"@) + be_bytes(version as nat, 4)
                + (match sub_id {
                Some(sub) => encode_utf8(":sub:"@) + encode_utf8(sub@),
                None => Seq::empty(),
            }),
        ).take(16),
{
    proof {
        law_identity_salt(namespace@, version as nat, text_option(sub_id));
    }
    let buf: Vec<u8> = identity_bytes(namespace, version, sub_id);
    salt_from_hash(&sha256(buf.as_slice()))
}

/// The salt of an identity, from the hash of its bytes.
pub fn salt_from_hash(hash: &[u8; 32]) -> (r: [u8; 16])
    ensures
        r@ == hash@.take(16),
{
    let salt: [u8; 16] = array_at(hash, 0);
    assert(salt@ =~= hash@.take(16));
    salt
}

/// An identity, held as the secret key of its Ed25519 key pair.
pub struct Identity {
    pub signing_key: SecretKey,
}

impl View for Identity {
    type V = Seq<u8>;

    open spec fn view(&self) -> Seq<u8> {
        self.signing_key@
    }
}

/// The message that is signed for a content.
pub open spec fn signed_message(content: Seq<u8>) -> Seq<u8> {
    sha256_digest(encode_utf8("CryDNA-file-sig-v1:"@) + sha256_digest(content))
}

/// The message that is signed for a content.
fn message_of(content: &[u8]) -> (r: [u8; 32])
    ensures
        r@ == signed_message(content@),
        r@ == sha256_digest(encode_utf8("CryDNA-file-sig-v1:"@) + sha256_digest(content@)),
{
    let hash: [u8; 32] = sha256(content);
    let mut buf: Vec<u8> = Vec::new();
    push_text(&mut buf, "CryDNA-file-sig-v1:");
    buf.extend_from_slice(&hash);
    proof {
        reveal_strlit("CryDNA-file-sig-v1:");
        is_ascii_chars_encode_utf8("CryDNA-file-sig-v1:"@);
        assert(buf@ =~= encode_utf8("CryDNA-file-sig-v1:"@) + sha256_digest(content@));
    }
    sha256(buf.as_slice())
}

/// The 32 bytes that a public key in hexadecimal stands for.
pub open spec fn parsed_public_key(text: Seq<char>) -> Result<Seq<u8>, ErrorView> {
    match hex_decoded(encode_utf8(text)) {
        Err(e) => Err(ErrorView::InvalidFormat("Invalid public key hex: "@ + e)),
        Ok(key) => if key.len() == 32 {
            Ok(key)
        } else {
            Err(ErrorView::InvalidFormat("Ed25519 public key must be exactly 32 bytes"@))
        },
    }
}

/// The 64 bytes that a signature in hexadecimal stands for.
pub open spec fn parsed_signature(text: Seq<char>) -> Result<Seq<u8>, ErrorView> {
    match hex_decoded(encode_utf8(text)) {
        Err(e) => Err(ErrorView::InvalidFormat("Invalid signature hex: "@ + e)),
        Ok(sig) => if sig.len() == 64 {
            Ok(sig)
        } else {
            Err(ErrorView::InvalidFormat("Ed25519 signature must be exactly 64 bytes"@))
        },
    }
}

/// Takes a public key from its hexadecimal form.
pub fn parse_public_key(text: &str) -> (r: Result<[u8; 32], CryError>)
    requires
        !hex_splits_character(encode_utf8(text@)),
    ensures
        outcome(r) == parsed_public_key(text@),
{
    match hex_to_bytes(text) {
        Err(e) => Err(
            CryError::InvalidFormat("Invalid public key hex: ".to_owned().concat(e.as_str())),
        ),
        Ok(b) => {
            if b.len() != 32 {
                return Err(
                    CryError::InvalidFormat(
                        "Ed25519 public key must be exactly 32 bytes".to_owned(),
                    ),
                );
            }
            let key: [u8; 32] = array_at(b.as_slice(), 0);
            assert(key@ =~= b@);
            Ok(key)
        },
    }
}

/// Takes a signature from its hexadecimal form.
pub fn parse_signature(text: &str) -> (r: Result<[u8; 64], CryError>)
    requires
        !hex_splits_character(encode_utf8(text@)),
    ensures
        outcome(r) == parsed_signature(text@),
{
    match hex_to_bytes(text) {
        Err(e) => Err(
            CryError::InvalidFormat("Invalid signature hex: ".to_owned().concat(e.as_str())),
        ),
        Ok(b) => {
            if b.len() != 64 {
                return Err(
                    CryError::InvalidFormat(
                        "Ed25519 signature must be exactly 64 bytes".to_owned(),
                    ),
                );
            }
            let sig: [u8; 64] = array_at(b.as_slice(), 0);
            assert(sig@ =~= b@);
            Ok(sig)
        },
    }
}

/// The error for 32 bytes that are no public key, with the reason.
pub fn refuse_public_key(reason: &str) -> (e: CryError)
    ensures
        e@ == ErrorView::InvalidFormat("Invalid Ed25519 public key: "@ + reason@),
{
    CryError::InvalidFormat("Invalid Ed25519 public key: ".to_owned().concat(reason))
}

/// Whether a signature belongs to a content under a public key, both in hexadecimal.
pub open spec fn signature_check(
    public_key: Seq<char>,
    content: Seq<u8>,
    signature: Seq<char>,
) -> Result<bool, ErrorView> {
    match checked_public_key(public_key) {
        Err(e) => Err(e),
        Ok(key) => match parsed_signature(signature) {
            Err(e) => Err(e),
            Ok(sig) => Ok(ed25519_accepts(key, signed_message(content), sig)),
        },
    }
}

/// The public key that a text in hexadecimal stands for: 32 bytes that encode a point.
pub open spec fn checked_public_key(text: Seq<char>) -> Result<Seq<u8>, ErrorView> {
    match parsed_public_key(text) {
        Err(e) => Err(e),
        Ok(key) => if ed25519_decodes(key) {
            Ok(key)
        } else {
            Err(
                ErrorView::InvalidFormat(
                    "Invalid Ed25519 public key: "@
                        + "signature error: Cannot decompress Edwards point"@,
                ),
            )
        },
    }
}

/// Takes a public key from its hexadecimal form, and refuses bytes that encode no point.
pub fn check_public_key(text: &str) -> (r: Result<[u8; 32], CryError>)
    requires
        !hex_splits_character(encode_utf8(text@)),
    ensures
        outcome(r) == checked_public_key(text@),
{
    let key: [u8; 32] = match parse_public_key(text) {
        Ok(key) => key,
        Err(e) => {
            return Err(e);
        },
    };
    match ed25519_check_key(&key) {
        Ok(()) => Ok(key),
        Err(e) => Err(refuse_public_key(e.as_str())),
    }
}

/// Verifies the signature of a content, given a public key and a signature in hexadecimal:
/// `Ok(true)` where it is valid, `Ok(false)` where it is not.
pub fn verify_content_signature(
    public_key_hex: &str,
    content: &[u8],
    signature_hex: &str,
) -> (r: Result<bool, CryError>)
    requires
        !hex_splits_character(encode_utf8(public_key_hex@)),
        checked_public_key(public_key_hex@) is Ok ==> !hex_splits_character(
            encode_utf8(signature_hex@),
        ),
    ensures
        outcome(r) == signature_check(public_key_hex@, content@, signature_hex@),
        ({
            let key = hex_decoded(encode_utf8(public_key_hex@));
            let sig = hex_decoded(encode_utf8(signature_hex@));
            let message = sha256_digest(encode_utf8("CryDNA-file-sig-v1:"@) + sha256_digest(content@));
            let parsed = key is Ok && key->Ok_0.len() == 32 && ed25519_decodes(key->Ok_0) && sig is Ok
                && sig->Ok_0.len() == 64;
            &&& r is Ok <==> parsed
            &&& r matches Ok(valid) ==> valid == ed25519_accepts(key->Ok_0, message, sig->Ok_0)
        }),
{
    let key: [u8; 32] = match check_public_key(public_key_hex) {
        Ok(key) => key,
        Err(e) => {
            return Err(e);
        },
    };
    let sig: [u8; 64] = match parse_signature(signature_hex) {
        Ok(sig) => sig,
        Err(e) => {
            return Err(e);
        },
    };
    let message: [u8; 32] = message_of(content);
    Ok(ed25519_verify(&key, &message, &sig))
}

/// Verifies the signature of a content, whatever the two texts are: nothing where a text would
/// have to be cut within a character, and otherwise what [`verify_content_signature`] gives.
pub fn try_verify_content_signature(
    public_key_hex: &str,
    content: &[u8],
    signature_hex: &str,
) -> (r: Option<Result<bool, CryError>>)
    ensures
        r is None <==> hex_splits_character(encode_utf8(public_key_hex@)) || (checked_public_key(
            public_key_hex@,
        ) is Ok && hex_splits_character(encode_utf8(signature_hex@))),
        r matches Some(v) ==> outcome(v) == signature_check(
            public_key_hex@,
            content@,
            signature_hex@,
        ),
{
    if splits_character(public_key_hex) {
        return None;
    }
    if check_public_key(public_key_hex).is_ok() && splits_character(signature_hex) {
        return None;
    }
    Some(verify_content_signature(public_key_hex, content, signature_hex))
}

/// What is signed with a key verifies under the public key that belongs to it.
proof fn lemma_signature_checks(secret: Seq<u8>, content: Seq<u8>, sig: Seq<u8>)
    requires
        sig.len() == 64,
        ed25519_valid(ed25519_public(secret), signed_message(content), sig),
    ensures
        signature_check(hex_text(ed25519_public(secret)), content, hex_text(sig)) == Ok::<
            bool,
            ErrorView,
        >(true),
{
    law_hex_round_trip(ed25519_public(secret));
    law_hex_round_trip(sig);
}

/// A SHA-256 hash in the form in which OpenSSH shows fingerprints.
pub open spec fn fingerprint_text(hash: Seq<u8>) -> Seq<char> {
    "SHA256:"@ + trimmed_end_of(base64_text(hash), '=')
}

/// Shows a SHA-256 hash as OpenSSH shows fingerprints.
pub fn format_fingerprint(hash: &[u8; 32]) -> (r: String)
    ensures
        r@ == fingerprint_text(hash@),
        r@.len() == 50,
{
    let text: Vec<char> = chars_of(base64(hash).as_str());
    proof {
        reveal_strlit("SHA256:");
        let whole = base64_text(hash@);
        assert(whole[43] == '=');
        assert(whole[42] != '=');
        reveal_with_fuel(trimmed_end_of, 3);
        assert(trimmed_end_of(whole, '=') == whole.drop_last());
    }
    let mut r: String = "SHA256:".to_owned();
    r.append(string_of(trim_end_of(text.as_slice(), '=')).as_str());
    r
}

/// The SSH wire form of an Ed25519 public key: the name of the key type and the key, each
/// after its length.
pub open spec fn ssh_wire(public: Seq<u8>) -> Seq<u8> {
    be_bytes(11, 4) + encode_utf8("ssh-ed25519"@) + be_bytes(public.len(), 4) + public
}

/// The SSH wire form of an Ed25519 public key.
pub fn ssh_wire_public_key(pub_bytes: &[u8; 32]) -> (r: Vec<u8>)
    ensures
        r@ == ssh_wire(pub_bytes@),
        r@.len() == 51,
{
    let mut wire: Vec<u8> = Vec::new();
    wire.extend_from_slice(&u32_be(11));
    push_text(&mut wire, "ssh-ed25519");
    wire.extend_from_slice(&u32_be(32));
    wire.extend_from_slice(pub_bytes);
    proof {
        reveal_strlit("ssh-ed25519");
        is_ascii_chars_encode_utf8("ssh-ed25519"@);
        lemma_be_bytes_len(11, 4);
        lemma_be_bytes_len(32, 4);
        assert(wire@ =~= ssh_wire(pub_bytes@));
    }
    wire
}

/// The line for a public key in `authorized_keys`.
pub open spec fn authorized_keys_text(public: Seq<u8>, comment: Seq<char>) -> Seq<char> {
    "ssh-ed25519 "@ + base64_text(ssh_wire(public)) + " "@ + comment
}

/// The line for a public key in `authorized_keys`.
pub fn format_authorized_keys(public: &[u8; 32], comment: &str) -> (r: String)
    ensures
        r@ == authorized_keys_text(public@, comment@),
{
    let wire: Vec<u8> = ssh_wire_public_key(public);
    let mut r: String = "ssh-ed25519 ".to_owned();
    r.append(base64(wire.as_slice()).as_str());
    r.append(" ");
    r.append(comment);
    r
}

/// The error for a private key block that could not be written.
pub open spec fn openssh_error(e: OpensshFailureView) -> ErrorView {
    match e {
        OpensshFailureView::Build(m) => ErrorView::InvalidFormat("OpenSSH key build failed: "@ + m),
        OpensshFailureView::Encrypt(m) => ErrorView::InvalidFormat(
            "OpenSSH key encryption failed: "@ + m,
        ),
        OpensshFailureView::Encode(m) => ErrorView::InvalidFormat(
            "OpenSSH key encode failed: "@ + m,
        ),
    }
}

/// What a private key block, or the failure to write it, becomes.
pub fn openssh_result(r: Result<String, OpensshFailure>) -> (out: Result<SecretText, CryError>)
    ensures
        outcome(out) == match r {
            Ok(t) => Ok(t@),
            Err(e) => Err(openssh_error(e@)),
        },
{
    match r {
        Ok(text) => Ok(SecretText { text }),
        Err(OpensshFailure::Build(m)) => Err(
            CryError::InvalidFormat("OpenSSH key build failed: ".to_owned().concat(m.as_str())),
        ),
        Err(OpensshFailure::Encrypt(m)) => Err(
            CryError::InvalidFormat(
                "OpenSSH key encryption failed: ".to_owned().concat(m.as_str()),
            ),
        ),
        Err(OpensshFailure::Encode(m)) => Err(
            CryError::InvalidFormat("OpenSSH key encode failed: ".to_owned().concat(m.as_str())),
        ),
    }
}

impl Identity {
    /// Derives the identity of a passphrase, a namespace, a version and an optional
    /// sub-identity.
    pub fn derive(
        passphrase: &[u8],
        namespace: &str,
        version: u32,
        sub_id: Option<&str>,
    ) -> (r: Result<Identity, CryError>)
        ensures
            outcome(r) == derived_key(
                passphrase@,
                identity_salt(namespace@, version as nat, text_option(sub_id)),
            ),
            r is Ok <==> passphrase@.len() <= 0xffff_ffff,
            r matches Ok(id) ==> !ambiguous(namespace@, version as nat, text_option(sub_id))
                ==> id.signing_key.bytes@ == argon2id_hash(
                passphrase@,
                sha256_digest(
                    encode_utf8("CryDNA-v1:"@) + encode_utf8(namespace@) + encode_utf8(":v"@) + be_bytes(
                        version as nat,
                        4,
                    ) + (match sub_id {
                        Some(sub) => encode_utf8(":sub:"@) + encode_utf8(sub@),
                        None => Seq::empty(),
                    }),
                ).take(16),
                65536,
                3,
                1,
                32,
            ),
    {
        let salt: [u8; 16] = derive_salt(namespace, version, sub_id);
        match derive_key(passphrase, &salt) {
            Ok(signing_key) => Ok(Identity { signing_key }),
            Err(e) => Err(e),
        }
    }

    /// The Ed25519 public key.
    pub fn verifying_key(&self) -> (r: [u8; 32])
        ensures
            r@ == ed25519_public(self@),
            r@ == ed25519_public(self.signing_key.bytes@),
            ed25519_decodes(r@),
    {
        ed25519_public_key(&self.signing_key.bytes)
    }

    /// The public key in lower-case hexadecimal.
    pub fn public_key_hex(&self) -> (r: String)
        ensures
            r@ == hex_text(ed25519_public(self@)),
            r@ == hex_text(ed25519_public(self.signing_key.bytes@)),
            r@.len() == 64,
    {
        bytes_to_hex(&self.verifying_key())
    }

    /// The public key in standard Base64.
    pub fn public_key_base64(&self) -> (r: String)
        ensures
            r@ == base64_text(ed25519_public(self@)),
            r@ == base64_text(ed25519_public(self.signing_key.bytes@)),
            r@.len() == 44,
    {
        base64(&self.verifying_key())
    }

    /// The fingerprint of the public key, in the form `SHA256:...`.
    pub fn fingerprint(&self) -> (r: String)
        ensures
            r@ == fingerprint_text(sha256_digest(ed25519_public(self@))),
            r@ == "SHA256:"@ + base64_text(
                sha256_digest(ed25519_public(self.signing_key.bytes@)),
            ).take(43),
            r@.len() == 50,
    {
        let public: [u8; 32] = self.verifying_key();
        let hash: [u8; 32] = sha256(&public);
        proof {
            law_public_forms(public@, hash@, Seq::empty());
        }
        format_fingerprint(&hash)
    }

    /// The line for the public key in `authorized_keys`.
    pub fn ssh_authorized_keys_line(&self, comment: &str) -> (r: String)
        ensures
            r@ == authorized_keys_text(ed25519_public(self@), comment@),
            r@ == "ssh-ed25519 "@ + base64_text(
                seq![0u8, 0, 0, 11] + encode_utf8("ssh-ed25519"@) + seq![0u8, 0, 0, 32]
                    + ed25519_public(self.signing_key.bytes@),
            ) + " "@ + comment@,
    {
        let public: [u8; 32] = self.verifying_key();
        proof {
            law_public_forms(public@, public@, comment@);
        }
        format_authorized_keys(&public, comment)
    }

    /// The 64 bytes of the key pair: the secret key, then the public key.
    pub(crate) fn keypair_bytes(&self) -> (r: [u8; 64])
        ensures
            r@ == ed25519_keypair(self@),
            r@ == ed25519_keypair(r@.take(32)),
    {
        let public: [u8; 32] = self.verifying_key();
        let mut r: [u8; 64] = [0u8; 64];
        let mut i: usize = 0;
        while i < 32
            invariant
                i <= 32,
                forall|j: int| 0 <= j < i ==> r@[j] == self.signing_key.bytes@[j],
                forall|j: int| 0 <= j < i ==> r@[32 + j] == public@[j],
            decreases 32 - i,
        {
            r[i] = self.signing_key.bytes[i];
            r[32 + i] = public[i];
            i = i + 1;
        }
        assert(r@ =~= ed25519_keypair(self@));
        assert(r@.take(32) =~= self@);
        r
    }

    /// The key pair as an OpenSSH private key block, encrypted under a passphrase of its own.
    /// The block differs from call to call; what it holds does not.
    pub fn openssh_private_key(&self, passphrase: &str, comment: &str) -> (r: Result<
        SecretText,
        CryError,
    >)
        ensures
            passphrase@.len() == 0 ==> outcome(r) == Err::<Seq<char>, ErrorView>(
                ErrorView::InvalidFormat("OpenSSH key encryption failed: "@ + "cryptographic error"@),
            ),
            passphrase@.len() > 0 && openssh_writes(comment@) ==> r is Ok,
            r matches Ok(block) ==> openssh_reads(comment@) ==> openssh_contents(
                block@,
                passphrase@,
            ) == Some((ed25519_keypair(self@), comment@)),
            r matches Ok(block) ==> openssh_reads(comment@) ==> openssh_contents(
                block.text@,
                passphrase@,
            ) == Some(
                (
                    self.signing_key.bytes@ + ed25519_public(self.signing_key.bytes@),
                    comment@,
                ),
            ),
            r is Ok <==> openssh_refusal(comment@, passphrase@) is None,
            r matches Err(e) ==> e@ == openssh_error(openssh_refusal(comment@, passphrase@)->0),
    {
        let mut keypair: [u8; 64] = self.keypair_bytes();
        let block: Result<String, OpensshFailure> = openssh_encrypt(&keypair, comment, passphrase);
        zeroize_bytes(&mut keypair);
        openssh_result(block)
    }

    /// The secret key in lower-case hexadecimal.
    pub fn private_key_hex(&self) -> (r: String)
        ensures
            r@ == hex_text(self@),
            r@ == hex_text(self.signing_key.bytes@),
            r@.len() == 64,
    {
        bytes_to_hex(&self.signing_key.bytes)
    }

    /// What is written to the private key file shown as `path`: the secret key in lower-case
    /// hexadecimal. Refuses where the file exists, unless `force` is set.
    pub fn write_private_key_hex_file(&self, present: bool, path: &str, force: bool) -> (r: Result<
        String,
        CryError,
    >)
        ensures
            outcome(r) == if may_write(present, force) {
                Ok(hex_text(self@))
            } else {
                Err(ErrorView::FileExists(path@))
            },
    {
        match check_overwrite(present, path, force) {
            Ok(()) => Ok(self.private_key_hex()),
            Err(e) => Err(e),
        }
    }

    /// Signs a content.
    pub fn sign_content(&self, content: &[u8]) -> (r: [u8; 64])
        ensures
            r@ == ed25519_signature(self@, signed_message(content@)),
            r@ == ed25519_signature(
                self.signing_key.bytes@,
                sha256_digest(encode_utf8("CryDNA-file-sig-v1:"@) + sha256_digest(content@)),
            ),
            signature_check(hex_text(ed25519_public(self@)), content@, hex_text(r@)) == Ok::<
                bool,
                ErrorView,
            >(true),
    {
        let message: [u8; 32] = message_of(content);
        let sig: [u8; 64] = ed25519_sign(&self.signing_key.bytes, &message);
        proof {
            lemma_signature_checks(self@, content@, sig@);
        }
        sig
    }

    /// A signature in lower-case hexadecimal.
    pub fn signature_hex(sig: &[u8; 64]) -> (r: String)
        ensures
            r@ == hex_text(sig@),
            r@.len() == 128,
    {
        bytes_to_hex(sig)
    }
}

/// `std::path::PathBuf`, carried through without being looked into.
#[verifier::external_type_specification]
#[verifier::external_body]
pub struct ExPathBuf(std::path::PathBuf);

/// The parameters of an identity, as the commands that derive one take them.
#[derive(Debug, Clone)]
pub struct IdentityParams {
    /// Namespace; another one gives an independent key.
    pub namespace: String,
    /// Version; another one rotates the key within the namespace.
    pub key_version: u32,
    /// Sub-identity, for a key below that of the namespace.
    pub sub_id: Option<String>,
    /// File whose first line is the passphrase.
    pub pass_file: Option<std::path::PathBuf>,
}

/// The arguments for showing and exporting an identity.
#[derive(Debug)]
pub struct IdentityArgs {
    pub params: IdentityParams,
    /// Forms in which the public key is shown.
    pub format: PubKeyFormat,
    /// Show the encrypted OpenSSH private key and the `authorized_keys` line.
    pub openssh: bool,
    /// File to write the private key to.
    pub private_key_out: Option<std::path::PathBuf>,
    /// Overwrite existing files.
    pub force: bool,
    /// Comment in the `authorized_keys` line.
    pub comment: String,
    /// Show the private key.
    pub show_private_key: bool,
}

/// The arguments for signing a file.
#[derive(Debug)]
pub struct SignArgs {
    /// File to sign.
    pub file: std::path::PathBuf,
    pub params: IdentityParams,
}

/// The arguments for verifying the signature of a file.
#[derive(Debug)]
pub struct VerifyArgs {
    /// File that was signed.
    pub file: std::path::PathBuf,
    /// Signature in hexadecimal.
    pub signature: String,
    /// Public key in hexadecimal.
    pub public_key: String,
}

/// Forms in which a public key is shown.
#[derive(Debug, Clone)]
pub enum PubKeyFormat {
    /// Lower-case hexadecimal, 64 characters.
    Hex,
    /// Standard Base64, 44 characters.
    Base64,
    /// Both.
    All,
}

/// Markers and versions have fixed lengths, and the marker of the version is `:v`.
proof fn lemma_identity_parts(version: nat, sub_id: Option<Seq<char>>)
    ensures
        be_bytes(version, 4).len() == 4,
        encode_utf8(":v"@).len() == 2,
        encode_utf8(":v"@)[0] == 58,
        encode_utf8(":v"@)[1] == 118,
        encode_utf8(":sub:"@) == seq![58u8, 115, 117, 98, 58],
        identity_tail(version, sub_id).len() == 6 + sub_tag(sub_id).len(),
{
    lemma_be_bytes_len(version, 4);
    reveal_strlit(":v");
    reveal_strlit(":sub:");
    is_ascii_chars_encode_utf8(":v"@);
    is_ascii_chars_encode_utf8(":sub:"@);
    assert(encode_utf8(":sub:"@) =~= seq![58u8, 115, 117, 98, 58]);
}

/// The version and the sub-identity can be read off what follows the namespace.
proof fn lemma_identity_tail_injective(
    version1: nat,
    sub_id1: Option<Seq<char>>,
    version2: nat,
    sub_id2: Option<Seq<char>>,
)
    requires
        version1 < be_limit(4),
        version2 < be_limit(4),
        identity_tail(version1, sub_id1) == identity_tail(version2, sub_id2),
    ensures
        version1 == version2,
        sub_id1 == sub_id2,
{
    lemma_identity_parts(version1, sub_id1);
    lemma_identity_parts(version2, sub_id2);
    let a = identity_tail(version1, sub_id1);
    let b = identity_tail(version2, sub_id2);
    assert(a.subrange(2, 6) =~= be_bytes(version1, 4));
    assert(b.subrange(2, 6) =~= be_bytes(version2, 4));
    lemma_be_bytes_injective(version1, version2, 4);
    assert(a.skip(6) =~= sub_tag(sub_id1));
    assert(b.skip(6) =~= sub_tag(sub_id2));
    if let (Some(x), Some(y)) = (sub_id1, sub_id2) {
        assert(sub_tag(sub_id1).skip(5) =~= encode_utf8(x));
        assert(sub_tag(sub_id2).skip(5) =~= encode_utf8(y));
        encode_utf8_decode_utf8(x);
        encode_utf8_decode_utf8(y);
    }
}

/// Two ways of cutting one sequence, the second cut not before the first.
proof fn lemma_two_cuts(a: Seq<u8>, b: Seq<u8>, c: Seq<u8>, d: Seq<u8>)
    requires
        a + b == c + d,
        a.len() <= c.len(),
    ensures
        c == a + c.skip(a.len() as int),
        b == c.skip(a.len() as int) + d,
{
    let whole = a + b;
    let n = a.len() as int;
    assert(c.take(n) =~= a) by {
        assert forall|i: int| 0 <= i < n implies c[i] == a[i] by {
            assert(whole[i] == a[i]);
            assert((c + d)[i] == c[i]);
        }
    }
    assert(c =~= c.take(n) + c.skip(n));
    assert(b =~= whole.skip(n));
    assert((c + d).skip(n) =~= c.skip(n) + d);
}

/// The two texts that can precede a namespace differ in their tenth byte.
proof fn lemma_fronts()
    ensures
        encode_utf8("CryDNA-v1:"@).len() == 10,
        encode_utf8("CryDNA-v1:"@)[9] == 58,
        encode_utf8("CryDNA-v1-len:"@).len() == 14,
        encode_utf8("CryDNA-v1-len:"@)[9] == 45,
{
    reveal_strlit("CryDNA-v1:");
    reveal_strlit("CryDNA-v1-len:");
    is_ascii_chars_encode_utf8("CryDNA-v1:"@);
    is_ascii_chars_encode_utf8("CryDNA-v1-len:"@);
    assert("CryDNA-v1:"@[9] == ':');
    assert("CryDNA-v1-len:"@[9] == '-');
}

/// A change to the namespace, the version or the sub-identity changes the bytes that the salt
/// is the hash of. The lengths of the namespaces fit eight bytes, as those of all strings do.
pub proof fn law_identities_differ(
    namespace1: Seq<char>,
    version1: nat,
    sub_id1: Option<Seq<char>>,
    namespace2: Seq<char>,
    version2: nat,
    sub_id2: Option<Seq<char>>,
)
    requires
        version1 < be_limit(4),
        version2 < be_limit(4),
        encode_utf8(namespace1).len() < be_limit(8),
        encode_utf8(namespace2).len() < be_limit(8),
        (namespace1, version1, sub_id1) != (namespace2, version2, sub_id2),
    ensures
        identity_tag(namespace1, version1, sub_id1) != identity_tag(
            namespace2,
            version2,
            sub_id2,
        ),
{
    let n1 = encode_utf8(namespace1);
    let n2 = encode_utf8(namespace2);
    let p1 = identity_plain(namespace1, version1, sub_id1);
    let p2 = identity_plain(namespace2, version2, sub_id2);
    let tag1 = identity_tag(namespace1, version1, sub_id1);
    let tag2 = identity_tag(namespace2, version2, sub_id2);
    if tag1 == tag2 {
        lemma_fronts();
        lemma_be_bytes_len(n1.len(), 8);
        lemma_be_bytes_len(n2.len(), 8);
        let ambiguous1 = ambiguous(namespace1, version1, sub_id1);
        let ambiguous2 = ambiguous(namespace2, version2, sub_id2);
        assert(tag1[9] == if ambiguous1 { 45u8 } else { 58u8 });
        assert(tag2[9] == if ambiguous2 { 45u8 } else { 58u8 });
        if ambiguous1 {
            assert(tag1.subrange(14, 22) =~= be_bytes(n1.len(), 8));
            assert(tag2.subrange(14, 22) =~= be_bytes(n2.len(), 8));
            lemma_be_bytes_injective(n1.len(), n2.len(), 8);
            assert(tag1.skip(22) =~= p1 && tag2.skip(22) =~= p2);
        } else {
            assert(tag1.skip(10) =~= p1 && tag2.skip(10) =~= p2);
            assert(p1 == p2);
            assert(n1.len() == n2.len());
        }
        lemma_two_cuts(
            n1,
            identity_tail(version1, sub_id1),
            n2,
            identity_tail(version2, sub_id2),
        );
        assert(n2.skip(n1.len() as int) =~= Seq::empty());
        assert(n1 =~= n2);
        assert(identity_tail(version1, sub_id1) =~= identity_tail(version2, sub_id2));
        encode_utf8_decode_utf8(namespace1);
        encode_utf8_decode_utf8(namespace2);
        lemma_identity_tail_injective(version1, sub_id1, version2, sub_id2);
    }
}

/// The bytes that a salt is the hash of are a fixed text, the namespace, the version and the
/// sub-identity with their markers, unless those of an identity with a shorter namespace would
/// be the same.
pub proof fn law_plain_layout(namespace: Seq<char>, version: nat, sub_id: Option<Seq<char>>)
    requires
        !ambiguous(namespace, version, sub_id),
    ensures
        identity_tag(namespace, version, sub_id) == encode_utf8("CryDNA-v1:"@) + encode_utf8(
            namespace,
        ) + encode_utf8(":v"@) + be_bytes(version, 4) + sub_tag(sub_id),
{
    assert(identity_tag(namespace, version, sub_id) =~= encode_utf8("CryDNA-v1:"@) + encode_utf8(
        namespace,
    ) + encode_utf8(":v"@) + be_bytes(version, 4) + sub_tag(sub_id));
}

/// A namespace that does not hold `:v` is never ambiguous.
pub proof fn law_unambiguous(namespace: Seq<char>, version: nat, sub_id: Option<Seq<char>>)
    requires
        forall|i: int|
            0 <= i < encode_utf8(namespace).len() - 1 ==> !(#[trigger] encode_utf8(namespace)[i]
                == 58 && encode_utf8(namespace)[i + 1] == 118),
    ensures
        !ambiguous(namespace, version, sub_id),
{
    let p = identity_plain(namespace, version, sub_id);
    let utf8 = encode_utf8(namespace);
    lemma_ambiguous(namespace, version, sub_id);
    lemma_identity_parts(version, sub_id);
    if ambiguous(namespace, version, sub_id) {
        let i = choose|i: int| i < utf8.len() && #[trigger] reads_at(p, i);
        assert(p[i] == utf8[i]);
        if i + 1 < utf8.len() {
            assert(p[i + 1] == utf8[i + 1]);
        } else {
            assert(p[i + 1] == identity_tail(version, sub_id)[0]);
        }
    }
}

/// The salt of an identity is the start of the SHA-256 hash of a fixed text, the namespace, the
/// version and the sub-identity, each as it is given and behind its marker; where an identity
/// with a shorter namespace would have the same bytes, another fixed text and the length of the
/// namespace come first.
pub proof fn law_identity_salt(namespace: Seq<char>, version: nat, sub_id: Option<Seq<char>>)
    ensures
        !ambiguous(namespace, version, sub_id) ==> identity_salt(namespace, version, sub_id)
            == sha256_digest(
            encode_utf8("CryDNA-v1:"@) + encode_utf8(namespace) + encode_utf8(":v"@) + be_bytes(
                version,
                4,
            ) + (match sub_id {
                Some(sub) => encode_utf8(":sub:"@) + encode_utf8(sub),
                None => Seq::empty(),
            }),
        ).take(16),
        ambiguous(namespace, version, sub_id) ==> identity_salt(namespace, version, sub_id)
            == sha256_digest(
            encode_utf8("CryDNA-v1-len:"@) + be_bytes(encode_utf8(namespace).len(), 8)
                + encode_utf8(namespace) + encode_utf8(":v"@) + be_bytes(version, 4) + (
            match sub_id {
                Some(sub) => encode_utf8(":sub:"@) + encode_utf8(sub),
                None => Seq::empty(),
            }),
        ).take(16),
        ambiguous(namespace, version, sub_id) <==> exists|
            n: Seq<char>,
            v: nat,
            s: Option<Seq<char>>,
        |
            v < 0x1_0000_0000 && encode_utf8(n).len() < encode_utf8(namespace).len()
                && #[trigger] identity_plain(n, v, s) == identity_plain(
                namespace,
                version,
                sub_id,
            ),
        identity_plain(namespace, version, sub_id) == encode_utf8(namespace) + encode_utf8(":v"@)
            + be_bytes(version, 4) + (match sub_id {
            Some(sub) => encode_utf8(":sub:"@) + encode_utf8(sub),
            None => Seq::empty(),
        }),
{
    let tail = match sub_id {
        Some(sub) => encode_utf8(":sub:"@) + encode_utf8(sub),
        None => Seq::empty(),
    };
    lemma_be_limits();
    let front = encode_utf8("CryDNA-v1:"@);
    let long = encode_utf8("CryDNA-v1-len:"@) + be_bytes(encode_utf8(namespace).len(), 8);
    let plain = encode_utf8(namespace) + encode_utf8(":v"@) + be_bytes(version, 4) + tail;
    assert(identity_plain(namespace, version, sub_id) =~= plain);
    assert(front + plain =~= front + encode_utf8(namespace) + encode_utf8(":v"@) + be_bytes(
        version,
        4,
    ) + tail);
    assert(long + plain =~= long + encode_utf8(namespace) + encode_utf8(":v"@) + be_bytes(
        version,
        4,
    ) + tail);
}

/// Where SHA-256 tells the bytes of two identities apart, the identities have different salts: no
/// part of what names them is left out or changed before it is hashed.
pub proof fn law_salts_as_hashes(
    namespace1: Seq<char>,
    version1: nat,
    sub_id1: Option<Seq<char>>,
    namespace2: Seq<char>,
    version2: nat,
    sub_id2: Option<Seq<char>>,
)
    requires
        version1 < 0x1_0000_0000,
        version2 < 0x1_0000_0000,
        encode_utf8(namespace1).len() < 0x1_0000_0000_0000_0000,
        encode_utf8(namespace2).len() < 0x1_0000_0000_0000_0000,
        sha256_digest(identity_tag(namespace1, version1, sub_id1)).take(16) == sha256_digest(
            identity_tag(namespace2, version2, sub_id2),
        ).take(16) ==> identity_tag(namespace1, version1, sub_id1) == identity_tag(
            namespace2,
            version2,
            sub_id2,
        ),
        identity_salt(namespace1, version1, sub_id1) == identity_salt(
            namespace2,
            version2,
            sub_id2,
        ),
    ensures
        namespace1 == namespace2,
        version1 == version2,
        sub_id1 == sub_id2,
{
    lemma_be_limits();
    if (namespace1, version1, sub_id1) != (namespace2, version2, sub_id2) {
        law_identities_differ(namespace1, version1, sub_id1, namespace2, version2, sub_id2);
    }
}

/// What is signed is the SHA-256 hash of a fixed text and the SHA-256 hash of the whole content.
pub proof fn law_signed_message(content: Seq<u8>)
    ensures
        signed_message(content) == sha256_digest(
            encode_utf8("CryDNA-file-sig-v1:"@) + sha256_digest(content),
        ),
{
}

/// Where SHA-256 tells two contents apart, and what it is then applied to, they are signed by
/// different messages: a signature covers every byte of the content.
pub proof fn law_contents_told_apart(a: Seq<u8>, b: Seq<u8>)
    requires
        a != b,
        sha256_digest(a) == sha256_digest(b) ==> a == b,
        sha256_digest(encode_utf8("CryDNA-file-sig-v1:"@) + sha256_digest(a)) == sha256_digest(
            encode_utf8("CryDNA-file-sig-v1:"@) + sha256_digest(b),
        ) ==> encode_utf8("CryDNA-file-sig-v1:"@) + sha256_digest(a) == encode_utf8(
            "CryDNA-file-sig-v1:"@,
        ) + sha256_digest(b),
    ensures
        signed_message(a) != signed_message(b),
{
    let front = encode_utf8("CryDNA-file-sig-v1:"@);
    if signed_message(a) == signed_message(b) {
        let n = front.len() as int;
        assert((front + sha256_digest(a)).skip(n) =~= sha256_digest(a));
        assert((front + sha256_digest(b)).skip(n) =~= sha256_digest(b));
    }
}

/// A signature is checked by the 32 bytes of the key, the 64 bytes of the signature and the hash of
/// the whole content; what is wrong with the texts is answered in this order.
pub proof fn law_signature_check(public_key: Seq<char>, content: Seq<u8>, signature: Seq<char>)
    ensures
        ({
            let r = signature_check(public_key, content, signature);
            let key = hex_decoded(encode_utf8(public_key));
            let sig = hex_decoded(encode_utf8(signature));
            let refused = |m: Seq<char>| r == Err::<bool, ErrorView>(ErrorView::InvalidFormat(m));
            match key {
                Err(e) => refused("Invalid public key hex: "@ + e),
                Ok(k) => if k.len() != 32 {
                    refused("Ed25519 public key must be exactly 32 bytes"@)
                } else if !ed25519_decodes(k) {
                    refused(
                        "Invalid Ed25519 public key: "@
                            + "signature error: Cannot decompress Edwards point"@,
                    )
                } else {
                    match sig {
                        Err(e) => refused("Invalid signature hex: "@ + e),
                        Ok(s) => if s.len() != 64 {
                            refused("Ed25519 signature must be exactly 64 bytes"@)
                        } else {
                            r == Ok::<bool, ErrorView>(
                                ed25519_accepts(
                                    k,
                                    sha256_digest(
                                        encode_utf8("CryDNA-file-sig-v1:"@) + sha256_digest(content),
                                    ),
                                    s,
                                ),
                            )
                        },
                    }
                },
            }
        }),
{
}

/// The public forms of a key: the fingerprint is `SHA256:` and the Base64 text of the hash without
/// the padding at its end; the wire form and the line hold the whole key and the whole comment.
pub proof fn law_public_forms(public: Seq<u8>, hash: Seq<u8>, comment: Seq<char>)
    requires
        public.len() == 32,
        hash.len() == 32,
    ensures
        fingerprint_text(hash) == "SHA256:"@ + base64_text(hash).take(43),
        base64_text(hash).len() == 44,
        base64_text(hash)[43] == '=',
        ssh_wire(public) == seq![0u8, 0, 0, 11] + encode_utf8("ssh-ed25519"@) + seq![0u8, 0, 0, 32]
            + public,
        authorized_keys_text(public, comment) == "ssh-ed25519 "@ + base64_text(
            seq![0u8, 0, 0, 11] + encode_utf8("ssh-ed25519"@) + seq![0u8, 0, 0, 32] + public,
        ) + " "@ + comment,
{
    let whole = base64_text(hash);
    assert(whole[43] == '=');
    assert(whole[42] != '=');
    reveal_with_fuel(trimmed_end_of, 3);
    assert(trimmed_end_of(whole, '=') == whole.drop_last());
    assert(whole.drop_last() =~= whole.take(43));
    reveal_with_fuel(be_bytes, 5);
    assert(be_bytes(11, 4) =~= seq![0u8, 0, 0, 11]);
    assert(be_bytes(32, 4) =~= seq![0u8, 0, 0, 32]);
}

/// Base64 characters are those of the standard alphabet, in its order.
pub proof fn law_base64_alphabet(v: int)
    requires
        0 <= v < 64,
    ensures
        base64_char(v) == "ABCDEFGHIJKLMNOPQRSTUVWXYZabcdefghijklmnopqrstuvwxyz0123456789+/"@[v],
{
    reveal_strlit("ABCDEFGHIJKLMNOPQRSTUVWXYZabcdefghijklmnopqrstuvwxyz0123456789+/");
    assert forall|k: int| 0 <= k < 64 implies base64_char(k)
        == #[trigger] "ABCDEFGHIJKLMNOPQRSTUVWXYZabcdefghijklmnopqrstuvwxyz0123456789+/"@[k] by {
        assert(k == 0 || k == 1 || k == 2 || k == 3 || k == 4 || k == 5 || k == 6 || k == 7 || k == 8
            || k == 9 || k == 10 || k == 11 || k == 12 || k == 13 || k == 14 || k == 15 || k == 16
            || k == 17 || k == 18 || k == 19 || k == 20 || k == 21 || k == 22 || k == 23 || k == 24
            || k == 25 || k == 26 || k == 27 || k == 28 || k == 29 || k == 30 || k == 31 || k == 32
            || k == 33 || k == 34 || k == 35 || k == 36 || k == 37 || k == 38 || k == 39 || k == 40
            || k == 41 || k == 42 || k == 43 || k == 44 || k == 45 || k == 46 || k == 47 || k == 48
            || k == 49 || k == 50 || k == 51 || k == 52 || k == 53 || k == 54 || k == 55 || k == 56
            || k == 57 || k == 58 || k == 59 || k == 60 || k == 61 || k == 62 || k == 63);
    }
}

/// The failure to write a private key block is told by its step and the whole reason.
pub proof fn law_openssh_errors(m: Seq<char>)
    ensures
        openssh_error(OpensshFailureView::Build(m)) == ErrorView::InvalidFormat(
            "OpenSSH key build failed: "@ + m,
        ),
        openssh_error(OpensshFailureView::Encrypt(m)) == ErrorView::InvalidFormat(
            "OpenSSH key encryption failed: "@ + m,
        ),
        openssh_error(OpensshFailureView::Encode(m)) == ErrorView::InvalidFormat(
            "OpenSSH key encode failed: "@ + m,
        ),
{
}

} // verus!
