//! The authenticated header of an encrypted file.
//!
//! All fields are big-endian:
//!
//! ```text
//! magic         4 bytes   "CRY\x02"
//! algorithm     1 byte    see `AlgoId`
//! salt         16 bytes   Argon2 salt, random per file
//! nonce        12 bytes   base nonce, random per file
//! chunk count   8 bytes   number of chunks in the body
//! tag          32 bytes   HMAC-SHA256 over all preceding bytes
//! ```

use crate::bytes::{
    array_at, be_bytes, be_limit, be_value, lemma_be_bytes_len, lemma_be_bytes_value,
    lemma_be_limits, lemma_be_value_bytes, same_bytes, u64_be, u64_from_be,
};
use crate::error::{outcome, CryError, ErrorView};
use crate::primitives::{hmac_sha256, hmac_sha256_tag, hmac_sha256_verify, sha256, sha256_digest};
use crate::secret::{zeroize_bytes, SecretKey};
use crate::text::{decimal_text, hex_byte, push_decimal, push_hex_byte};
use vstd::prelude::*;
use vstd::utf8::{encode_utf8, is_ascii_chars_encode_utf8};

verus! {

/// The first four bytes of every encrypted file: `CRY` and the format's version.
pub const MAGIC: [u8; 4] = [0x43, 0x52, 0x59, 0x02];

/// Length of the Argon2 salt.
pub const SALT_LEN: usize = 16;

/// Length of the base nonce.
pub const NONCE_LEN: usize = 12;

/// Length of the header's tag.
pub const HMAC_LEN: usize = 32;

/// Length of the whole header.
pub const HEADER_LEN: usize = 4 + 1 + SALT_LEN + NONCE_LEN + 8 + HMAC_LEN;

/// The cipher that a file is encrypted with.
#[derive(Debug, Clone, Copy, PartialEq, Eq, Structural)]
pub enum AlgoId {
    Aes256Gcm,
    ChaCha20Poly1305,
}

/// The name by which the rest of the library knows [`AlgoId`].
pub type Algorithm = AlgoId;

/// The message for a byte that stands for no algorithm.
pub open spec fn unknown_algorithm(b: u8) -> Seq<char> {
    "Unknown algorithm identifier 0x"@ + hex_byte(b)
        + " — was this file created with a newer version of cry?"@
}

/// The algorithm that a header byte stands for.
pub open spec fn algo_from_byte(b: u8) -> Result<AlgoId, ErrorView> {
    if b == 1 {
        Ok(AlgoId::Aes256Gcm)
    } else if b == 2 {
        Ok(AlgoId::ChaCha20Poly1305)
    } else {
        Err(ErrorView::InvalidFormat(unknown_algorithm(b)))
    }
}

impl View for AlgoId {
    type V = AlgoId;

    open spec fn view(&self) -> AlgoId {
        *self
    }
}

impl AlgoId {
    /// The header byte of the algorithm.
    pub open spec fn spec_byte(self) -> u8 {
        match self {
            AlgoId::Aes256Gcm => 1,
            AlgoId::ChaCha20Poly1305 => 2,
        }
    }

    /// The algorithm's name.
    pub open spec fn spec_name(self) -> Seq<char> {
        match self {
            AlgoId::Aes256Gcm => "AES-256-GCM"@,
            AlgoId::ChaCha20Poly1305 => "ChaCha20-Poly1305"@,
        }
    }

    /// The algorithm that a header byte stands for.
    pub fn from_byte(b: u8) -> (r: Result<AlgoId, CryError>)
        ensures
            outcome(r) == algo_from_byte(b),
    {
        if b == 1 {
            Ok(AlgoId::Aes256Gcm)
        } else if b == 2 {
            Ok(AlgoId::ChaCha20Poly1305)
        } else {
            let mut m: String = "Unknown algorithm identifier 0x".to_owned();
            push_hex_byte(&mut m, b);
            m.append(" — was this file created with a newer version of cry?");
            Err(CryError::InvalidFormat(m))
        }
    }

    /// The header byte of the algorithm.
    pub fn to_byte(self) -> (b: u8)
        ensures
            b == self.spec_byte(),
    {
        match self {
            AlgoId::Aes256Gcm => 1,
            AlgoId::ChaCha20Poly1305 => 2,
        }
    }

    /// The algorithm's name, as shown to the user.
    pub fn name(self) -> (r: String)
        ensures
            r@ == self.spec_name(),
    {
        match self {
            AlgoId::Aes256Gcm => "AES-256-GCM".to_owned(),
            AlgoId::ChaCha20Poly1305 => "ChaCha20-Poly1305".to_owned(),
        }
    }
}

/// What the header commits to.
pub struct Header {
    pub algo: AlgoId,
    pub salt: [u8; SALT_LEN],
    pub nonce: [u8; NONCE_LEN],
    /// Number of chunks in the body.
    pub chunk_count: u64,
}

/// The mathematical counterpart of [`Header`].
pub ghost struct HeaderView {
    pub algo: AlgoId,
    pub salt: Seq<u8>,
    pub nonce: Seq<u8>,
    pub chunk_count: nat,
}

impl View for Header {
    type V = HeaderView;

    open spec fn view(&self) -> HeaderView {
        HeaderView {
            algo: self.algo,
            salt: self.salt@,
            nonce: self.nonce@,
            chunk_count: self.chunk_count as nat,
        }
    }
}

impl HeaderView {
    /// Every field has the width that the layout gives it.
    pub open spec fn valid(self) -> bool {
        &&& self.salt.len() == SALT_LEN
        &&& self.nonce.len() == NONCE_LEN
        &&& self.chunk_count < be_limit(8)
    }

    /// The header without its tag.
    pub open spec fn pre_hmac(self) -> Seq<u8> {
        MAGIC@ + seq![self.algo.spec_byte()] + self.salt + self.nonce + be_bytes(
            self.chunk_count,
            8,
        )
    }

    /// The whole header, authenticated under `key`.
    pub open spec fn bytes(self, key: Seq<u8>) -> Seq<u8> {
        self.pre_hmac() + header_tag(self.pre_hmac(), key)
    }
}

/// The key of the header's tag, derived from the file key.
pub open spec fn header_sub_key(key: Seq<u8>) -> Seq<u8> {
    sha256_digest(encode_utf8("cry-header-hmac-v2"@) + key)
}

/// The tag of a header.
pub open spec fn header_tag(pre_hmac: Seq<u8>, key: Seq<u8>) -> Seq<u8> {
    hmac_sha256_tag(header_sub_key(key), pre_hmac)
}

/// A list of bytes in brackets, in decimal.
pub open spec fn byte_list(s: Seq<u8>) -> Seq<char> {
    "["@ + byte_list_items(s) + "]"@
}

/// The bytes in decimal, separated by a comma and a space.
pub open spec fn byte_list_items(s: Seq<u8>) -> Seq<char>
    decreases s.len(),
{
    if s.len() == 0 {
        Seq::empty()
    } else if s.len() == 1 {
        decimal_text(s[0] as nat)
    } else {
        byte_list_items(s.drop_last()) + ", "@ + decimal_text(s.last() as nat)
    }
}

/// The message for a file that starts with other bytes than [`MAGIC`].
pub open spec fn bad_magic(magic: Seq<u8>) -> Seq<char> {
    "Not a cry v2 encrypted file (bad magic "@ + byte_list(magic)
        + "). Files from cry v0.1 are not compatible — re-encrypt with the new version."@
}

/// The fields and the tag of the header at the start of `raw`, or the first thing that is wrong
/// with its form.
pub open spec fn parsed_header(raw: Seq<u8>) -> Result<(HeaderView, Seq<u8>), ErrorView> {
    if raw.len() < 4 {
        Err(ErrorView::InvalidFormat("Failed to read magic bytes"@))
    } else if raw.take(4) != MAGIC@ {
        Err(ErrorView::InvalidFormat(bad_magic(raw.take(4))))
    } else if raw.len() < 5 {
        Err(ErrorView::InvalidFormat("Failed to read algorithm byte"@))
    } else {
        match algo_from_byte(raw[4]) {
            Err(e) => Err(e),
            Ok(algo) => {
                if raw.len() < 21 {
                    Err(ErrorView::InvalidFormat("Failed to read salt"@))
                } else if raw.len() < 33 {
                    Err(ErrorView::InvalidFormat("Failed to read nonce"@))
                } else if raw.len() < 41 {
                    Err(ErrorView::InvalidFormat("Failed to read chunk count"@))
                } else if raw.len() < 73 {
                    Err(ErrorView::InvalidFormat("Failed to read header HMAC"@))
                } else {
                    let h = HeaderView {
                        algo,
                        salt: raw.subrange(5, 21),
                        nonce: raw.subrange(21, 33),
                        chunk_count: be_value(raw.subrange(33, 41)),
                    };
                    Ok((h, raw.subrange(41, 73)))
                }
            },
        }
    }
}

/// What reading the header at the start of `raw` gives under `key`.
pub open spec fn read_header(raw: Seq<u8>, key: Seq<u8>) -> Result<HeaderView, ErrorView> {
    match parsed_header(raw) {
        Err(e) => Err(e),
        Ok((h, tag)) => if tag == header_tag(h.pre_hmac(), key) {
            Ok(h)
        } else {
            Err(ErrorView::HeaderTampered)
        },
    }
}

impl Header {
    /// The header without its tag.
    pub fn pre_hmac_bytes(&self) -> (r: Vec<u8>)
        ensures
            r@ == self@.pre_hmac(),
            r@.len() == 41,
            r@ == seq![
                0x43u8,
                0x52,
                0x59,
                0x02,
                match self.algo {
                    AlgoId::Aes256Gcm => 1,
                    AlgoId::ChaCha20Poly1305 => 2,
                },
            ] + self.salt@ + self.nonce@ + be_bytes(self.chunk_count as nat, 8),
    {
        let mut buf: Vec<u8> = Vec::with_capacity(HEADER_LEN - HMAC_LEN);
        buf.extend_from_slice(&MAGIC);
        buf.push(self.algo.to_byte());
        buf.extend_from_slice(&self.salt);
        buf.extend_from_slice(&self.nonce);
        buf.extend_from_slice(&u64_be(self.chunk_count));
        proof {
            lemma_be_bytes_len(self.chunk_count as nat, 8);
            assert(buf@ =~= self@.pre_hmac());
            law_header_layout(*self);
        }
        buf
    }

    /// The key of the header's tag.
    fn sub_key(key: &[u8; 32]) -> (r: SecretKey)
        ensures
            r@ == header_sub_key(key@),
    {
        proof {
            reveal_strlit("cry-header-hmac-v2");
            is_ascii_chars_encode_utf8("cry-header-hmac-v2"@);
        }
        let domain: &[u8] = "cry-header-hmac-v2".as_bytes();
        let mut buf: [u8; 50] = [0u8; 50];
        let mut i: usize = 0;
        while i < 18
            invariant
                i <= 18,
                domain@.len() == 18,
                forall|j: int| 0 <= j < i ==> buf@[j] == domain@[j],
            decreases 18 - i,
        {
            buf[i] = domain[i];
            i = i + 1;
        }
        let mut k: usize = 0;
        while k < 32
            invariant
                k <= 32,
                domain@.len() == 18,
                forall|j: int| 0 <= j < 18 ==> buf@[j] == domain@[j],
                forall|j: int| 0 <= j < k ==> buf@[18 + j] == key@[j],
            decreases 32 - k,
        {
            buf[18 + k] = key[k];
            k = k + 1;
        }
        assert(buf@ =~= encode_utf8("cry-header-hmac-v2"@) + key@);
        let sub_key: SecretKey = SecretKey { bytes: sha256(&buf) };
        zeroize_bytes(&mut buf);
        sub_key
    }

    /// The tag over the rest of the header.
    pub fn compute_hmac(pre_hmac: &[u8], key: &[u8; 32]) -> (r: [u8; HMAC_LEN])
        ensures
            r@ == header_tag(pre_hmac@, key@),
            r@ == hmac_sha256_tag(
                sha256_digest(encode_utf8("cry-header-hmac-v2"@) + key@),
                pre_hmac@,
            ),
    {
        let sub_key: SecretKey = Self::sub_key(key);
        hmac_sha256(&sub_key.bytes, pre_hmac)
    }

    /// Appends the authenticated header to `w`.
    pub fn write(&self, w: &mut Vec<u8>, key: &[u8; 32]) -> (r: Result<(), CryError>)
        ensures
            r is Ok,
            final(w)@ == old(w)@ + self@.bytes(key@),
            self@.bytes(key@).len() == HEADER_LEN,
            ({
                let head = seq![
                    0x43u8,
                    0x52,
                    0x59,
                    0x02,
                    match self.algo {
                        AlgoId::Aes256Gcm => 1,
                        AlgoId::ChaCha20Poly1305 => 2,
                    },
                ] + self.salt@ + self.nonce@ + be_bytes(self.chunk_count as nat, 8);
                &&& self@.bytes(key@) == head + hmac_sha256_tag(
                    sha256_digest(encode_utf8("cry-header-hmac-v2"@) + key@),
                    head,
                )
                &&& self@.bytes(key@).take(41) == head
            }),
            forall|rest: Seq<u8>| #[trigger]
                read_header(self@.bytes(key@) + rest, key@) == Ok::<HeaderView, ErrorView>(self@),
    {
        let pre_hmac: Vec<u8> = self.pre_hmac_bytes();
        let tag: [u8; HMAC_LEN] = Self::compute_hmac(pre_hmac.as_slice(), key);
        w.extend_from_slice(pre_hmac.as_slice());
        w.extend_from_slice(&tag);
        proof {
            assert(w@ =~= old(w)@ + self@.bytes(key@));
            law_header_layout(*self);
            assert(self@.bytes(key@).take(41) =~= pre_hmac@);
            lemma_be_limits();
            assert forall|rest: Seq<u8>| #[trigger]
                read_header(self@.bytes(key@) + rest, key@) == Ok::<HeaderView, ErrorView>(
                self@,
            ) by {
                lemma_read_written(self@, key@, rest);
            }
        }
        Ok(())
    }

    /// Takes the header at the start of `raw` apart, without authenticating it.
    pub fn parse(raw: &[u8]) -> (r: Result<(Header, [u8; HMAC_LEN]), CryError>)
        ensures
            outcome(r) == parsed_header(raw@),
    {
        if raw.len() < 4 {
            return Err(CryError::InvalidFormat("Failed to read magic bytes".to_owned()));
        }
        let magic: [u8; 4] = array_at(raw, 0);
        assert(magic@ == raw@.take(4));
        if !same_bytes(&magic, &MAGIC) {
            return Err(CryError::InvalidFormat(bad_magic_message(&magic)));
        }
        if raw.len() < 5 {
            return Err(CryError::InvalidFormat("Failed to read algorithm byte".to_owned()));
        }
        let algo: AlgoId = match AlgoId::from_byte(raw[4]) {
            Ok(algo) => algo,
            Err(e) => {
                return Err(e);
            },
        };
        if raw.len() < 21 {
            return Err(CryError::InvalidFormat("Failed to read salt".to_owned()));
        }
        let salt: [u8; SALT_LEN] = array_at(raw, 5);
        if raw.len() < 33 {
            return Err(CryError::InvalidFormat("Failed to read nonce".to_owned()));
        }
        let nonce: [u8; NONCE_LEN] = array_at(raw, 21);
        if raw.len() < 41 {
            return Err(CryError::InvalidFormat("Failed to read chunk count".to_owned()));
        }
        let count: [u8; 8] = array_at(raw, 33);
        let chunk_count: u64 = u64_from_be(&count);
        if raw.len() < 73 {
            return Err(CryError::InvalidFormat("Failed to read header HMAC".to_owned()));
        }
        let stored: [u8; HMAC_LEN] = array_at(raw, 41);
        Ok((Header { algo, salt, nonce, chunk_count }, stored))
    }

    /// Reads and authenticates the header at the start of `r`.
    pub fn read(r: &[u8], key: &[u8; 32]) -> (h: Result<Header, CryError>)
        ensures
            outcome(h) == read_header(r@, key@),
            h is Ok <==> r@.len() >= 73 && r@.take(4) == seq![0x43u8, 0x52, 0x59, 0x02] && (r@[4] == 1
                || r@[4] == 2) && r@.subrange(41, 73) == hmac_sha256_tag(
                sha256_digest(encode_utf8("cry-header-hmac-v2"@) + key@),
                r@.take(41),
            ),
            h matches Ok(header) ==> {
                &&& header.algo == if r@[4] == 1 {
                    AlgoId::Aes256Gcm
                } else {
                    AlgoId::ChaCha20Poly1305
                }
                &&& header.salt@ == r@.subrange(5, 21)
                &&& header.nonce@ == r@.subrange(21, 33)
                &&& header.chunk_count as nat == be_value(r@.subrange(33, 41))
            },
    {
        proof {
            law_header_accepted(r@, key@);
        }
        let (header, stored): (Header, [u8; HMAC_LEN]) = match Self::parse(r) {
            Ok(parsed) => parsed,
            Err(e) => {
                return Err(e);
            },
        };
        let pre_hmac: Vec<u8> = header.pre_hmac_bytes();
        let sub_key: SecretKey = Self::sub_key(key);
        Self::accept_if(header, hmac_sha256_verify(&sub_key.bytes, pre_hmac.as_slice(), &stored))
    }

    /// Lets a header pass if its tag is the right one.
    pub fn accept_if(header: Header, tag_matches: bool) -> (r: Result<Header, CryError>)
        ensures
            outcome(r) == if tag_matches {
                Ok(header@)
            } else {
                Err(ErrorView::HeaderTampered)
            },
    {
        if tag_matches {
            Ok(header)
        } else {
            Err(CryError::HeaderTampered)
        }
    }
}

/// The message for a file that starts with other bytes than [`MAGIC`].
fn bad_magic_message(magic: &[u8; 4]) -> (r: String)
    ensures
        r@ == bad_magic(magic@),
{
    let mut m: String = "Not a cry v2 encrypted file (bad magic ".to_owned();
    m.append("[");
    push_decimal(&mut m, magic[0] as u64);
    let mut i: usize = 1;
    proof {
        assert(magic@.take(1).len() == 1);
    }
    while i < 4
        invariant
            1 <= i <= 4,
            m@ == "Not a cry v2 encrypted file (bad magic "@ + "["@ + byte_list_items(
                magic@.take(i as int),
            ),
        decreases 4 - i,
    {
        m.append(", ");
        push_decimal(&mut m, magic[i] as u64);
        proof {
            let next = magic@.take(i + 1);
            assert(next.drop_last() =~= magic@.take(i as int));
            assert(m@ =~= "Not a cry v2 encrypted file (bad magic "@ + "["@ + byte_list_items(
                next,
            ));
        }
        i = i + 1;
    }
    m.append("]");
    m.append("). Files from cry v0.1 are not compatible — re-encrypt with the new version.");
    proof {
        assert(magic@.take(4) =~= magic@);
        assert(m@ =~= bad_magic(magic@));
    }
    m
}

/// The fields of a header make up its bytes before the tag.
proof fn lemma_parsed_bytes(raw: Seq<u8>)
    requires
        parsed_header(raw) is Ok,
    ensures
        parsed_header(raw)->Ok_0.0.valid(),
        parsed_header(raw)->Ok_0.0.pre_hmac() == raw.take(41),
{
    let h = parsed_header(raw)->Ok_0.0;
    lemma_be_value_bytes(raw.subrange(33, 41));
    assert(raw.take(41) =~= raw.take(4) + seq![raw[4]] + raw.subrange(5, 21) + raw.subrange(21, 33)
        + raw.subrange(33, 41));
    assert(h.pre_hmac() =~= raw.take(41));
}

/// Reading gives back what was written, and ignores what follows the header.
proof fn lemma_read_written(h: HeaderView, key: Seq<u8>, rest: Seq<u8>)
    requires
        h.valid(),
        header_tag(h.pre_hmac(), key).len() == HMAC_LEN,
    ensures
        read_header(h.bytes(key) + rest, key) == Ok::<HeaderView, ErrorView>(h),
{
    let raw = h.bytes(key) + rest;
    lemma_be_bytes_len(h.chunk_count, 8);
    lemma_be_bytes_value(h.chunk_count, 8);
    assert(raw.take(41) =~= h.pre_hmac());
    assert(raw.subrange(41, 73) =~= header_tag(h.pre_hmac(), key));
    assert(raw.take(4) =~= MAGIC@);
    assert(raw.subrange(5, 21) =~= h.salt);
    assert(raw.subrange(21, 33) =~= h.nonce);
    assert(raw.subrange(33, 41) =~= be_bytes(h.chunk_count, 8));
}

/// A header that is accepted is, byte for byte, the one that would be written for its fields.
pub proof fn law_accepted_is_written(raw: Seq<u8>, key: Seq<u8>)
    requires
        read_header(raw, key) is Ok,
    ensures
        read_header(raw, key)->Ok_0.valid(),
        raw.take(HEADER_LEN as int) == read_header(raw, key)->Ok_0.bytes(key),
{
    lemma_parsed_bytes(raw);
    assert(raw.take(73) =~= raw.take(41) + raw.subrange(41, 73));
}

/// A header whose last 32 bytes are not the tag of its other bytes is refused: as tampered with,
/// where its form is right.
pub proof fn law_tampering_refused(raw: Seq<u8>, key: Seq<u8>)
    requires
        raw.len() >= HEADER_LEN,
        raw.subrange(41, 73) != header_tag(raw.take(41), key),
    ensures
        read_header(raw, key) is Err,
        parsed_header(raw) is Ok ==> read_header(raw, key) == Err::<HeaderView, ErrorView>(
            ErrorView::HeaderTampered,
        ),
{
    if parsed_header(raw) is Ok {
        lemma_parsed_bytes(raw);
    }
}

/// Different headers have different bytes, already before the tag.
pub proof fn law_layout_injective(a: HeaderView, b: HeaderView)
    requires
        a.valid(),
        b.valid(),
        a.pre_hmac() == b.pre_hmac(),
    ensures
        a == b,
{
    let x = a.pre_hmac();
    let y = b.pre_hmac();
    lemma_be_bytes_len(a.chunk_count, 8);
    lemma_be_bytes_len(b.chunk_count, 8);
    lemma_be_bytes_value(a.chunk_count, 8);
    lemma_be_bytes_value(b.chunk_count, 8);
    assert(x[4] == a.algo.spec_byte() && y[4] == b.algo.spec_byte());
    assert(x.subrange(5, 21) =~= a.salt && y.subrange(5, 21) =~= b.salt);
    assert(x.subrange(21, 33) =~= a.nonce && y.subrange(21, 33) =~= b.nonce);
    assert(x.subrange(33, 41) =~= be_bytes(a.chunk_count, 8));
    assert(y.subrange(33, 41) =~= be_bytes(b.chunk_count, 8));
}

/// The byte of an algorithm stands for that algorithm, and for no other.
pub proof fn law_algorithm_bytes(algo: AlgoId, b: u8)
    ensures
        algo_from_byte(algo.spec_byte()) == Ok::<AlgoId, ErrorView>(algo),
        algo_from_byte(b) == Ok::<AlgoId, ErrorView>(algo) ==> b == algo.spec_byte(),
{
}

/// A header is viewed as its fields, and its bytes before the tag are the magic, the byte of the
/// algorithm, the salt, the nonce and the chunk count.
pub proof fn law_header_layout(h: Header)
    ensures
        h@ == (HeaderView {
            algo: h.algo,
            salt: h.salt@,
            nonce: h.nonce@,
            chunk_count: h.chunk_count as nat,
        }),
        h@.pre_hmac() == seq![
            0x43u8,
            0x52,
            0x59,
            0x02,
            match h.algo {
                AlgoId::Aes256Gcm => 1,
                AlgoId::ChaCha20Poly1305 => 2,
            },
        ] + h.salt@ + h.nonce@ + be_bytes(h.chunk_count as nat, 8),
{
    lemma_magic();
    assert(h@.pre_hmac() =~= seq![
        0x43u8,
        0x52,
        0x59,
        0x02,
        match h.algo {
            AlgoId::Aes256Gcm => 1,
            AlgoId::ChaCha20Poly1305 => 2,
        },
    ] + h.salt@ + h.nonce@ + be_bytes(h.chunk_count as nat, 8));
}

/// The magic, byte by byte.
proof fn lemma_magic()
    ensures
        MAGIC@ == seq![0x43u8, 0x52, 0x59, 0x02],
{
    assert(MAGIC@ =~= seq![0x43u8, 0x52, 0x59, 0x02]);
}

/// The header that is written is its bytes before the tag and their HMAC-SHA256, keyed with the
/// SHA-256 hash of a fixed text and the whole key.
pub proof fn law_header_written(h: HeaderView, key: Seq<u8>)
    ensures
        h.bytes(key) == h.pre_hmac() + hmac_sha256_tag(
            sha256_digest(encode_utf8("cry-header-hmac-v2"@) + key),
            h.pre_hmac(),
        ),
{
}

/// A header is accepted exactly where it is long enough, starts with the magic and the byte of an
/// algorithm, and ends with the HMAC-SHA256 of its first 41 bytes; its fields are the bytes at
/// their places.
pub proof fn law_header_accepted(raw: Seq<u8>, key: Seq<u8>)
    ensures
        read_header(raw, key) is Ok <==> raw.len() >= 73 && raw.take(4) == seq![
            0x43u8,
            0x52,
            0x59,
            0x02,
        ] && (raw[4] == 1 || raw[4] == 2) && raw.subrange(41, 73) == hmac_sha256_tag(
            sha256_digest(encode_utf8("cry-header-hmac-v2"@) + key),
            raw.take(41),
        ),
        read_header(raw, key) matches Ok(h) ==> {
            &&& h.algo == if raw[4] == 1 {
                AlgoId::Aes256Gcm
            } else {
                AlgoId::ChaCha20Poly1305
            }
            &&& h.salt == raw.subrange(5, 21)
            &&& h.nonce == raw.subrange(21, 33)
            &&& h.chunk_count == be_value(raw.subrange(33, 41))
        },
{
    lemma_magic();
    if parsed_header(raw) is Ok {
        lemma_parsed_bytes(raw);
    }
}

/// What is wrong with a header is the first field that is missing or not as it has to be, in the
/// order in which they stand, and at last the tag.
pub proof fn law_header_refused(raw: Seq<u8>, key: Seq<u8>)
    ensures
        ({
            let r = read_header(raw, key);
            let refused = |m: Seq<char>| r == Err::<HeaderView, ErrorView>(ErrorView::InvalidFormat(m));
            let magic = raw.len() >= 4 && raw.take(4) == seq![0x43u8, 0x52, 0x59, 0x02];
            let algo = magic && raw.len() >= 5 && (raw[4] == 1 || raw[4] == 2);
            &&& raw.len() < 4 ==> refused("Failed to read magic bytes"@)
            &&& raw.len() >= 4 && !magic ==> refused(
                "Not a cry v2 encrypted file (bad magic ["@ + decimal_text(raw[0] as nat) + ", "@
                    + decimal_text(raw[1] as nat) + ", "@ + decimal_text(raw[2] as nat) + ", "@
                    + decimal_text(raw[3] as nat)
                    + "]). Files from cry v0.1 are not compatible — re-encrypt with the new version."@,
            )
            &&& magic && raw.len() == 4 ==> refused("Failed to read algorithm byte"@)
            &&& magic && raw.len() >= 5 && !algo ==> refused(
                "Unknown algorithm identifier 0x"@ + hex_byte(raw[4])
                    + " — was this file created with a newer version of cry?"@,
            )
            &&& algo && raw.len() < 21 ==> refused("Failed to read salt"@)
            &&& algo && 21 <= raw.len() < 33 ==> refused("Failed to read nonce"@)
            &&& algo && 33 <= raw.len() < 41 ==> refused("Failed to read chunk count"@)
            &&& algo && 41 <= raw.len() < 73 ==> refused("Failed to read header HMAC"@)
            &&& algo && 73 <= raw.len() && raw.subrange(41, 73) != hmac_sha256_tag(
                sha256_digest(encode_utf8("cry-header-hmac-v2"@) + key),
                raw.take(41),
            ) ==> r == Err::<HeaderView, ErrorView>(ErrorView::HeaderTampered)
        }),
{
    lemma_magic();
    if parsed_header(raw) is Ok {
        lemma_parsed_bytes(raw);
    }
    if raw.len() >= 4 {
        lemma_bad_magic(raw.take(4));
    }
}

/// The message for four wrong bytes at the start.
proof fn lemma_bad_magic(b: Seq<u8>)
    requires
        b.len() == 4,
    ensures
        bad_magic(b) == "Not a cry v2 encrypted file (bad magic ["@ + decimal_text(b[0] as nat)
            + ", "@ + decimal_text(b[1] as nat) + ", "@ + decimal_text(b[2] as nat) + ", "@
            + decimal_text(b[3] as nat)
            + "]). Files from cry v0.1 are not compatible — re-encrypt with the new version."@,
{
    reveal_strlit("Not a cry v2 encrypted file (bad magic [");
    reveal_strlit("Not a cry v2 encrypted file (bad magic ");
    reveal_strlit("[");
    reveal_strlit("]");
    reveal_strlit("]). Files from cry v0.1 are not compatible — re-encrypt with the new version.");
    reveal_strlit("). Files from cry v0.1 are not compatible — re-encrypt with the new version.");
    assert("Not a cry v2 encrypted file (bad magic ["@
        =~= "Not a cry v2 encrypted file (bad magic "@ + "["@);
    assert("]). Files from cry v0.1 are not compatible — re-encrypt with the new version."@ =~= "]"@
        + "). Files from cry v0.1 are not compatible — re-encrypt with the new version."@);
    reveal_with_fuel(byte_list_items, 5);
    let b3 = b.drop_last();
    let b2 = b3.drop_last();
    let b1 = b2.drop_last();
    assert(byte_list_items(b1) == decimal_text(b[0] as nat));
    assert(byte_list_items(b2) == byte_list_items(b1) + ", "@ + decimal_text(b[1] as nat));
    assert(byte_list_items(b3) == byte_list_items(b2) + ", "@ + decimal_text(b[2] as nat));
    assert(byte_list_items(b) == byte_list_items(b3) + ", "@ + decimal_text(b[3] as nat));
    assert(bad_magic(b) =~= "Not a cry v2 encrypted file (bad magic ["@ + decimal_text(b[0] as nat)
        + ", "@ + decimal_text(b[1] as nat) + ", "@ + decimal_text(b[2] as nat) + ", "@
        + decimal_text(b[3] as nat)
        + "]). Files from cry v0.1 are not compatible — re-encrypt with the new version."@);
}

} // verus!
