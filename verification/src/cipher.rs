//! Authenticated encryption of a file, chunk by chunk.
//!
//! The body of a file is a sequence of frames, one per chunk of plaintext:
//!
//! ```text
//! length   4 bytes  big-endian: ciphertext and tag
//! data     N bytes  ciphertext and tag
//! ```
//!
//! Each chunk is sealed under a nonce of its own and bound, as associated data, to the header
//! and to its position.

use crate::bytes::{
    array_at, be_bytes, be_limit, be_value, lemma_be_bytes_injective, lemma_be_bytes_len,
    lemma_be_bytes_split, lemma_be_bytes_value, lemma_be_limits, lemma_be_value_bytes,
    lemma_be_value_split, u32_be, u32_from_be, u64_be, u64_from_be,
};
use crate::error::{outcome, CryError, ErrorView};
use crate::header::{
    header_tag, law_accepted_is_written, law_header_accepted, law_header_layout, law_tampering_refused, parsed_header, read_header, AlgoId, Algorithm, HEADER_LEN,
    Header, HeaderView, NONCE_LEN, SALT_LEN,
};
use crate::kdf::{derive_key, derived_key};
use crate::primitives::{
    aes256gcm_accepts, aes256gcm_decrypt, aes256gcm_encrypt, aes256gcm_limit, aes256gcm_open,
    aes256gcm_seal, argon2id_hash, chacha20poly1305_decrypt, chacha20poly1305_encrypt,
    chacha20poly1305_limit, chacha20poly1305_open, chacha20poly1305_panics, chacha20poly1305_seal,
    hmac_sha256_tag, os_random, sha256, sha256_digest,
};
use crate::secret::SecretKey;
use vstd::prelude::*;
use vstd::slice::slice_subrange;
use vstd::utf8::encode_utf8;

verus! {

/// Length of every chunk of plaintext but the last, which may be shorter: 1 MiB.
pub const CHUNK_SIZE: usize = 0x10_0000;

/// The longest sealed chunk that is read back: a chunk, its tag and some room.
pub const MAX_CHUNK_WIRE_LEN: usize = 0x10_0040;

/// The sealed form of a plaintext under either cipher.
pub open spec fn aead_seal(
    algo: AlgoId,
    key: Seq<u8>,
    nonce: Seq<u8>,
    aad: Seq<u8>,
    plain: Seq<u8>,
) -> Seq<u8> {
    match algo {
        AlgoId::Aes256Gcm => aes256gcm_seal(key, nonce, aad, plain),
        AlgoId::ChaCha20Poly1305 => chacha20poly1305_seal(key, nonce, aad, plain),
    }
}

/// The plaintext of a sealed text under either cipher, if it authenticates.
pub open spec fn aead_open(
    algo: AlgoId,
    key: Seq<u8>,
    nonce: Seq<u8>,
    aad: Seq<u8>,
    sealed: Seq<u8>,
) -> Option<Seq<u8>> {
    match algo {
        AlgoId::Aes256Gcm => aes256gcm_open(key, nonce, aad, sealed),
        AlgoId::ChaCha20Poly1305 => chacha20poly1305_open(key, nonce, aad, sealed),
    }
}

/// Whether the cipher seals a plaintext and associated data of these lengths.
pub open spec fn aead_accepts(algo: AlgoId, plain: nat, aad: nat) -> bool {
    match algo {
        AlgoId::Aes256Gcm => aes256gcm_accepts(plain, aad),
        AlgoId::ChaCha20Poly1305 => plain <= chacha20poly1305_limit(),
    }
}

/// The longest plaintext that the cipher seals.
pub open spec fn aead_limit(algo: AlgoId) -> nat {
    match algo {
        AlgoId::Aes256Gcm => aes256gcm_limit(),
        AlgoId::ChaCha20Poly1305 => chacha20poly1305_limit(),
    }
}

/// Seals one chunk.
pub fn encrypt_chunk(
    plain: &[u8],
    key: &[u8; 32],
    nonce: &[u8; NONCE_LEN],
    algo: Algorithm,
    aad: &[u8],
) -> (r: Result<Vec<u8>, CryError>)
    requires
        algo == AlgoId::ChaCha20Poly1305 ==> !chacha20poly1305_panics(plain@.len() as int),
    ensures
        outcome(r) == if aead_accepts(algo, plain@.len(), aad@.len()) {
            Ok(aead_seal(algo, key@, nonce@, aad@, plain@))
        } else {
            Err(ErrorView::EncryptionFailed)
        },
        r matches Ok(c) ==> c@.len() == plain@.len() + 16,
        r matches Ok(c) ==> aead_open(algo, key@, nonce@, aad@, c@) == Some(plain@),
        r matches Ok(c) ==> match algo {
            AlgoId::Aes256Gcm => {
                &&& c@ == aes256gcm_seal(key@, nonce@, aad@, plain@)
                &&& aes256gcm_open(key@, nonce@, aad@, c@) == Some(plain@)
            },
            AlgoId::ChaCha20Poly1305 => {
                &&& c@ == chacha20poly1305_seal(key@, nonce@, aad@, plain@)
                &&& chacha20poly1305_open(key@, nonce@, aad@, c@) == Some(plain@)
            },
        },
        r is Err <==> match algo {
            AlgoId::Aes256Gcm => plain@.len() > 0x10_0000_0000 || aad@.len() > 0x10_0000_0000,
            AlgoId::ChaCha20Poly1305 => plain@.len() > 0xffff_fffe * 64,
        },
        r matches Err(e) ==> e is EncryptionFailed,
{
    let sealed = match algo {
        AlgoId::Aes256Gcm => aes256gcm_encrypt(key, nonce, aad, plain),
        AlgoId::ChaCha20Poly1305 => chacha20poly1305_encrypt(key, nonce, aad, plain),
    };
    match sealed {
        Ok(c) => Ok(c),
        Err(_) => Err(CryError::EncryptionFailed),
    }
}

/// Opens one chunk.
pub fn decrypt_chunk(
    ct: &[u8],
    key: &[u8; 32],
    nonce: &[u8; NONCE_LEN],
    algo: Algorithm,
    aad: &[u8],
) -> (r: Result<Vec<u8>, CryError>)
    requires
        algo == AlgoId::ChaCha20Poly1305 ==> !chacha20poly1305_panics(ct@.len() - 16),
    ensures
        outcome(r) == match aead_open(algo, key@, nonce@, aad@, ct@) {
            Some(p) => Ok(p),
            None => Err(ErrorView::DecryptionFailed),
        },
        r matches Ok(p) ==> p@.len() + 16 == ct@.len(),
        r matches Ok(p) ==> p@.len() <= aead_limit(algo) ==> aead_seal(
            algo,
            key@,
            nonce@,
            aad@,
            p@,
        ) == ct@,
        match algo {
            AlgoId::Aes256Gcm => {
                &&& r is Ok <==> aes256gcm_open(key@, nonce@, aad@, ct@) is Some
                &&& r matches Ok(p) ==> aes256gcm_open(key@, nonce@, aad@, ct@) == Some(p@)
            },
            AlgoId::ChaCha20Poly1305 => {
                &&& r is Ok <==> chacha20poly1305_open(key@, nonce@, aad@, ct@) is Some
                &&& r matches Ok(p) ==> chacha20poly1305_open(key@, nonce@, aad@, ct@) == Some(p@)
            },
        },
        r matches Err(e) ==> e is DecryptionFailed,
{
    let opened = match algo {
        AlgoId::Aes256Gcm => aes256gcm_decrypt(key, nonce, aad, ct),
        AlgoId::ChaCha20Poly1305 => chacha20poly1305_decrypt(key, nonce, aad, ct),
    };
    match opened {
        Ok(p) => Ok(p),
        Err(_) => Err(CryError::DecryptionFailed),
    }
}

/// The nonce of a chunk: the base nonce, as a 96-bit counter, advanced by the chunk's index.
pub open spec fn nonce_at(base: Seq<u8>, index: nat) -> Seq<u8> {
    be_bytes((be_value(base) + index) % be_limit(12), 12)
}

/// The nonce of a chunk.
pub fn chunk_nonce(base: &[u8; NONCE_LEN], index: u64) -> (n: [u8; NONCE_LEN])
    ensures
        n@ == nonce_at(base@, index as nat),
        n@ == be_bytes(
            (be_value(base@) + index as nat) % 0x1_0000_0000_0000_0000_0000_0000,
            12,
        ),
{
    let head: [u8; 4] = array_at(base, 0);
    let tail: [u8; 8] = array_at(base, 4);
    let hi: u32 = u32_from_be(&head);
    let lo: u64 = u64_from_be(&tail);
    let new_lo: u64 = lo.wrapping_add(index);
    let carry: u32 = if new_lo < lo { 1 } else { 0 };
    let new_hi: u32 = hi.wrapping_add(carry);
    let h: [u8; 4] = u32_be(new_hi);
    let l: [u8; 8] = u64_be(new_lo);
    let n: [u8; NONCE_LEN] = [
        h[0], h[1], h[2], h[3], l[0], l[1], l[2], l[3], l[4], l[5], l[6], l[7],
    ];
    proof {
        lemma_be_limits();
        assert(base@ =~= head@ + tail@);
        lemma_be_value_split(head@, tail@);
        lemma_be_bytes_len(new_hi as nat, 4);
        lemma_be_bytes_len(new_lo as nat, 8);
        lemma_be_bytes_split(new_hi as nat, new_lo as nat, 4, 8);
        assert(n@ =~= h@ + l@);
    }
    n
}

/// The chunks of a file have different nonces, whatever the base nonce is.
pub proof fn law_nonces_distinct(base: Seq<u8>, i: nat, j: nat)
    requires
        base.len() == NONCE_LEN,
        i < be_limit(8),
        j < be_limit(8),
        i != j,
    ensures
        nonce_at(base, i) != nonce_at(base, j),
{
    lemma_be_limits();
    lemma_be_value_bytes(base);
    let a: nat = (be_value(base) + i) % be_limit(12);
    let b: nat = (be_value(base) + j) % be_limit(12);
    if nonce_at(base, i) == nonce_at(base, j) {
        lemma_be_bytes_injective(a, b, 12);
    }
}

/// The value that binds every chunk to the header of its file.
pub open spec fn header_binding(h: HeaderView) -> Seq<u8> {
    sha256_digest(h.pre_hmac())
}

/// The value that binds every chunk to the header of its file.
pub fn header_aad(header: &Header) -> (r: [u8; 32])
    ensures
        r@ == header_binding(header@),
        r@ == sha256_digest(
            seq![
                0x43u8,
                0x52,
                0x59,
                0x02,
                match header.algo {
                    AlgoId::Aes256Gcm => 1,
                    AlgoId::ChaCha20Poly1305 => 2,
                },
            ] + header.salt@ + header.nonce@ + be_bytes(header.chunk_count as nat, 8),
        ),
{
    let buf: Vec<u8> = header.pre_hmac_bytes();
    sha256(buf.as_slice())
}

/// The associated data of a chunk: the file's binding and the chunk's index.
pub open spec fn aad_at(binding: Seq<u8>, index: nat) -> Seq<u8> {
    binding + be_bytes(index, 8)
}

/// The associated data of a chunk.
pub fn chunk_aad(header_aad: &[u8; 32], chunk_index: u64) -> (r: Vec<u8>)
    ensures
        r@ == aad_at(header_aad@, chunk_index as nat),
        r@ == header_aad@ + be_bytes(chunk_index as nat, 8),
        r@.len() == 40,
{
    let mut aad: Vec<u8> = Vec::with_capacity(32 + 8);
    aad.extend_from_slice(header_aad);
    aad.extend_from_slice(&u64_be(chunk_index));
    proof {
        lemma_be_bytes_len(chunk_index as nat, 8);
        assert(aad@ =~= aad_at(header_aad@, chunk_index as nat));
    }
    aad
}

/// Associated data tells apart both the files and the positions within a file.
pub proof fn law_aad_injective(a: Seq<u8>, i: nat, b: Seq<u8>, j: nat)
    requires
        a.len() == b.len(),
        i < be_limit(8),
        j < be_limit(8),
        aad_at(a, i) == aad_at(b, j),
    ensures
        a == b,
        i == j,
{
    lemma_be_bytes_len(i, 8);
    lemma_be_bytes_len(j, 8);
    let x = aad_at(a, i);
    let y = aad_at(b, j);
    assert(x.take(a.len() as int) =~= a && y.take(a.len() as int) =~= b);
    assert(x.skip(a.len() as int) =~= be_bytes(i, 8) && y.skip(a.len() as int) =~= be_bytes(j, 8));
    lemma_be_bytes_injective(i, j, 8);
}

/// Everything that the chunks of one file have in common.
pub ghost struct Stream {
    pub algo: AlgoId,
    pub key: Seq<u8>,
    pub nonce: Seq<u8>,
    pub binding: Seq<u8>,
}

impl Stream {
    /// The sealed form of the chunk at an index.
    pub open spec fn seal(self, index: nat, plain: Seq<u8>) -> Seq<u8> {
        aead_seal(
            self.algo,
            self.key,
            nonce_at(self.nonce, index),
            aad_at(self.binding, index),
            plain,
        )
    }

    /// The plaintext of a sealed text, taken for the chunk at an index.
    pub open spec fn unseal(self, index: nat, sealed: Seq<u8>) -> Option<Seq<u8>> {
        aead_open(
            self.algo,
            self.key,
            nonce_at(self.nonce, index),
            aad_at(self.binding, index),
            sealed,
        )
    }
}

/// A sealed chunk as it stands in the body.
pub open spec fn frame(sealed: Seq<u8>) -> Seq<u8> {
    be_bytes(sealed.len(), 4) + sealed
}

/// Length of the chunk that comes off the front of a plaintext.
pub open spec fn chunk_len(plain: Seq<u8>) -> int {
    if plain.len() < CHUNK_SIZE {
        plain.len() as int
    } else {
        CHUNK_SIZE as int
    }
}

/// The number of chunks that a plaintext of this length is cut into.
pub open spec fn chunks_in(len: nat) -> nat {
    (len + CHUNK_SIZE - 1) as nat / CHUNK_SIZE as nat
}

/// The body that stands for a plaintext, whose first chunk has the given index.
pub open spec fn sealed_body(st: Stream, plain: Seq<u8>, index: nat) -> Seq<u8>
    decreases plain.len(),
{
    if plain.len() == 0 {
        Seq::empty()
    } else {
        let n = chunk_len(plain);
        frame(st.seal(index, plain.take(n))) + sealed_body(st, plain.skip(n), index + 1)
    }
}

/// What is wrong with a body that goes on with one to three bytes after `got` chunks.
pub open spec fn left_over(got: nat, total: nat) -> ErrorView {
    if got == total {
        ErrorView::DecryptionFailed
    } else {
        ErrorView::Truncated { expected: total, got }
    }
}

/// What comes out of a body, read from the chunk with the given index on: the plaintext that
/// stands before the end or the first failure, and the index behind the last chunk, or the
/// failure. `total` is the number of chunks that the header commits to: bytes that are too few
/// for a frame's length fail as truncation where chunks are missing, and as corruption where
/// none is.
pub open spec fn opened_body(st: Stream, body: Seq<u8>, index: nat, total: nat) -> (
    Seq<u8>,
    Result<nat, ErrorView>,
)
    decreases body.len(),
{
    if body.len() == 0 {
        (Seq::empty(), Ok(index))
    } else if body.len() < 4 {
        (Seq::empty(), Err(left_over(index, total)))
    } else {
        let n: nat = be_value(body.take(4));
        if n > MAX_CHUNK_WIRE_LEN {
            (Seq::empty(), Err(ErrorView::SuspiciousChunkLen { index, len: n }))
        } else if body.len() < 4 + n {
            (Seq::empty(), Err(ErrorView::Io("failed to fill whole buffer"@)))
        } else {
            let end: int = 4 + n as int;
            match st.unseal(index, body.subrange(4, end)) {
                None => (Seq::empty(), Err(ErrorView::DecryptionFailed)),
                Some(plain) => {
                    let rest = opened_body(st, body.skip(end), index + 1, total);
                    (plain + rest.0, rest.1)
                },
            }
        }
    }
}

/// Each chunk of a plaintext can be opened again after sealing.
pub open spec fn reopens(st: Stream, plain: Seq<u8>, index: nat) -> bool
    decreases plain.len(),
{
    plain.len() > 0 ==> {
        let n = chunk_len(plain);
        let sealed = st.seal(index, plain.take(n));
        &&& sealed.len() == n + 16
        &&& st.unseal(index, sealed) == Some(plain.take(n))
        &&& reopens(st, plain.skip(n), index + 1)
    }
}

/// A frame at the front of a body is read back as one chunk.
proof fn lemma_frame_read(sealed: Seq<u8>, rest: Seq<u8>)
    requires
        sealed.len() < be_limit(4),
    ensures
        (frame(sealed) + rest).len() == 4 + sealed.len() + rest.len(),
        be_value((frame(sealed) + rest).take(4)) == sealed.len(),
        (frame(sealed) + rest).subrange(4, 4 + sealed.len() as int) == sealed,
        (frame(sealed) + rest).skip(4 + sealed.len() as int) == rest,
{
    let body = frame(sealed) + rest;
    lemma_be_bytes_len(sealed.len(), 4);
    lemma_be_bytes_value(sealed.len(), 4);
    assert(body.take(4) =~= be_bytes(sealed.len(), 4));
    assert(body.subrange(4, 4 + sealed.len() as int) =~= sealed);
    assert(body.skip(4 + sealed.len() as int) =~= rest);
}

/// Cutting off one chunk lowers the chunk count by one.
proof fn lemma_chunks_in_step(plain: Seq<u8>)
    requires
        plain.len() > 0,
    ensures
        chunks_in(plain.len()) == 1 + chunks_in(plain.skip(chunk_len(plain)).len()),
{
}

/// Opening undoes sealing, where each chunk can be opened again.
proof fn lemma_opened_sealed(st: Stream, plain: Seq<u8>, index: nat, total: nat)
    requires
        reopens(st, plain, index),
    ensures
        opened_body(st, sealed_body(st, plain, index), index, total) == (
            plain,
            Ok::<nat, ErrorView>(index + chunks_in(plain.len())),
        ),
    decreases plain.len(),
{
    if plain.len() == 0 {
        assert(plain =~= Seq::empty());
    } else {
        let n = chunk_len(plain);
        let sealed = st.seal(index, plain.take(n));
        let rest = sealed_body(st, plain.skip(n), index + 1);
        lemma_be_limits();
        lemma_frame_read(sealed, rest);
        lemma_opened_sealed(st, plain.skip(n), index + 1, total);
        lemma_chunks_in_step(plain);
        assert(plain.take(n) + plain.skip(n) =~= plain);
    }
}

/// A chunk takes 20 bytes more in the body than in the plaintext: its length and its tag.
proof fn lemma_body_len(st: Stream, plain: Seq<u8>, index: nat)
    requires
        reopens(st, plain, index),
    ensures
        sealed_body(st, plain, index).len() == plain.len() + 20 * chunks_in(plain.len()),
    decreases plain.len(),
{
    if plain.len() > 0 {
        let n = chunk_len(plain);
        lemma_body_len(st, plain.skip(n), index + 1);
        lemma_chunks_in_step(plain);
        lemma_be_bytes_len(st.seal(index, plain.take(n)).len(), 4);
    }
}

/// A body that lost bytes at its end never yields as many chunks as it had.
proof fn lemma_cut_body(st: Stream, plain: Seq<u8>, index: nat, total: nat, cut: int)
    requires
        reopens(st, plain, index),
        0 <= cut < sealed_body(st, plain, index).len(),
    ensures
        opened_body(st, sealed_body(st, plain, index).take(cut), index, total).1 matches Ok(n) ==> n
            < index + chunks_in(plain.len()),
    decreases plain.len(),
{
    if plain.len() > 0 {
        let n = chunk_len(plain);
        let sealed = st.seal(index, plain.take(n));
        let rest = sealed_body(st, plain.skip(n), index + 1);
        let whole = sealed_body(st, plain, index);
        let body = whole.take(cut);
        let end: int = 4 + sealed.len() as int;
        lemma_be_limits();
        lemma_frame_read(sealed, rest);
        lemma_chunks_in_step(plain);
        if cut >= 4 {
            assert(body.take(4) =~= whole.take(4));
            if cut >= end {
                assert(body.subrange(4, end) =~= whole.subrange(4, end));
                assert(body.skip(end) =~= rest.take(cut - end));
                lemma_cut_body(st, plain.skip(n), index + 1, total, cut - end);
            }
        }
    }
}

/// A body that got bytes at its end never yields just as many chunks as it had.
proof fn lemma_extended_body(
    st: Stream,
    plain: Seq<u8>,
    index: nat,
    total: nat,
    extra: Seq<u8>,
)
    requires
        reopens(st, plain, index),
        extra.len() > 0,
    ensures
        opened_body(st, sealed_body(st, plain, index) + extra, index, total).1 matches Ok(n) ==> n
            > index + chunks_in(plain.len()),
    decreases plain.len(),
{
    if plain.len() == 0 {
        assert(sealed_body(st, plain, index) + extra =~= extra);
        lemma_count_grows(st, extra, index, total);
    } else {
        let n = chunk_len(plain);
        let sealed = st.seal(index, plain.take(n));
        let rest = sealed_body(st, plain.skip(n), index + 1);
        lemma_be_limits();
        assert(sealed_body(st, plain, index) + extra =~= frame(sealed) + (rest + extra));
        lemma_frame_read(sealed, rest + extra);
        lemma_extended_body(st, plain.skip(n), index + 1, total, extra);
        lemma_chunks_in_step(plain);
    }
}

/// A body that is opened to its end holds at least one chunk, unless it is empty.
proof fn lemma_count_grows(st: Stream, body: Seq<u8>, index: nat, total: nat)
    ensures
        opened_body(st, body, index, total).1 matches Ok(n) ==> n >= index && (body.len() > 0
            ==> n > index),
    decreases body.len(),
{
    if body.len() >= 4 {
        let end: int = 4 + be_value(body.take(4)) as int;
        if end <= body.len() {
            lemma_count_grows(st, body.skip(end), index + 1, total);
        }
    }
}

/// Where a loop over the chunks of a file stands.
pub struct ChunkLoop {
    /// Index of the next chunk.
    pub index: u64,
    /// No chunk follows.
    pub done: bool,
}

impl ChunkLoop {
    /// Before the first chunk.
    pub fn start() -> (r: ChunkLoop)
        ensures
            r.index == 0,
            !r.done,
    {
        ChunkLoop { index: 0, done: false }
    }

    /// Counts a chunk that was opened; fails on one that was not.
    pub fn advance(&mut self, opened: Option<Vec<u8>>) -> (r: Result<Vec<u8>, CryError>)
        requires
            old(self).index < u64::MAX,
        ensures
            outcome(r) == match opened {
                Some(plain) => Ok(plain@),
                None => Err(ErrorView::DecryptionFailed),
            },
            final(self).index == old(self).index + if opened is Some { 1int } else { 0 },
            final(self).done == old(self).done,
    {
        match opened {
            Some(plain) => {
                self.index = self.index + 1;
                Ok(plain)
            },
            None => Err(CryError::DecryptionFailed),
        }
    }
}

/// The common part of the chunks of a file, from the arguments of the functions below.
pub open spec fn stream(
    key: [u8; 32],
    base_nonce: [u8; NONCE_LEN],
    algo: AlgoId,
    header_aad: [u8; 32],
) -> Stream {
    Stream { algo, key: key@, nonce: base_nonce@, binding: header_aad@ }
}

/// Puts the length in front of a sealed chunk.
pub fn frame_chunk(sealed: &[u8]) -> (r: Vec<u8>)
    requires
        sealed@.len() < 0x1_0000_0000,
    ensures
        r@ == frame(sealed@),
        r@ == be_bytes(sealed@.len(), 4) + sealed@,
{
    let mut out: Vec<u8> = Vec::new();
    out.extend_from_slice(&u32_be(sealed.len() as u32));
    out.extend_from_slice(sealed);
    assert(out@ =~= frame(sealed@));
    out
}

/// Seals the next piece of plaintext and frames it. An empty piece is the end; a short one is
/// the last.
pub fn encrypt_step(
    at: &mut ChunkLoop,
    piece: &[u8],
    key: &[u8; 32],
    base_nonce: &[u8; NONCE_LEN],
    algo: Algorithm,
    header_aad: &[u8; 32],
) -> (r: Result<Option<Vec<u8>>, CryError>)
    requires
        piece@.len() <= CHUNK_SIZE,
        old(at).index < u64::MAX,
    ensures
        r is Ok,
        r->Ok_0 is None <==> piece@.len() == 0,
        final(at).done == (piece@.len() < CHUNK_SIZE),
        piece@.len() == 0 ==> final(at).index == old(at).index,
        piece@.len() > 0 ==> final(at).index == old(at).index + 1,
        r matches Ok(Some(f)) ==> {
            let st = stream(*key, *base_nonce, algo, *header_aad);
            let index = old(at).index as nat;
            &&& f@ == frame(st.seal(index, piece@))
            &&& st.seal(index, piece@).len() == piece@.len() + 16
            &&& st.unseal(index, st.seal(index, piece@)) == Some(piece@)
        },
        r matches Ok(Some(f)) ==> {
            let index = old(at).index as nat;
            let nonce = be_bytes(
                (be_value(base_nonce@) + index) % 0x1_0000_0000_0000_0000_0000_0000,
                12,
            );
            let aad = header_aad@ + be_bytes(index, 8);
            f@ == be_bytes(piece@.len() + 16, 4) + match algo {
                AlgoId::Aes256Gcm => aes256gcm_seal(key@, nonce, aad, piece@),
                AlgoId::ChaCha20Poly1305 => chacha20poly1305_seal(key@, nonce, aad, piece@),
            }
        },
{
    at.done = piece.len() < CHUNK_SIZE;
    if piece.len() == 0 {
        return Ok(None);
    }
    let nonce: [u8; NONCE_LEN] = chunk_nonce(base_nonce, at.index);
    let aad: Vec<u8> = chunk_aad(header_aad, at.index);
    let sealed: Vec<u8> = match encrypt_chunk(piece, key, &nonce, algo, aad.as_slice()) {
        Ok(sealed) => sealed,
        Err(e) => {
            return Err(e);
        },
    };
    at.index = at.index + 1;
    Ok(Some(frame_chunk(sealed.as_slice())))
}

/// Seals a plaintext chunk by chunk, appends the body to `writer` and returns the number of
/// chunks.
pub fn encrypt_chunks(
    reader: &[u8],
    writer: &mut Vec<u8>,
    key: &[u8; 32],
    base_nonce: &[u8; NONCE_LEN],
    algo: Algorithm,
    header_aad: &[u8; 32],
) -> (r: Result<u64, CryError>)
    ensures
        r matches Ok(n) && n == chunks_in(reader@.len()),
        final(writer)@ == old(writer)@ + sealed_body(
            stream(*key, *base_nonce, algo, *header_aad),
            reader@,
            0,
        ),
        reopens(stream(*key, *base_nonce, algo, *header_aad), reader@, 0),
        forall|total: nat| #[trigger]
            opened_body(
                stream(*key, *base_nonce, algo, *header_aad),
                sealed_body(stream(*key, *base_nonce, algo, *header_aad), reader@, 0),
                0,
                total,
            ) == (reader@, Ok::<nat, ErrorView>(chunks_in(reader@.len()))),
{
    let ghost st = stream(*key, *base_nonce, algo, *header_aad);
    let ghost before = writer@;
    let len: usize = reader.len();
    let mut at: ChunkLoop = ChunkLoop::start();
    let mut pos: usize = 0;
    proof {
        assert(reader@.skip(0) =~= reader@);
        assert(writer@ + sealed_body(st, reader@, 0) =~= before + sealed_body(st, reader@, 0));
    }
    while !at.done
        invariant
            st == stream(*key, *base_nonce, algo, *header_aad),
            len == reader@.len(),
            pos <= len,
            at.index <= pos,
            at.done ==> pos == len,
            at.index + chunks_in((len - pos) as nat) == chunks_in(len as nat),
            writer@ + sealed_body(st, reader@.skip(pos as int), at.index as nat) == before
                + sealed_body(st, reader@, 0),
            reopens(st, reader@.skip(pos as int), at.index as nat) ==> reopens(st, reader@, 0),
        decreases (if at.done { 0 } else { 1int }) + len - pos,
    {
        let ghost rest = reader@.skip(pos as int);
        let end: usize = if len - pos < CHUNK_SIZE { len } else { pos + CHUNK_SIZE };
        let piece: &[u8] = slice_subrange(reader, pos, end);
        proof {
            assert(piece@ =~= rest.take(chunk_len(rest)));
            assert(reader@.skip(end as int) =~= rest.skip(chunk_len(rest)));
        }
        let ghost index = at.index as nat;
        match encrypt_step(&mut at, piece, key, base_nonce, algo, header_aad) {
            Ok(Some(framed)) => {
                let ghost w = writer@;
                writer.extend_from_slice(framed.as_slice());
                proof {
                    lemma_chunks_in_step(rest);
                    let tail = sealed_body(st, reader@.skip(end as int), index + 1);
                    assert(writer@ + tail =~= w + (framed@ + tail));
                }
                pos = end;
            },
            Ok(None) => {
            },
            Err(e) => {
                return Err(e);
            },
        }
    }
    proof {
        assert(reader@.skip(pos as int) =~= Seq::empty());
        assert(writer@ + Seq::empty() =~= writer@);
        assert forall|total: nat| #[trigger]
            opened_body(st, sealed_body(st, reader@, 0), 0, total) == (
            reader@,
            Ok::<nat, ErrorView>(chunks_in(reader@.len())),
        ) by {
            lemma_opened_sealed(st, reader@, 0, total);
        }
    }
    Ok(at.index)
}

/// The body made of the given pieces, each sealed at its position.
pub open spec fn resealed(st: Stream, pieces: Seq<Seq<u8>>) -> Seq<u8>
    decreases pieces.len(),
{
    if pieces.len() == 0 {
        Seq::empty()
    } else {
        resealed(st, pieces.drop_last()) + frame(
            st.seal((pieces.len() - 1) as nat, pieces.last()),
        )
    }
}

/// The pieces, one after the other.
pub open spec fn joined(pieces: Seq<Seq<u8>>) -> Seq<u8>
    decreases pieces.len(),
{
    if pieces.len() == 0 {
        Seq::empty()
    } else {
        joined(pieces.drop_last()) + pieces.last()
    }
}

/// The body holds, in order, the sealed forms of `count` pieces that make up the plaintext, and
/// nothing else.
pub open spec fn authentic(st: Stream, body: Seq<u8>, plain: Seq<u8>, count: nat) -> bool {
    exists|pieces: Seq<Seq<u8>>|
        {
            &&& pieces.len() == count
            &&& joined(pieces) == plain
            &&& #[trigger] resealed(st, pieces) == body
        }
}

/// How the read of a frame's length went.
pub enum HeadRead {
    /// All four bytes were read.
    Full([u8; 4]),
    /// The input was at its end: no byte was read.
    End,
    /// The input ended after one to three bytes.
    Partial,
    /// The read failed; the text is the system's own description.
    Failed(String),
}

/// What was read of a frame's length, from the number of bytes that the input had left for it
/// and those bytes.
pub fn head_read(filled: usize, bytes: [u8; 4]) -> (r: HeadRead)
    requires
        filled <= 4,
    ensures
        r == (if filled == 0 {
            HeadRead::End
        } else if filled < 4 {
            HeadRead::Partial
        } else {
            HeadRead::Full(bytes)
        }),
{
    if filled == 0 {
        HeadRead::End
    } else if filled < 4 {
        HeadRead::Partial
    } else {
        HeadRead::Full(bytes)
    }
}

/// The length of the next sealed chunk, or nothing at the end of the input. `total_chunks` is
/// the number of chunks that the header commits to.
pub fn frame_head(at: &mut ChunkLoop, head: HeadRead, total_chunks: u64) -> (r: Result<
    Option<usize>,
    CryError,
>)
    ensures
        final(at).index == old(at).index,
        final(at).done == (if head is End { true } else { old(at).done }),
        match head {
            HeadRead::Full(b) => if be_value(b@) > MAX_CHUNK_WIRE_LEN {
                r matches Err(e) && e@ == (ErrorView::SuspiciousChunkLen {
                    index: old(at).index as nat,
                    len: be_value(b@),
                })
            } else {
                r matches Ok(Some(n)) && n == be_value(b@)
            },
            HeadRead::End => r matches Ok(None),
            HeadRead::Partial => r matches Err(e) && e@ == left_over(
                old(at).index as nat,
                total_chunks as nat,
            ),
            HeadRead::Failed(m) => r matches Err(e) && e@ == ErrorView::Io(m@),
        },
{
    match head {
        HeadRead::Full(b) => {
            let n: usize = u32_from_be(&b) as usize;
            if n > MAX_CHUNK_WIRE_LEN {
                Err(CryError::SuspiciousChunkLen { index: at.index, len: n })
            } else {
                Ok(Some(n))
            }
        },
        HeadRead::End => {
            at.done = true;
            Ok(None)
        },
        HeadRead::Partial => {
            if at.index == total_chunks {
                Err(CryError::DecryptionFailed)
            } else {
                Err(CryError::Truncated { expected: total_chunks, got: at.index })
            }
        },
        HeadRead::Failed(m) => Err(CryError::Io(m)),
    }
}

/// Opens the next sealed chunk.
pub fn decrypt_step(
    at: &mut ChunkLoop,
    ct: &[u8],
    key: &[u8; 32],
    base_nonce: &[u8; NONCE_LEN],
    algo: Algorithm,
    header_aad: &[u8; 32],
) -> (r: Result<Vec<u8>, CryError>)
    requires
        ct@.len() <= MAX_CHUNK_WIRE_LEN,
        old(at).index < u64::MAX,
    ensures
        ({
            let st = stream(*key, *base_nonce, algo, *header_aad);
            let index = old(at).index as nat;
            &&& outcome(r) == match st.unseal(index, ct@) {
                Some(p) => Ok(p),
                None => Err(ErrorView::DecryptionFailed),
            }
            &&& r matches Ok(p) ==> st.seal(index, p@) == ct@
        }),
        ({
            let index = old(at).index as nat;
            let nonce = be_bytes(
                (be_value(base_nonce@) + index) % 0x1_0000_0000_0000_0000_0000_0000,
                12,
            );
            let aad = header_aad@ + be_bytes(index, 8);
            let opened = match algo {
                AlgoId::Aes256Gcm => aes256gcm_open(key@, nonce, aad, ct@),
                AlgoId::ChaCha20Poly1305 => chacha20poly1305_open(key@, nonce, aad, ct@),
            };
            &&& r is Ok <==> opened is Some
            &&& r matches Ok(p) ==> opened == Some(p@)
            &&& r matches Ok(p) ==> ct@ == match algo {
                AlgoId::Aes256Gcm => aes256gcm_seal(key@, nonce, aad, p@),
                AlgoId::ChaCha20Poly1305 => chacha20poly1305_seal(key@, nonce, aad, p@),
            }
            &&& r matches Err(e) ==> e is DecryptionFailed
        }),
        final(at).index == old(at).index + if r is Ok { 1int } else { 0 },
        final(at).done == old(at).done,
{
    let nonce: [u8; NONCE_LEN] = chunk_nonce(base_nonce, at.index);
    let aad: Vec<u8> = chunk_aad(header_aad, at.index);
    let opened: Option<Vec<u8>> = match decrypt_chunk(ct, key, &nonce, algo, aad.as_slice()) {
        Ok(plain) => Some(plain),
        Err(_) => None,
    };
    at.advance(opened)
}

/// The view of a chunk count.
pub open spec fn count_outcome(r: Result<u64, CryError>) -> Result<nat, ErrorView> {
    match r {
        Ok(n) => Ok(n as nat),
        Err(e) => Err(e@),
    }
}

/// Opens a body chunk by chunk, appends the plaintext to `writer` and returns the number of
/// chunks. `total_chunks` is the number of chunks that the header commits to.
pub fn decrypt_chunks(
    reader: &[u8],
    writer: &mut Vec<u8>,
    key: &[u8; 32],
    base_nonce: &[u8; NONCE_LEN],
    algo: Algorithm,
    header_aad: &[u8; 32],
    total_chunks: u64,
) -> (r: Result<u64, CryError>)
    ensures
        ({
            let st = stream(*key, *base_nonce, algo, *header_aad);
            let opened = opened_body(st, reader@, 0, total_chunks as nat);
            &&& count_outcome(r) == opened.1
            &&& final(writer)@ == old(writer)@ + opened.0
            &&& r matches Ok(n) ==> authentic(st, reader@, opened.0, n as nat)
        }),
{
    let ghost st = stream(*key, *base_nonce, algo, *header_aad);
    let ghost before = writer@;
    let ghost mut plain: Seq<u8> = Seq::empty();
    let ghost mut pieces: Seq<Seq<u8>> = Seq::empty();
    let len: usize = reader.len();
    let mut at: ChunkLoop = ChunkLoop::start();
    let mut pos: usize = 0;
    proof {
        assert(reader@.skip(0) =~= reader@);
        assert(reader@.take(0) =~= Seq::empty());
        assert(writer@ =~= before + plain);
        let all = opened_body(st, reader@, 0, total_chunks as nat).0;
        assert(plain + all =~= all);
    }
    loop
        invariant
            st == stream(*key, *base_nonce, algo, *header_aad),
            len == reader@.len(),
            pos <= len,
            at.index <= pos,
            at.index == pieces.len(),
            before == old(writer)@,
            writer@ == before + plain,
            plain == joined(pieces),
            reader@.take(pos as int) == resealed(st, pieces),
            opened_body(st, reader@, 0, total_chunks as nat).0 == plain + opened_body(
                st,
                reader@.skip(pos as int),
                at.index as nat,
                total_chunks as nat,
            ).0,
            opened_body(st, reader@, 0, total_chunks as nat).1 == opened_body(
                st,
                reader@.skip(pos as int),
                at.index as nat,
                total_chunks as nat,
            ).1,
        ensures
            pos == len,
        decreases len - pos,
    {
        let ghost rest = reader@.skip(pos as int);
        let head: HeadRead = if len - pos < 4 {
            head_read(len - pos, [0u8; 4])
        } else {
            head_read(4, array_at(reader, pos))
        };
        proof {
            if len - pos >= 4 {
                assert(rest.take(4) =~= reader@.subrange(pos as int, pos + 4));
            }
            assert(plain + Seq::empty() =~= plain);
        }
        let n: usize = match frame_head(&mut at, head, total_chunks) {
            Ok(Some(n)) => n,
            Ok(None) => {
                break ;
            },
            Err(e) => {
                return Err(e);
            },
        };
        let start: usize = pos + 4;
        if len - start < n {
            return Err(CryError::Io("failed to fill whole buffer".to_owned()));
        }
        let end: usize = start + n;
        let ct: &[u8] = slice_subrange(reader, start, end);
        proof {
            assert(ct@ =~= rest.subrange(4, 4 + n));
            assert(reader@.skip(end as int) =~= rest.skip(4 + n));
        }
        let ghost index = at.index as nat;
        let piece: Vec<u8> = match decrypt_step(&mut at, ct, key, base_nonce, algo, header_aad) {
            Ok(piece) => piece,
            Err(e) => {
                return Err(e);
            },
        };
        writer.extend_from_slice(piece.as_slice());
        proof {
            let more = pieces.push(piece@);
            assert(more.drop_last() =~= pieces);
            lemma_be_value_bytes(rest.take(4));
            assert(frame(ct@) =~= rest.take(4 + n));
            assert(reader@.take(end as int) =~= reader@.take(pos as int) + rest.take(4 + n));
            let tail = opened_body(st, rest.skip(4 + n), index + 1, total_chunks as nat).0;
            assert(plain + (piece@ + tail) =~= (plain + piece@) + tail);
            plain = plain + piece@;
            pieces = more;
            assert(writer@ =~= before + plain);
        }
        pos = end;
    }
    proof {
        assert(opened_body(st, reader@, 0, total_chunks as nat).0 =~= plain);
        assert(reader@.take(pos as int) =~= reader@);
    }
    Ok(at.index)
}

/// Number of chunks that a plaintext of `plain_len` bytes is cut into.
pub fn chunk_count(plain_len: u64) -> (n: u64)
    ensures
        n == chunks_in(plain_len as nat),
        n * 0x10_0000 >= plain_len,
        plain_len > 0 ==> (n - 1) * 0x10_0000 < plain_len,
        plain_len == 0 ==> n == 0,
{
    let size: u64 = CHUNK_SIZE as u64;
    if plain_len % size == 0 {
        plain_len / size
    } else {
        plain_len / size + 1
    }
}

/// Compares the chunks that went through with the number that the header commits to.
pub fn check_count(expected: u64, got: u64) -> (r: Result<u64, CryError>)
    ensures
        count_outcome(r) == if got == expected {
            Ok(got as nat)
        } else {
            Err(ErrorView::Truncated { expected: expected as nat, got: got as nat })
        },
{
    if got != expected {
        Err(CryError::Truncated { expected, got })
    } else {
        Ok(got)
    }
}

/// Whether an output may be written: a new file, or any file with `force`.
pub open spec fn may_write(present: bool, force: bool) -> bool {
    !present || force
}

/// Refuses to overwrite an existing output, shown as `path`, without `force`.
pub fn check_overwrite(present: bool, path: &str, force: bool) -> (r: Result<(), CryError>)
    ensures
        r is Ok <==> may_write(present, force),
        r is Ok <==> !present || force,
        r matches Err(e) ==> e@ == ErrorView::FileExists(path@),
        r matches Err(e) ==> e is FileExists && e->FileExists_0@ == path@,
{
    if present && !force {
        Err(CryError::FileExists(path.to_owned()))
    } else {
        Ok(())
    }
}

/// The common part of the chunks of the file with a header.
pub open spec fn header_stream(h: HeaderView, key: Seq<u8>) -> Stream {
    Stream { algo: h.algo, key, nonce: h.nonce, binding: header_binding(h) }
}

/// The header of the file for a plaintext of the given length.
pub open spec fn header_for(
    plain_len: nat,
    algo: AlgoId,
    salt: Seq<u8>,
    nonce: Seq<u8>,
) -> HeaderView {
    HeaderView { algo, salt, nonce, chunk_count: chunks_in(plain_len) }
}

/// The encrypted file for a plaintext, given its salt and base nonce.
pub open spec fn encrypted_file(
    plain: Seq<u8>,
    passphrase: Seq<u8>,
    algo: AlgoId,
    salt: Seq<u8>,
    nonce: Seq<u8>,
) -> Result<Seq<u8>, ErrorView> {
    match derived_key(passphrase, salt) {
        Err(e) => Err(e),
        Ok(key) => {
            let h = header_for(plain.len(), algo, salt, nonce);
            Ok(h.bytes(key) + sealed_body(header_stream(h, key), plain, 0))
        },
    }
}

/// The header at the start of a file and the key of the file.
pub open spec fn file_header(file: Seq<u8>, passphrase: Seq<u8>) -> Result<
    (HeaderView, Seq<u8>),
    ErrorView,
> {
    if file.len() < HEADER_LEN {
        Err(ErrorView::InvalidFormat("File too short to contain a valid header"@))
    } else {
        match derived_key(passphrase, file.subrange(5, 21)) {
            Err(e) => Err(e),
            Ok(key) => match read_header(file.take(HEADER_LEN as int), key) {
                Err(e) => Err(e),
                Ok(h) => Ok((h, key)),
            },
        }
    }
}

/// What decrypting a file gives: its plaintext, or the first thing that is wrong with it.
pub open spec fn decrypted_file(file: Seq<u8>, passphrase: Seq<u8>) -> Result<
    Seq<u8>,
    ErrorView,
> {
    match file_header(file, passphrase) {
        Err(e) => Err(e),
        Ok((h, key)) => {
            let opened = opened_body(
                header_stream(h, key),
                file.skip(HEADER_LEN as int),
                0,
                h.chunk_count,
            );
            match opened.1 {
                Err(e) => Err(e),
                Ok(n) => if n == h.chunk_count {
                    Ok(opened.0)
                } else {
                    Err(ErrorView::Truncated { expected: h.chunk_count, got: n })
                },
            }
        },
    }
}

/// Reads and authenticates the header of a file, with the key that goes with its salt.
pub fn open_header(raw: &[u8], passphrase: &[u8]) -> (r: Result<(Header, SecretKey), CryError>)
    ensures
        outcome(r) == file_header(raw@, passphrase@),
{
    if raw.len() < HEADER_LEN {
        return Err(
            CryError::InvalidFormat("File too short to contain a valid header".to_owned()),
        );
    }
    let salt: [u8; SALT_LEN] = array_at(raw, 5);
    let key: SecretKey = match derive_key(passphrase, &salt) {
        Ok(key) => key,
        Err(e) => {
            return Err(e);
        },
    };
    let head: &[u8] = slice_subrange(raw, 0, HEADER_LEN);
    assert(head@ =~= raw@.take(HEADER_LEN as int));
    match Header::read(head, &key.bytes) {
        Ok(header) => Ok((header, key)),
        Err(e) => Err(e),
    }
}

/// Encrypts a plaintext under the given salt and base nonce.
pub fn encrypt_with(
    plain: &[u8],
    passphrase: &[u8],
    algorithm: Algorithm,
    salt: &[u8; SALT_LEN],
    nonce: &[u8; NONCE_LEN],
) -> (r: Result<Vec<u8>, CryError>)
    ensures
        outcome(r) == encrypted_file(plain@, passphrase@, algorithm, salt@, nonce@),
        r is Ok <==> passphrase@.len() <= 0xffff_ffff,
        r matches Ok(f) ==> f@.len() == HEADER_LEN + plain@.len() + 20 * chunks_in(plain@.len()),
        r matches Ok(f) ==> decrypted_file(f@, passphrase@) == Ok::<Seq<u8>, ErrorView>(plain@),
        r matches Ok(f) ==> forall|cut: int|
            0 <= cut < f@.len() ==> (#[trigger] decrypted_file(f@.take(cut), passphrase@)) is Err,
        r matches Ok(f) ==> forall|extra: Seq<u8>|
            extra.len() > 0 ==> (#[trigger] decrypted_file(f@ + extra, passphrase@)) is Err,
        r matches Ok(f) ==> {
            let key = argon2id_hash(passphrase@, salt@, 65536, 3, 1, 32);
            let head = seq![
                0x43u8,
                0x52,
                0x59,
                0x02,
                match algorithm {
                    AlgoId::Aes256Gcm => 1,
                    AlgoId::ChaCha20Poly1305 => 2,
                },
            ] + salt@ + nonce@ + be_bytes((plain@.len() + 0xf_ffff) as nat / 0x10_0000, 8);
            &&& f@.take(41) == head
            &&& f@.subrange(41, 73) == hmac_sha256_tag(
                sha256_digest(encode_utf8("cry-header-hmac-v2"@) + key),
                head,
            )
            &&& forall|i: nat|
                #![trigger be_bytes(i, 8)]
                i * 0x10_0000 < plain@.len() ==> {
                    let start: int = i as int * 0x10_0000;
                    let end = if plain@.len() < start + 0x10_0000 {
                        plain@.len() as int
                    } else {
                        start + 0x10_0000
                    };
                    let piece = plain@.subrange(start, end);
                    let at: int = 73 + i as int * 0x10_0014;
                    let nonce_i = be_bytes(
                        (be_value(nonce@) + i) % 0x1_0000_0000_0000_0000_0000_0000,
                        12,
                    );
                    let aad = sha256_digest(head) + be_bytes(i, 8);
                    f@.subrange(at, at + 20 + piece.len()) == be_bytes(piece.len() + 16, 4)
                        + match algorithm {
                        AlgoId::Aes256Gcm => aes256gcm_seal(key, nonce_i, aad, piece),
                        AlgoId::ChaCha20Poly1305 => chacha20poly1305_seal(key, nonce_i, aad, piece),
                    }
                }
        },
{
    let chunk_count: u64 = chunk_count(plain.len() as u64);
    let key: SecretKey = match derive_key(passphrase, salt) {
        Ok(key) => key,
        Err(e) => {
            return Err(e);
        },
    };
    let header: Header = Header { algo: algorithm, salt: *salt, nonce: *nonce, chunk_count };
    let aad: [u8; 32] = header_aad(&header);
    let mut out: Vec<u8> = Vec::new();
    match header.write(&mut out, &key.bytes) {
        Ok(()) => {
        },
        Err(e) => {
            return Err(e);
        },
    }
    let ghost head = out@;
    let actual: u64 = match encrypt_chunks(plain, &mut out, &key.bytes, nonce, algorithm, &aad) {
        Ok(n) => n,
        Err(e) => {
            return Err(e);
        },
    };
    match check_count(chunk_count, actual) {
        Ok(_) => {
        },
        Err(e) => {
            return Err(e);
        },
    }
    proof {
        let h = header@;
        assert(head =~= h.bytes(key@));
        assert(h == header_for(plain@.len(), algorithm, salt@, nonce@));
        lemma_be_limits();
        lemma_body_len(header_stream(h, key@), plain@, 0);
        lemma_file_round_trip(h, key@, passphrase@, plain@);
        lemma_reopens_lengths(header_stream(h, key@), plain@, 0);
        lemma_file_frames(h, key@, plain@);
    }
    Ok(out)
}

/// Decrypting the file made for a plaintext gives the plaintext back; decrypting the file cut
/// short, or with anything behind it, fails.
proof fn lemma_file_round_trip(h: HeaderView, key: Seq<u8>, passphrase: Seq<u8>, plain: Seq<u8>)
    requires
        h.valid(),
        h.chunk_count == chunks_in(plain.len()),
        h.bytes(key).len() == HEADER_LEN,
        derived_key(passphrase, h.salt) == Ok::<Seq<u8>, ErrorView>(key),
        forall|rest: Seq<u8>| #[trigger]
            read_header(h.bytes(key) + rest, key) == Ok::<HeaderView, ErrorView>(h),
        reopens(header_stream(h, key), plain, 0),
    ensures
        ({
            let file = h.bytes(key) + sealed_body(header_stream(h, key), plain, 0);
            &&& decrypted_file(file, passphrase) == Ok::<Seq<u8>, ErrorView>(plain)
            &&& forall|cut: int|
                0 <= cut < file.len() ==> (#[trigger] decrypted_file(file.take(cut), passphrase)) is Err
            &&& forall|extra: Seq<u8>|
                extra.len() > 0 ==> (#[trigger] decrypted_file(file + extra, passphrase)) is Err
        }),
{
    let st = header_stream(h, key);
    let head = h.bytes(key);
    let body = sealed_body(st, plain, 0);
    let file = head + body;
    lemma_be_bytes_len(h.chunk_count, 8);
    lemma_opened_sealed(st, plain, 0, h.chunk_count);
    assert(head + Seq::empty() =~= head);
    assert(file.take(HEADER_LEN as int) =~= head + Seq::empty());
    assert(file.skip(HEADER_LEN as int) =~= body);
    assert(file.subrange(5, 21) =~= h.salt);
    assert forall|cut: int| 0 <= cut < file.len() implies (#[trigger] decrypted_file(
        file.take(cut),
        passphrase,
    )) is Err by {
        let short = file.take(cut);
        if cut >= HEADER_LEN {
            assert(short.take(HEADER_LEN as int) =~= head + Seq::empty());
            assert(short.skip(HEADER_LEN as int) =~= body.take(cut - HEADER_LEN));
            assert(short.subrange(5, 21) =~= h.salt);
            lemma_cut_body(st, plain, 0, h.chunk_count, cut - HEADER_LEN);
        }
    }
    assert forall|extra: Seq<u8>| extra.len() > 0 implies (#[trigger] decrypted_file(
        file + extra,
        passphrase,
    )) is Err by {
        let long = file + extra;
        assert(long.take(HEADER_LEN as int) =~= head + Seq::empty());
        assert(long.skip(HEADER_LEN as int) =~= body + extra);
        assert(long.subrange(5, 21) =~= h.salt);
        lemma_extended_body(st, plain, 0, h.chunk_count, extra);
    }
}

/// Draws a salt and a base nonce from the operating system. Nothing is known of their values;
/// the only error is `Io`, where the operating system gives no random bytes.
pub fn fresh_salt_and_nonce() -> (r: Result<([u8; SALT_LEN], [u8; NONCE_LEN]), CryError>)
    ensures
        r matches Err(e) ==> e@ is Io,
{
    let mut salt: [u8; SALT_LEN] = [0u8; SALT_LEN];
    let mut nonce: [u8; NONCE_LEN] = [0u8; NONCE_LEN];
    let salt_draw: Result<(), String> = os_random(&mut salt);
    let nonce_draw: Result<(), String> = os_random(&mut nonce);
    drawn_salt_and_nonce(salt_draw, salt, nonce_draw, nonce)
}

/// The salt and the base nonce that two draws filled in, or the failure of the first draw that
/// failed, with the system's own description.
pub fn drawn_salt_and_nonce(
    salt_draw: Result<(), String>,
    salt: [u8; SALT_LEN],
    nonce_draw: Result<(), String>,
    nonce: [u8; NONCE_LEN],
) -> (r: Result<([u8; SALT_LEN], [u8; NONCE_LEN]), CryError>)
    ensures
        outcome(r) == match (salt_draw, nonce_draw) {
            (Err(e), _) => Err(ErrorView::Io(e@)),
            (Ok(_), Err(e)) => Err(ErrorView::Io(e@)),
            (Ok(_), Ok(_)) => Ok((salt@, nonce@)),
        },
{
    match salt_draw {
        Err(e) => Err(CryError::Io(e)),
        Ok(()) => match nonce_draw {
            Err(e) => Err(CryError::Io(e)),
            Ok(()) => Ok((salt, nonce)),
        },
    }
}

/// Encrypts a plaintext for the output shown as `cipher_path`, under a fresh salt and a fresh
/// base nonce from the operating system. Refuses where the output exists, unless `force` is
/// set. The error is `Io` where the operating system gives no random bytes.
pub fn encrypt_file(
    plain: &[u8],
    cipher_exists: bool,
    cipher_path: &str,
    passphrase: &[u8],
    algorithm: Algorithm,
    force: bool,
) -> (r: Result<Vec<u8>, CryError>)
    ensures
        r matches Ok(f) ==> may_write(cipher_exists, force),
        r matches Ok(f) ==> decrypted_file(f@, passphrase@) == Ok::<Seq<u8>, ErrorView>(plain@),
        r matches Ok(f) ==> exists|salt: Seq<u8>, nonce: Seq<u8>|
            salt.len() == SALT_LEN && nonce.len() == NONCE_LEN && #[trigger] encrypted_file(
                plain@,
                passphrase@,
                algorithm,
                salt,
                nonce,
            ) == Ok::<Seq<u8>, ErrorView>(f@),
        r matches Ok(f) ==> forall|cut: int|
            0 <= cut < f@.len() ==> (#[trigger] decrypted_file(f@.take(cut), passphrase@)) is Err,
        r matches Ok(f) ==> forall|extra: Seq<u8>|
            extra.len() > 0 ==> (#[trigger] decrypted_file(f@ + extra, passphrase@)) is Err,
        r matches Ok(f) ==> f@.len() == HEADER_LEN + plain@.len() + 20 * chunks_in(plain@.len()),
        r matches Ok(f) ==> {
            let salt = f@.subrange(5, 21);
            let nonce = f@.subrange(21, 33);
            let key = argon2id_hash(passphrase@, salt, 65536, 3, 1, 32);
            let head = seq![
                0x43u8,
                0x52,
                0x59,
                0x02,
                match algorithm {
                    AlgoId::Aes256Gcm => 1,
                    AlgoId::ChaCha20Poly1305 => 2,
                },
            ] + salt + nonce + be_bytes((plain@.len() + 0xf_ffff) as nat / 0x10_0000, 8);
            &&& f@.take(41) == head
            &&& f@.subrange(41, 73) == hmac_sha256_tag(
                sha256_digest(encode_utf8("cry-header-hmac-v2"@) + key),
                head,
            )
            &&& forall|i: nat|
                #![trigger be_bytes(i, 8)]
                i * 0x10_0000 < plain@.len() ==> {
                    let start: int = i as int * 0x10_0000;
                    let end = if plain@.len() < start + 0x10_0000 {
                        plain@.len() as int
                    } else {
                        start + 0x10_0000
                    };
                    let piece = plain@.subrange(start, end);
                    let at: int = 73 + i as int * 0x10_0014;
                    let nonce_i = be_bytes(
                        (be_value(nonce) + i) % 0x1_0000_0000_0000_0000_0000_0000,
                        12,
                    );
                    let aad = sha256_digest(head) + be_bytes(i, 8);
                    f@.subrange(at, at + 20 + piece.len()) == be_bytes(piece.len() + 16, 4)
                        + match algorithm {
                        AlgoId::Aes256Gcm => aes256gcm_seal(key, nonce_i, aad, piece),
                        AlgoId::ChaCha20Poly1305 => chacha20poly1305_seal(key, nonce_i, aad, piece),
                    }
                }
        },
        r matches Err(e) ==> if may_write(cipher_exists, force) {
            e@ is Io || (e@ == ErrorView::Kdf("password is too long"@) && passphrase@.len()
                > 0xffff_ffff)
        } else {
            e@ == ErrorView::FileExists(cipher_path@)
        },
{
    match check_overwrite(cipher_exists, cipher_path, force) {
        Ok(()) => {
        },
        Err(e) => {
            return Err(e);
        },
    }
    let (salt, nonce): ([u8; SALT_LEN], [u8; NONCE_LEN]) = match fresh_salt_and_nonce() {
        Ok(fresh) => fresh,
        Err(e) => {
            return Err(e);
        },
    };
    let file: Result<Vec<u8>, CryError> = encrypt_with(
        plain,
        passphrase,
        algorithm,
        &salt,
        &nonce,
    );
    proof {
        if file is Ok {
            let f = file->Ok_0;
            assert(f@.subrange(5, 21) =~= f@.take(41).subrange(5, 21));
            assert(f@.subrange(21, 33) =~= f@.take(41).subrange(21, 33));
            assert(f@.subrange(5, 21) =~= salt@);
            assert(f@.subrange(21, 33) =~= nonce@);
        }
    }
    file
}

/// Decrypts a file for the output shown as `plain_path`. Refuses where the output exists,
/// unless `force` is set.
pub fn decrypt_file(
    plain_exists: bool,
    plain_path: &str,
    cipher: &[u8],
    passphrase: &[u8],
    force: bool,
) -> (r: Result<Vec<u8>, CryError>)
    ensures
        outcome(r) == if may_write(plain_exists, force) {
            decrypted_file(cipher@, passphrase@)
        } else {
            Err(ErrorView::FileExists(plain_path@))
        },
        r matches Ok(p) ==> {
            let (h, key) = file_header(cipher@, passphrase@)->Ok_0;
            authentic(
                header_stream(h, key),
                cipher@.skip(HEADER_LEN as int),
                p@,
                h.chunk_count,
            )
        },
        r matches Ok(p) ==> {
            let key = argon2id_hash(passphrase@, cipher@.subrange(5, 21), 65536, 3, 1, 32);
            &&& passphrase@.len() <= 0xffff_ffff
            &&& cipher@.len() >= 73
            &&& cipher@.take(4) == seq![0x43u8, 0x52, 0x59, 0x02]
            &&& cipher@[4] == 1 || cipher@[4] == 2
            &&& cipher@.subrange(41, 73) == hmac_sha256_tag(
                sha256_digest(encode_utf8("cry-header-hmac-v2"@) + key),
                cipher@.take(41),
            )
            &&& exists|pieces: Seq<Seq<u8>>|
                {
                    &&& pieces.len() == be_value(cipher@.subrange(33, 41))
                    &&& #[trigger] pieces.flatten() == p@
                    &&& cipher@.skip(73) == Seq::new(
                        pieces.len(),
                        |i: int|
                            {
                                let nonce = be_bytes(
                                    ((be_value(cipher@.subrange(21, 33)) + i)
                                        % 0x1_0000_0000_0000_0000_0000_0000) as nat,
                                    12,
                                );
                                let aad = sha256_digest(cipher@.take(41)) + be_bytes(i as nat, 8);
                                let sealed = if cipher@[4] == 1 {
                                    aes256gcm_seal(key, nonce, aad, pieces[i])
                                } else {
                                    chacha20poly1305_seal(key, nonce, aad, pieces[i])
                                };
                                be_bytes(sealed.len(), 4) + sealed
                            },
                    ).flatten()
                }
        },
{
    match check_overwrite(plain_exists, plain_path, force) {
        Ok(()) => {
        },
        Err(e) => {
            return Err(e);
        },
    }
    let (header, key): (Header, SecretKey) = match open_header(cipher, passphrase) {
        Ok(opened) => opened,
        Err(e) => {
            return Err(e);
        },
    };
    let aad: [u8; 32] = header_aad(&header);
    let body: &[u8] = slice_subrange(cipher, HEADER_LEN, cipher.len());
    assert(body@ =~= cipher@.skip(HEADER_LEN as int));
    let mut out: Vec<u8> = Vec::new();
    let actual: u64 = match decrypt_chunks(
        body,
        &mut out,
        &key.bytes,
        &header.nonce,
        header.algo,
        &aad,
        header.chunk_count,
    ) {
        Ok(n) => n,
        Err(e) => {
            return Err(e);
        },
    };
    match check_count(header.chunk_count, actual) {
        Ok(_) => {
        },
        Err(e) => {
            return Err(e);
        },
    }
    proof {
        let st = header_stream(header@, key@);
        assert(out@ =~= opened_body(st, body@, 0, header.chunk_count as nat).0);
        law_accepted_file(cipher@, passphrase@, header@, key@, out@);
    }
    Ok(out)
}

/// A file whose header has another tag than the one that goes with the key of the passphrase is
/// refused as tampered with, and none of its chunks is opened.
pub proof fn law_wrong_passphrase_refused(file: Seq<u8>, passphrase: Seq<u8>, key: Seq<u8>)
    requires
        file.len() >= HEADER_LEN,
        parsed_header(file.take(HEADER_LEN as int)) is Ok,
        derived_key(passphrase, file.subrange(5, 21)) == Ok::<Seq<u8>, ErrorView>(key),
        file.subrange(41, 73) != header_tag(file.take(41), key),
    ensures
        decrypted_file(file, passphrase) == Err::<Seq<u8>, ErrorView>(ErrorView::HeaderTampered),
{
    let head = file.take(HEADER_LEN as int);
    assert(head.subrange(41, 73) =~= file.subrange(41, 73));
    assert(head.take(41) =~= file.take(41));
    law_tampering_refused(head, key);
}

/// A file is decrypted with the algorithm that its header names, and with as many chunks as its
/// header commits to.
pub proof fn law_header_governs(file: Seq<u8>, passphrase: Seq<u8>)
    requires
        decrypted_file(file, passphrase) is Ok,
    ensures
        file_header(file, passphrase) is Ok,
        file.len() >= HEADER_LEN,
        file_header(file, passphrase)->Ok_0.0.algo.spec_byte() == file[4],
        opened_body(
            header_stream(
                file_header(file, passphrase)->Ok_0.0,
                file_header(file, passphrase)->Ok_0.1,
            ),
            file.skip(HEADER_LEN as int),
            0,
            be_value(file.subrange(33, 41)),
        ).1 == Ok::<nat, ErrorView>(be_value(file.subrange(33, 41))),
{
    let head = file.take(HEADER_LEN as int);
    assert(head.subrange(33, 41) =~= file.subrange(33, 41));
}

/// The file for an empty plaintext is a header alone, which commits to no chunk.
pub proof fn law_empty_file(
    passphrase: Seq<u8>,
    algo: AlgoId,
    salt: Seq<u8>,
    nonce: Seq<u8>,
    key: Seq<u8>,
)
    requires
        derived_key(passphrase, salt) == Ok::<Seq<u8>, ErrorView>(key),
    ensures
        encrypted_file(Seq::empty(), passphrase, algo, salt, nonce) == Ok::<Seq<u8>, ErrorView>(
            (HeaderView { algo, salt, nonce, chunk_count: 0 }).bytes(key),
        ),
{
    let h = HeaderView { algo, salt, nonce, chunk_count: 0 };
    assert(h.bytes(key) + Seq::empty() =~= h.bytes(key));
}

/// The pieces that a plaintext is read in: all full, but for the last, which may be short and
/// is not empty.
pub open spec fn chunked(pieces: Seq<Seq<u8>>) -> bool {
    &&& forall|i: int| 0 <= i < pieces.len() - 1 ==> (#[trigger] pieces[i]).len() == CHUNK_SIZE
    &&& pieces.len() > 0 ==> 0 < pieces.last().len() <= CHUNK_SIZE
}

/// Sealed chunks as they stand in a body, one after the other.
pub open spec fn framed(sealed: Seq<Seq<u8>>) -> Seq<u8>
    decreases sealed.len(),
{
    if sealed.len() == 0 {
        Seq::empty()
    } else {
        framed(sealed.drop_last()) + frame(sealed.last())
    }
}

/// Full pieces at the front of a plaintext are sealed one by one.
proof fn lemma_full_pieces(st: Stream, pieces: Seq<Seq<u8>>, rest: Seq<u8>)
    requires
        forall|i: int| 0 <= i < pieces.len() ==> (#[trigger] pieces[i]).len() == CHUNK_SIZE,
    ensures
        joined(pieces).len() == pieces.len() * CHUNK_SIZE,
        sealed_body(st, joined(pieces) + rest, 0) == resealed(st, pieces) + sealed_body(
            st,
            rest,
            pieces.len(),
        ),
    decreases pieces.len(),
{
    if pieces.len() == 0 {
        assert(joined(pieces) + rest =~= rest);
        assert(Seq::empty() + sealed_body(st, rest, 0) =~= sealed_body(st, rest, 0));
    } else {
        let front = pieces.drop_last();
        let last = pieces.last();
        assert forall|i: int| 0 <= i < front.len() implies (#[trigger] front[i]).len()
            == CHUNK_SIZE by {
            assert(front[i] == pieces[i]);
        }
        assert(last == pieces[pieces.len() - 1]);
        lemma_full_pieces(st, front, last + rest);
        assert(joined(pieces) + rest =~= joined(front) + (last + rest));
        assert((last + rest).take(CHUNK_SIZE as int) =~= last);
        assert((last + rest).skip(CHUNK_SIZE as int) =~= rest);
        assert(resealed(st, pieces) + sealed_body(st, rest, pieces.len()) =~= resealed(st, front)
            + (frame(st.seal(front.len(), last)) + sealed_body(st, rest, pieces.len())));
    }
}

/// The frames that consecutive calls of [`encrypt_step`] give for the pieces of a plaintext make
/// up the body for the plaintext, and there are as many as the header commits to.
pub proof fn law_steps_seal(st: Stream, pieces: Seq<Seq<u8>>)
    requires
        chunked(pieces),
    ensures
        resealed(st, pieces) == sealed_body(st, joined(pieces), 0),
        pieces.len() == chunks_in(joined(pieces).len()),
{
    if pieces.len() > 0 {
        let front = pieces.drop_last();
        let last = pieces.last();
        assert forall|i: int| 0 <= i < front.len() implies (#[trigger] front[i]).len()
            == CHUNK_SIZE by {
            assert(front[i] == pieces[i]);
        }
        lemma_full_pieces(st, front, last);
        assert(last.take(last.len() as int) =~= last);
        assert(last.skip(last.len() as int) =~= Seq::empty());
        let f = frame(st.seal(front.len(), last));
        assert(sealed_body(st, last.skip(last.len() as int), pieces.len()) =~= Seq::empty());
        assert(f + Seq::empty() =~= f);
    }
}

/// What consecutive calls of [`frame_head`] and [`decrypt_step`] give for the frames at the front
/// of a body is what comes out of the body first, and the rest of the body decides how it ends.
pub proof fn law_steps_open(
    st: Stream,
    sealed: Seq<Seq<u8>>,
    pieces: Seq<Seq<u8>>,
    rest: Seq<u8>,
    total: nat,
)
    requires
        sealed.len() == pieces.len(),
        forall|i: int|
            #![trigger sealed[i]]
            0 <= i < sealed.len() ==> sealed[i].len() <= MAX_CHUNK_WIRE_LEN && st.unseal(
                i as nat,
                sealed[i],
            ) == Some(pieces[i]),
    ensures
        opened_body(st, framed(sealed) + rest, 0, total).0 == joined(pieces) + opened_body(
            st,
            rest,
            sealed.len(),
            total,
        ).0,
        opened_body(st, framed(sealed) + rest, 0, total).1 == opened_body(
            st,
            rest,
            sealed.len(),
            total,
        ).1,
    decreases sealed.len(),
{
    if sealed.len() == 0 {
        assert(framed(sealed) + rest =~= rest);
        let out = opened_body(st, rest, 0, total).0;
        assert(joined(pieces) + out =~= out);
    } else {
        let front = sealed.drop_last();
        let before = pieces.drop_last();
        let last = sealed.last();
        assert forall|i: int|
            #![trigger front[i]]
            0 <= i < front.len() implies front[i].len() <= MAX_CHUNK_WIRE_LEN && st.unseal(
            i as nat,
            front[i],
        ) == Some(before[i]) by {
            assert(front[i] == sealed[i]);
        }
        assert(last == sealed[sealed.len() - 1]);
        law_steps_open(st, front, before, frame(last) + rest, total);
        assert(framed(sealed) + rest =~= framed(front) + (frame(last) + rest));
        lemma_be_limits();
        lemma_frame_read(last, rest);
        let out = opened_body(st, rest, sealed.len(), total).0;
        assert(joined(before) + (pieces.last() + out) =~= joined(pieces) + out);
    }
}

/// A header and the frames that consecutive calls of [`encrypt_step`] give for the pieces of a
/// plaintext make up the encrypted file for the plaintext.
pub proof fn law_streamed_encryption(
    pieces: Seq<Seq<u8>>,
    passphrase: Seq<u8>,
    algo: AlgoId,
    salt: Seq<u8>,
    nonce: Seq<u8>,
    key: Seq<u8>,
)
    requires
        chunked(pieces),
        derived_key(passphrase, salt) == Ok::<Seq<u8>, ErrorView>(key),
    ensures
        ({
            let h = header_for(joined(pieces).len(), algo, salt, nonce);
            &&& h.chunk_count == pieces.len()
            &&& encrypted_file(joined(pieces), passphrase, algo, salt, nonce) == Ok::<
                Seq<u8>,
                ErrorView,
            >(h.bytes(key) + resealed(header_stream(h, key), pieces))
        }),
{
    let h = header_for(joined(pieces).len(), algo, salt, nonce);
    law_steps_seal(header_stream(h, key), pieces);
}

/// A file whose frames are all opened by consecutive calls of [`frame_head`] and [`decrypt_step`]
/// is decrypted to the pieces that they give, if there are as many as the header commits to, and
/// is truncated otherwise.
pub proof fn law_streamed_decryption(
    file: Seq<u8>,
    passphrase: Seq<u8>,
    h: HeaderView,
    key: Seq<u8>,
    sealed: Seq<Seq<u8>>,
    pieces: Seq<Seq<u8>>,
)
    requires
        file_header(file, passphrase) == Ok::<(HeaderView, Seq<u8>), ErrorView>((h, key)),
        file.skip(HEADER_LEN as int) == framed(sealed),
        sealed.len() == pieces.len(),
        forall|i: int|
            #![trigger sealed[i]]
            0 <= i < sealed.len() ==> sealed[i].len() <= MAX_CHUNK_WIRE_LEN && header_stream(
                h,
                key,
            ).unseal(i as nat, sealed[i]) == Some(pieces[i]),
    ensures
        decrypted_file(file, passphrase) == if sealed.len() == h.chunk_count {
            Ok(joined(pieces))
        } else {
            Err(ErrorView::Truncated { expected: h.chunk_count, got: sealed.len() })
        },
{
    let st = header_stream(h, key);
    law_steps_open(st, sealed, pieces, Seq::empty(), h.chunk_count);
    assert(framed(sealed) + Seq::empty() =~= framed(sealed));
    assert(joined(pieces) + Seq::empty() =~= joined(pieces));
}

/// How one read into the rest of a buffer went.
pub enum ReadEvent {
    /// So many bytes were read; none at the end of the input.
    Bytes(usize),
    /// The read was interrupted and can be repeated.
    Interrupted,
    /// The read failed; the text is the system's own description.
    Failed(String),
}

/// Fills a buffer of `capacity` bytes, `total` of which are filled: the new total, and whether
/// the buffer is full or the input at its end.
pub fn read_chunk(total: usize, capacity: usize, event: ReadEvent) -> (r: Result<
    (usize, bool),
    CryError,
>)
    requires
        total < capacity,
        event matches ReadEvent::Bytes(n) ==> n <= capacity - total,
    ensures
        match event {
            ReadEvent::Bytes(n) => r == Ok::<(usize, bool), CryError>(
                ((total + n) as usize, n == 0 || total + n == capacity),
            ),
            ReadEvent::Interrupted => r == Ok::<(usize, bool), CryError>((total, false)),
            ReadEvent::Failed(m) => r matches Err(e) && e@ == ErrorView::Io(m@),
        },
{
    match event {
        ReadEvent::Bytes(n) => Ok((total + n, n == 0 || total + n == capacity)),
        ReadEvent::Interrupted => Ok((total, false)),
        ReadEvent::Failed(m) => Err(CryError::Io(m)),
    }
}

/// Each sealed chunk is 16 bytes longer than its plaintext.
spec fn sealed_lengths(st: Stream, plain: Seq<u8>, index: nat) -> bool
    decreases plain.len(),
{
    plain.len() > 0 ==> {
        let n = chunk_len(plain);
        &&& st.seal(index, plain.take(n)).len() == n + 16
        &&& sealed_lengths(st, plain.skip(n), index + 1)
    }
}

/// Chunks that can be opened again have the lengths that sealing gives.
proof fn lemma_reopens_lengths(st: Stream, plain: Seq<u8>, index: nat)
    requires
        reopens(st, plain, index),
    ensures
        sealed_lengths(st, plain, index),
    decreases plain.len(),
{
    if plain.len() > 0 {
        lemma_reopens_lengths(st, plain.skip(chunk_len(plain)), index + 1);
    }
}

/// Where the frame of a chunk stands in the body, and what it is.
proof fn lemma_frame_at(st: Stream, plain: Seq<u8>, index: nat, i: nat)
    requires
        sealed_lengths(st, plain, index),
        i * 0x10_0000 < plain.len(),
    ensures
        ({
            let start: int = i as int * 0x10_0000;
            let end = if plain.len() < start + 0x10_0000 {
                plain.len() as int
            } else {
                start + 0x10_0000
            };
            let piece = plain.subrange(start, end);
            let at: int = i as int * 0x10_0014;
            let sealed = st.seal(index + i, piece);
            let body = sealed_body(st, plain, index);
            &&& at + 20 + piece.len() <= body.len()
            &&& sealed.len() == piece.len() + 16
            &&& body.subrange(at, at + 20 + piece.len()) == be_bytes(piece.len() + 16, 4)
                + sealed
        }),
    decreases i,
{
    let n = chunk_len(plain);
    let first = st.seal(index, plain.take(n));
    let rest = sealed_body(st, plain.skip(n), index + 1);
    let body = sealed_body(st, plain, index);
    lemma_be_bytes_len(first.len(), 4);
    if i == 0 {
        assert(plain.subrange(0, n) =~= plain.take(n));
        assert(body.subrange(0, 20 + n) =~= frame(first));
    } else {
        let j: nat = (i - 1) as nat;
        assert(n == 0x10_0000);
        lemma_frame_at(st, plain.skip(n), index + 1, j);
        let start: int = i as int * 0x10_0000;
        let end = if plain.len() < start + 0x10_0000 {
            plain.len() as int
        } else {
            start + 0x10_0000
        };
        assert(plain.skip(n).subrange(start - n, end - n) =~= plain.subrange(start, end));
        let at: int = i as int * 0x10_0014;
        let len = end - start;
        assert(body.subrange(at, at + 20 + len) =~= rest.subrange(
            at - 0x10_0014,
            at - 0x10_0014 + 20 + len,
        ));
    }
}

/// Header and frames of the file for a plaintext, byte by byte.
proof fn lemma_file_frames(h: HeaderView, key: Seq<u8>, plain: Seq<u8>)
    requires
        h.valid(),
        h.chunk_count == chunks_in(plain.len()),
        h.bytes(key).len() == 73,
        sealed_lengths(header_stream(h, key), plain, 0),
    ensures
        ({
            let f = h.bytes(key) + sealed_body(header_stream(h, key), plain, 0);
            let head = seq![
                0x43u8,
                0x52,
                0x59,
                0x02,
                match h.algo {
                    AlgoId::Aes256Gcm => 1,
                    AlgoId::ChaCha20Poly1305 => 2,
                },
            ] + h.salt + h.nonce + be_bytes((plain.len() + 0xf_ffff) as nat / 0x10_0000, 8);
            &&& f.take(41) == head
            &&& f.subrange(41, 73) == hmac_sha256_tag(
                sha256_digest(encode_utf8("cry-header-hmac-v2"@) + key),
                head,
            )
            &&& forall|i: nat|
                #![trigger be_bytes(i, 8)]
                i * 0x10_0000 < plain.len() ==> {
                    let start: int = i as int * 0x10_0000;
                    let end = if plain.len() < start + 0x10_0000 {
                        plain.len() as int
                    } else {
                        start + 0x10_0000
                    };
                    let piece = plain.subrange(start, end);
                    let at: int = 73 + i as int * 0x10_0014;
                    let nonce_i = be_bytes(
                        (be_value(h.nonce) + i) % 0x1_0000_0000_0000_0000_0000_0000,
                        12,
                    );
                    let aad = sha256_digest(head) + be_bytes(i, 8);
                    f.subrange(at, at + 20 + piece.len()) == be_bytes(piece.len() + 16, 4)
                        + match h.algo {
                        AlgoId::Aes256Gcm => aes256gcm_seal(key, nonce_i, aad, piece),
                        AlgoId::ChaCha20Poly1305 => chacha20poly1305_seal(
                            key,
                            nonce_i,
                            aad,
                            piece,
                        ),
                    }
                }
        }),
{
    let st = header_stream(h, key);
    let body = sealed_body(st, plain, 0);
    let f = h.bytes(key) + body;
    let head = seq![
        0x43u8,
        0x52,
        0x59,
        0x02,
        match h.algo {
            AlgoId::Aes256Gcm => 1,
            AlgoId::ChaCha20Poly1305 => 2,
        },
    ] + h.salt + h.nonce + be_bytes((plain.len() + 0xf_ffff) as nat / 0x10_0000, 8);
    lemma_be_bytes_len(h.chunk_count, 8);
    assert(h.pre_hmac() =~= head);
    assert(f.take(41) =~= head);
    assert(f.subrange(41, 73) =~= h.bytes(key).skip(41));
    assert(h.bytes(key).skip(41) =~= header_tag(h.pre_hmac(), key));
    lemma_be_limits();
    assert forall|i: nat|
        #![trigger be_bytes(i, 8)]
        i * 0x10_0000 < plain.len() implies ({
        let start: int = i as int * 0x10_0000;
        let end = if plain.len() < start + 0x10_0000 {
            plain.len() as int
        } else {
            start + 0x10_0000
        };
        let piece = plain.subrange(start, end);
        let at: int = 73 + i as int * 0x10_0014;
        let nonce_i = be_bytes((be_value(h.nonce) + i) % 0x1_0000_0000_0000_0000_0000_0000, 12);
        let aad = sha256_digest(head) + be_bytes(i, 8);
        f.subrange(at, at + 20 + piece.len()) == be_bytes(piece.len() + 16, 4) + match h.algo {
            AlgoId::Aes256Gcm => aes256gcm_seal(key, nonce_i, aad, piece),
            AlgoId::ChaCha20Poly1305 => chacha20poly1305_seal(key, nonce_i, aad, piece),
        }
    }) by {
        lemma_frame_at(st, plain, 0, i);
        let start: int = i as int * 0x10_0000;
        let end = if plain.len() < start + 0x10_0000 {
            plain.len() as int
        } else {
            start + 0x10_0000
        };
        let at: int = i as int * 0x10_0014;
        let len = end - start;
        assert(f.subrange(73 + at, 73 + at + 20 + len) =~= body.subrange(
            at,
            at + 20 + len,
        ));
    }
}

/// Joined pieces are the pieces flattened.
proof fn lemma_joined(pieces: Seq<Seq<u8>>)
    ensures
        joined(pieces) == pieces.flatten(),
    decreases pieces.len(),
{
    pieces.lemma_flatten_and_flatten_alt_are_equivalent();
    if pieces.len() > 0 {
        lemma_joined(pieces.drop_last());
        pieces.drop_last().lemma_flatten_and_flatten_alt_are_equivalent();
    }
}

/// A body of resealed pieces is their frames flattened.
proof fn lemma_resealed(st: Stream, pieces: Seq<Seq<u8>>, frames: Seq<Seq<u8>>)
    requires
        frames.len() == pieces.len(),
        forall|i: int|
            0 <= i < pieces.len() ==> #[trigger] frames[i] == frame(st.seal(i as nat, pieces[i])),
    ensures
        resealed(st, pieces) == frames.flatten(),
    decreases pieces.len(),
{
    frames.lemma_flatten_and_flatten_alt_are_equivalent();
    if pieces.len() > 0 {
        let front = frames.drop_last();
        assert forall|i: int| 0 <= i < front.len() implies #[trigger] front[i] == frame(
            st.seal(i as nat, pieces.drop_last()[i]),
        ) by {
            assert(front[i] == frames[i]);
        }
        lemma_resealed(st, pieces.drop_last(), front);
        front.lemma_flatten_and_flatten_alt_are_equivalent();
        assert(frames.last() == frames[frames.len() - 1]);
    }
}

/// A file that is accepted carries the tag that goes with the Argon2id hash of the whole
/// passphrase and its salt, and consists behind its header of pieces of the plaintext, as many as
/// it says, each sealed under that key, the nonce and the associated data of its place.
pub proof fn law_accepted_file(
    file: Seq<u8>,
    passphrase: Seq<u8>,
    h: HeaderView,
    key: Seq<u8>,
    plain: Seq<u8>,
)
    requires
        file_header(file, passphrase) == Ok::<(HeaderView, Seq<u8>), ErrorView>((h, key)),
        authentic(header_stream(h, key), file.skip(73), plain, h.chunk_count),
    ensures
        ({
            let key = argon2id_hash(passphrase, file.subrange(5, 21), 65536, 3, 1, 32);
            &&& passphrase.len() <= 0xffff_ffff
            &&& file.len() >= 73
            &&& file.take(4) == seq![0x43u8, 0x52, 0x59, 0x02]
            &&& file[4] == 1 || file[4] == 2
            &&& file.subrange(41, 73) == hmac_sha256_tag(
                sha256_digest(encode_utf8("cry-header-hmac-v2"@) + key),
                file.take(41),
            )
            &&& exists|pieces: Seq<Seq<u8>>|
                {
                    &&& pieces.len() == be_value(file.subrange(33, 41))
                    &&& #[trigger] pieces.flatten() == plain
                    &&& file.skip(73) == Seq::new(
                        pieces.len(),
                        |i: int|
                            {
                                let nonce = be_bytes(
                                    ((be_value(file.subrange(21, 33)) + i)
                                        % 0x1_0000_0000_0000_0000_0000_0000) as nat,
                                    12,
                                );
                                let aad = sha256_digest(file.take(41)) + be_bytes(i as nat, 8);
                                let sealed = if file[4] == 1 {
                                    aes256gcm_seal(key, nonce, aad, pieces[i])
                                } else {
                                    chacha20poly1305_seal(key, nonce, aad, pieces[i])
                                };
                                be_bytes(sealed.len(), 4) + sealed
                            },
                    ).flatten()
                }
        }),
{
    let head = file.take(73);
    let st = header_stream(h, key);
    law_header_accepted(head, key);
    law_accepted_is_written(head, key);
    assert(head.take(4) =~= file.take(4));
    assert(head.take(41) =~= file.take(41));
    assert(head.subrange(41, 73) =~= file.subrange(41, 73));
    assert(head.subrange(5, 21) =~= file.subrange(5, 21));
    assert(head.subrange(21, 33) =~= file.subrange(21, 33));
    assert(head.subrange(33, 41) =~= file.subrange(33, 41));
    lemma_be_bytes_len(h.chunk_count, 8);
    assert(h.pre_hmac() =~= file.take(41)) by {
        assert(head.take(73) =~= head);
        assert(h.bytes(key).take(41) =~= h.pre_hmac());
    }
    lemma_be_limits();
    let pieces = choose|pieces: Seq<Seq<u8>>|
        {
            &&& pieces.len() == h.chunk_count
            &&& joined(pieces) == plain
            &&& #[trigger] resealed(st, pieces) == file.skip(73)
        };
    let frames = Seq::new(
        pieces.len(),
        |i: int|
            {
                let nonce = be_bytes(
                    ((be_value(file.subrange(21, 33)) + i) % 0x1_0000_0000_0000_0000_0000_0000) as nat,
                    12,
                );
                let aad = sha256_digest(file.take(41)) + be_bytes(i as nat, 8);
                let sealed = if file[4] == 1 {
                    aes256gcm_seal(key, nonce, aad, pieces[i])
                } else {
                    chacha20poly1305_seal(key, nonce, aad, pieces[i])
                };
                be_bytes(sealed.len(), 4) + sealed
            },
    );
    assert forall|i: int| 0 <= i < pieces.len() implies #[trigger] frames[i] == frame(
        st.seal(i as nat, pieces[i]),
    ) by {}
    lemma_joined(pieces);
    lemma_resealed(st, pieces, frames);
}

/// Every sealed chunk of a plaintext has the length that the ciphers give it.
proof fn lemma_cipher_lengths(st: Stream, plain: Seq<u8>, index: nat)
    requires
        forall|k: Seq<u8>, n: Seq<u8>, a: Seq<u8>, p: Seq<u8>|
            p.len() <= 0x10_0000 ==> (#[trigger] aes256gcm_seal(k, n, a, p)).len() == p.len() + 16,
        forall|k: Seq<u8>, n: Seq<u8>, a: Seq<u8>, p: Seq<u8>|
            p.len() <= 0x10_0000 ==> (#[trigger] chacha20poly1305_seal(k, n, a, p)).len()
                == p.len() + 16,
    ensures
        sealed_lengths(st, plain, index),
    decreases plain.len(),
{
    if plain.len() > 0 {
        lemma_cipher_lengths(st, plain.skip(chunk_len(plain)), index + 1);
    }
}

/// The encrypted file for a plaintext is the header with the tag, and then for each MiB, or the
/// rest, its length and its sealed form: under the Argon2id hash of the whole passphrase and the
/// salt, the base nonce advanced by its number, and the hash of the first 41 bytes with its
/// number. The lengths that the ciphers and the tag have are premises here.
pub proof fn law_encrypted_file(
    plain: Seq<u8>,
    passphrase: Seq<u8>,
    algo: AlgoId,
    salt: Seq<u8>,
    nonce: Seq<u8>,
)
    requires
        passphrase.len() <= 0xffff_ffff,
        salt.len() == 16,
        nonce.len() == 12,
        plain.len() < 0x1_0000_0000_0000_0000,
        forall|k: Seq<u8>, d: Seq<u8>| (#[trigger] hmac_sha256_tag(k, d)).len() == 32,
        forall|k: Seq<u8>, n: Seq<u8>, a: Seq<u8>, p: Seq<u8>|
            p.len() <= 0x10_0000 ==> (#[trigger] aes256gcm_seal(k, n, a, p)).len() == p.len() + 16,
        forall|k: Seq<u8>, n: Seq<u8>, a: Seq<u8>, p: Seq<u8>|
            p.len() <= 0x10_0000 ==> (#[trigger] chacha20poly1305_seal(k, n, a, p)).len()
                == p.len() + 16,
    ensures
        encrypted_file(plain, passphrase, algo, salt, nonce) matches Ok(f) && {
            let key = argon2id_hash(passphrase, salt, 65536, 3, 1, 32);
            let head = seq![
                0x43u8,
                0x52,
                0x59,
                0x02,
                match algo {
                    AlgoId::Aes256Gcm => 1,
                    AlgoId::ChaCha20Poly1305 => 2,
                },
            ] + salt + nonce + be_bytes((plain.len() + 0xf_ffff) as nat / 0x10_0000, 8);
            &&& f.take(41) == head
            &&& f.subrange(41, 73) == hmac_sha256_tag(
                sha256_digest(encode_utf8("cry-header-hmac-v2"@) + key),
                head,
            )
            &&& forall|i: nat|
                #![trigger be_bytes(i, 8)]
                i * 0x10_0000 < plain.len() ==> {
                    let start: int = i as int * 0x10_0000;
                    let end = if plain.len() < start + 0x10_0000 {
                        plain.len() as int
                    } else {
                        start + 0x10_0000
                    };
                    let piece = plain.subrange(start, end);
                    let at: int = 73 + i as int * 0x10_0014;
                    let nonce_i = be_bytes(
                        (be_value(nonce) + i) % 0x1_0000_0000_0000_0000_0000_0000,
                        12,
                    );
                    let aad = sha256_digest(head) + be_bytes(i, 8);
                    f.subrange(at, at + 20 + piece.len()) == be_bytes(piece.len() + 16, 4)
                        + match algo {
                        AlgoId::Aes256Gcm => aes256gcm_seal(key, nonce_i, aad, piece),
                        AlgoId::ChaCha20Poly1305 => chacha20poly1305_seal(key, nonce_i, aad, piece),
                    }
                }
        },
{
    let key = argon2id_hash(passphrase, salt, 65536, 3, 1, 32);
    let h = header_for(plain.len(), algo, salt, nonce);
    lemma_be_limits();
    lemma_be_bytes_len(h.chunk_count, 8);
    lemma_cipher_lengths(header_stream(h, key), plain, 0);
    assert(h.bytes(key).len() == 73);
    lemma_file_frames(h, key, plain);
}

/// The chunks of one file are sealed as the arguments of the step functions say: under the key
/// itself, at the counter that follows from the base nonce, and with the binding and the index.
pub proof fn law_stream(
    key: [u8; 32],
    base_nonce: [u8; NONCE_LEN],
    algo: AlgoId,
    header_aad: [u8; 32],
    index: nat,
    plain: Seq<u8>,
    sealed: Seq<u8>,
)
    ensures
        ({
            let st = stream(key, base_nonce, algo, header_aad);
            let nonce = be_bytes(
                (be_value(base_nonce@) + index) % 0x1_0000_0000_0000_0000_0000_0000,
                12,
            );
            let aad = header_aad@ + be_bytes(index, 8);
            match algo {
                AlgoId::Aes256Gcm => {
                    &&& st.seal(index, plain) == aes256gcm_seal(key@, nonce, aad, plain)
                    &&& st.unseal(index, sealed) == aes256gcm_open(key@, nonce, aad, sealed)
                },
                AlgoId::ChaCha20Poly1305 => {
                    &&& st.seal(index, plain) == chacha20poly1305_seal(key@, nonce, aad, plain)
                    &&& st.unseal(index, sealed) == chacha20poly1305_open(key@, nonce, aad, sealed)
                },
            }
        }),
{
    lemma_be_limits();
}

/// The chunks of a file are sealed under the key itself, at the counter that follows from the
/// nonce in the header, and with the hash of the header's bytes before the tag and the index.
pub proof fn law_header_stream(h: Header, key: Seq<u8>, index: nat, plain: Seq<u8>, sealed: Seq<u8>)
    ensures
        ({
            let st = header_stream(h@, key);
            let nonce = be_bytes(
                (be_value(h.nonce@) + index) % 0x1_0000_0000_0000_0000_0000_0000,
                12,
            );
            let aad = sha256_digest(
                seq![
                    0x43u8,
                    0x52,
                    0x59,
                    0x02,
                    match h.algo {
                        AlgoId::Aes256Gcm => 1,
                        AlgoId::ChaCha20Poly1305 => 2,
                    },
                ] + h.salt@ + h.nonce@ + be_bytes(h.chunk_count as nat, 8),
            ) + be_bytes(index, 8);
            match h.algo {
                AlgoId::Aes256Gcm => {
                    &&& st.seal(index, plain) == aes256gcm_seal(key, nonce, aad, plain)
                    &&& st.unseal(index, sealed) == aes256gcm_open(key, nonce, aad, sealed)
                },
                AlgoId::ChaCha20Poly1305 => {
                    &&& st.seal(index, plain) == chacha20poly1305_seal(key, nonce, aad, plain)
                    &&& st.unseal(index, sealed) == chacha20poly1305_open(key, nonce, aad, sealed)
                },
            }
        }),
{
    lemma_be_limits();
    law_header_layout(h);
}

/// How a body goes on decides what is read next: nothing at its end; a chunk where its length is
/// at most 64 bytes over a MiB, all of it is there and it can be opened; and otherwise an error
/// for each of these.
pub proof fn law_body_read(st: Stream, body: Seq<u8>, index: nat, total: nat)
    ensures
        ({
            let r = opened_body(st, body, index, total);
            let n = be_value(body.take(4)) as int;
            let failed = |e: ErrorView| r == (Seq::<u8>::empty(), Err::<nat, ErrorView>(e));
            &&& body.len() == 0 ==> r == (Seq::<u8>::empty(), Ok::<nat, ErrorView>(index))
            &&& 0 < body.len() < 4 && index == total ==> failed(ErrorView::DecryptionFailed)
            &&& 0 < body.len() < 4 && index != total ==> failed(
                ErrorView::Truncated { expected: total, got: index },
            )
            &&& body.len() >= 4 && n > 0x10_0040 ==> failed(
                ErrorView::SuspiciousChunkLen { index, len: n as nat },
            )
            &&& body.len() >= 4 && n <= 0x10_0040 && body.len() < 4 + n ==> failed(
                ErrorView::Io("failed to fill whole buffer"@),
            )
            &&& body.len() >= 4 && n <= 0x10_0040 && body.len() >= 4 + n ==> match st.unseal(
                index,
                body.subrange(4, 4 + n),
            ) {
                None => failed(ErrorView::DecryptionFailed),
                Some(plain) => {
                    let rest = opened_body(st, body.skip(4 + n), index + 1, total);
                    r == (plain + rest.0, rest.1)
                },
            }
        }),
{
}

/// What is wrong with a file is its length, then the passphrase, then the header, then the body,
/// and at last the number of its chunks.
pub proof fn law_file_refused(file: Seq<u8>, passphrase: Seq<u8>)
    ensures
        ({
            let r = decrypted_file(file, passphrase);
            let key = argon2id_hash(passphrase, file.subrange(5, 21), 65536, 3, 1, 32);
            let h = read_header(file.take(73), key);
            &&& file.len() < 73 ==> r == Err::<Seq<u8>, ErrorView>(
                ErrorView::InvalidFormat("File too short to contain a valid header"@),
            )
            &&& file.len() >= 73 && passphrase.len() > 0xffff_ffff ==> r == Err::<
                Seq<u8>,
                ErrorView,
            >(ErrorView::Kdf("password is too long"@))
            &&& file.len() >= 73 && passphrase.len() <= 0xffff_ffff ==> match h {
                Err(e) => r == Err::<Seq<u8>, ErrorView>(e),
                Ok(h) => {
                    let body = opened_body(
                        header_stream(h, key),
                        file.skip(73),
                        0,
                        be_value(file.subrange(33, 41)),
                    );
                    match body.1 {
                        Err(e) => r == Err::<Seq<u8>, ErrorView>(e),
                        Ok(n) => if n == be_value(file.subrange(33, 41)) {
                            r == Ok::<Seq<u8>, ErrorView>(body.0)
                        } else {
                            r == Err::<Seq<u8>, ErrorView>(
                                ErrorView::Truncated {
                                    expected: be_value(file.subrange(33, 41)),
                                    got: n,
                                },
                            )
                        },
                    }
                },
            }
        }),
{
    let head = file.take(73);
    if file.len() >= 73 {
        assert(head.subrange(33, 41) =~= file.subrange(33, 41));
        law_header_accepted(head, argon2id_hash(passphrase, file.subrange(5, 21), 65536, 3, 1, 32));
    }
}

/// Pieces and frames are joined by writing them one after the other.
pub proof fn law_joined(pieces: Seq<Seq<u8>>, sealed: Seq<Seq<u8>>)
    ensures
        joined(pieces) == pieces.flatten(),
        framed(sealed) == sealed.map_values(|c: Seq<u8>| be_bytes(c.len(), 4) + c).flatten(),
    decreases sealed.len(),
{
    lemma_joined(pieces);
    let frames = sealed.map_values(|c: Seq<u8>| be_bytes(c.len(), 4) + c);
    frames.lemma_flatten_and_flatten_alt_are_equivalent();
    if sealed.len() > 0 {
        let front = sealed.drop_last();
        law_joined(pieces, front);
        let before = front.map_values(|c: Seq<u8>| be_bytes(c.len(), 4) + c);
        assert(frames.drop_last() =~= before);
        before.lemma_flatten_and_flatten_alt_are_equivalent();
        assert(frames.last() == be_bytes(sealed.last().len(), 4) + sealed.last());
    }
}

/// A count is viewed as the same count, and a failure as the same failure.
pub proof fn law_count_outcome(n: u64, e: CryError)
    ensures
        count_outcome(Ok(n)) == Ok::<nat, ErrorView>(n as nat),
        count_outcome(Err(e)) == Err::<nat, ErrorView>(e@),
{
}

/// A plaintext is cut into as many chunks of a MiB as it takes to hold it.
pub proof fn law_chunk_count(len: nat)
    ensures
        chunks_in(len) * 0x10_0000 >= len,
        len > 0 ==> (chunks_in(len) - 1) * 0x10_0000 < len,
        chunks_in(0) == 0,
{
}

} // verus!
