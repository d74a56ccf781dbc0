//! Random key files and their fingerprints.

use crate::bytes::array_at;
use crate::cipher::{check_overwrite, may_write};
use crate::error::{outcome, CryError, ErrorView};
use crate::hex::{bytes_to_hex, hex_text, law_hex_characters};
use crate::primitives::{os_random, sha256, sha256_digest};
use crate::secret::SecretKey;
use vstd::prelude::*;

verus! {

/// Length of a generated key.
pub const KEY_SIZE: usize = 32;

/// The first eight bytes of a hash in hexadecimal, in two groups.
pub open spec fn short_fingerprint(hash: Seq<u8>) -> Seq<char> {
    hex_text(hash.subrange(0, 4)) + ":"@ + hex_text(hash.subrange(4, 8))
}

/// The first eight bytes of a hash in hexadecimal, in two groups.
pub fn format_key_fingerprint(hash: &[u8; 32]) -> (r: String)
    ensures
        r@ == short_fingerprint(hash@),
        r@.len() == 17,
{
    let first: [u8; 4] = array_at(hash, 0);
    let second: [u8; 4] = array_at(hash, 4);
    proof {
        reveal_strlit(":");
    }
    bytes_to_hex(&first).concat(":").concat(bytes_to_hex(&second).as_str())
}

/// A short fingerprint of a key, such as `a3f1e209:bb047c11`.
pub fn key_fingerprint(key: &[u8]) -> (r: String)
    ensures
        r@ == short_fingerprint(sha256_digest(key@)),
        r@ == hex_text(sha256_digest(key@).subrange(0, 4)) + ":"@ + hex_text(
            sha256_digest(key@).subrange(4, 8),
        ),
        r@.len() == 17,
{
    let hash: [u8; 32] = sha256(key);
    format_key_fingerprint(&hash)
}

/// Generates a random key for the output shown as `output_path`. Refuses where the output
/// exists, unless `force` is set. The error is `Io` where the operating system gives no random
/// bytes.
pub fn generate_key(present: bool, output_path: &str, force: bool) -> (r: Result<
    SecretKey,
    CryError,
>)
    ensures
        r is Ok ==> may_write(present, force),
        r matches Err(e) ==> if may_write(present, force) {
            e@ is Io
        } else {
            e@ == ErrorView::FileExists(output_path@)
        },
{
    match check_overwrite(present, output_path, force) {
        Ok(()) => {
        },
        Err(e) => {
            return Err(e);
        },
    }
    let mut key: SecretKey = SecretKey::zeroed();
    let draw: Result<(), String> = os_random(&mut key.bytes);
    drawn_key(draw, key)
}

/// The key that a draw filled in, or the failure of the draw, with the system's own description.
pub fn drawn_key(draw: Result<(), String>, key: SecretKey) -> (r: Result<SecretKey, CryError>)
    ensures
        outcome(r) == match draw {
            Ok(_) => Ok(key@),
            Err(e) => Err(ErrorView::Io(e@)),
        },
{
    match draw {
        Ok(()) => Ok(key),
        Err(e) => Err(CryError::Io(e)),
    }
}

/// The fingerprint shows the first four bytes of the SHA-256 hash of the whole key, a colon and the
/// next four, each byte in two lower-case digits.
pub proof fn law_fingerprint_characters(hash: Seq<u8>, i: int)
    requires
        hash.len() == 32,
        0 <= i < 4,
    ensures
        short_fingerprint(hash).len() == 17,
        short_fingerprint(hash)[2 * i] == "0123456789abcdef"@[hash[i] as int / 16],
        short_fingerprint(hash)[2 * i + 1] == "0123456789abcdef"@[hash[i] as int % 16],
        short_fingerprint(hash)[8] == ':',
        short_fingerprint(hash)[9 + 2 * i] == "0123456789abcdef"@[hash[4 + i] as int / 16],
        short_fingerprint(hash)[10 + 2 * i] == "0123456789abcdef"@[hash[4 + i] as int % 16],
{
    reveal_strlit(":");
    law_hex_characters(hash.subrange(0, 4), i);
    law_hex_characters(hash.subrange(4, 8), i);
}

} // verus!
