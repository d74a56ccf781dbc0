//! Keys from passphrases, by Argon2id with 64 MiB of memory, three passes and one lane.

use crate::error::{outcome, CryError, ErrorView};
use crate::primitives::{argon2_accepts, argon2_refusal, argon2id, argon2id_hash};
use crate::secret::SecretKey;
use vstd::prelude::*;

verus! {

/// Length of a derived key.
pub const KEY_LEN: usize = 32;

/// What deriving a key gives: the Argon2id hash, unless a length is out of bounds.
pub open spec fn derived_key(passphrase: Seq<u8>, salt: Seq<u8>) -> Result<Seq<u8>, ErrorView> {
    if argon2_accepts(passphrase, salt) {
        Ok(argon2id_hash(passphrase, salt, 65536, 3, 1, 32))
    } else {
        Err(ErrorView::Kdf(argon2_refusal(passphrase, salt)))
    }
}

/// Derives a 32-byte key from a passphrase and a salt.
pub fn derive_key(passphrase: &[u8], salt: &[u8]) -> (r: Result<SecretKey, CryError>)
    ensures
        outcome(r) == derived_key(passphrase@, salt@),
        r is Ok <==> passphrase@.len() <= 0xffff_ffff && 8 <= salt@.len() <= 0xffff_ffff,
        r matches Ok(key) ==> key.bytes@ == argon2id_hash(passphrase@, salt@, 65536, 3, 1, 32),
        r matches Err(e) ==> e is Kdf && e->Kdf_0@ == (if passphrase@.len() > 0xffff_ffff {
            "password is too long"@
        } else if salt@.len() < 8 {
            "salt is too short"@
        } else {
            "salt is too long"@
        }),
{
    let mut key: SecretKey = SecretKey::zeroed();
    match argon2id(passphrase, salt, 65536, 3, 1, &mut key.bytes) {
        Ok(()) => Ok(key),
        Err(e) => Err(CryError::Kdf(e)),
    }
}

/// Every passphrase of up to 2^32 - 1 bytes gives a key with a salt of 16 bytes, as files and
/// identities use it.
pub proof fn law_key_always_derived(passphrase: Seq<u8>, salt: Seq<u8>)
    requires
        passphrase.len() <= 0xffff_ffff,
        salt.len() == 16,
    ensures
        derived_key(passphrase, salt) is Ok,
{
}

/// The key is the Argon2id hash of the whole passphrase and the whole salt, at 64 MiB, three
/// passes and one lane.
pub proof fn law_key_is_argon2id(passphrase: Seq<u8>, salt: Seq<u8>)
    requires
        passphrase.len() <= 0xffff_ffff,
        8 <= salt.len() <= 0xffff_ffff,
    ensures
        derived_key(passphrase, salt) == Ok::<Seq<u8>, ErrorView>(
            argon2id_hash(passphrase, salt, 65536, 3, 1, 32),
        ),
{
}

/// Two passphrases give the same key only where Argon2id itself gives them the same hash.
pub proof fn law_keys_as_hashes(a: Seq<u8>, b: Seq<u8>, salt: Seq<u8>)
    requires
        a.len() <= 0xffff_ffff,
        b.len() <= 0xffff_ffff,
        8 <= salt.len() <= 0xffff_ffff,
    ensures
        derived_key(a, salt) == derived_key(b, salt) <==> argon2id_hash(a, salt, 65536, 3, 1, 32)
            == argon2id_hash(b, salt, 65536, 3, 1, 32),
{
}

} // verus!
