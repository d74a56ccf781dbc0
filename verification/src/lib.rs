//! Passphrase-based file encryption and deterministic Ed25519 identities.

pub mod bench;
pub mod bytes;
pub mod cipher;
pub mod crydna;
pub mod error;
pub mod header;
pub mod hex;
pub mod kdf;
pub mod keygen;
pub mod passphrase;
pub mod primitives;
pub mod secret;
pub mod ssh;
pub mod text;
