//! The errors of this library and the messages that a user sees for them.

use crate::text::{decimal_text, push_decimal};
use vstd::prelude::*;

verus! {

/// Everything that can go wrong.
#[derive(Debug)]
pub enum CryError {
    /// A read or write failed; the text is the system's own description.
    Io(String),
    /// The cipher refused to seal a chunk.
    EncryptionFailed,
    /// A chunk did not authenticate.
    DecryptionFailed,
    /// The header did not authenticate.
    HeaderTampered,
    /// The number of chunks differs from the one that the header commits to.
    Truncated { expected: u64, got: u64 },
    /// The input does not have the expected form.
    InvalidFormat(String),
    /// The key derivation function refused its input.
    Kdf(String),
    /// The output exists and may not be overwritten.
    FileExists(String),
    /// The passphrase is empty.
    EmptyPassphrase,
    /// The passphrase and its confirmation differ.
    PassphraseMismatch,
    /// A chunk claims to be longer than any chunk can be.
    SuspiciousChunkLen { index: u64, len: usize },
    /// A signature does not belong to the content.
    VerificationFailed(String),
}

/// The mathematical counterpart of [`CryError`].
pub ghost enum ErrorView {
    Io(Seq<char>),
    EncryptionFailed,
    DecryptionFailed,
    HeaderTampered,
    Truncated { expected: nat, got: nat },
    InvalidFormat(Seq<char>),
    Kdf(Seq<char>),
    FileExists(Seq<char>),
    EmptyPassphrase,
    PassphraseMismatch,
    SuspiciousChunkLen { index: nat, len: nat },
    VerificationFailed(Seq<char>),
}

impl View for CryError {
    type V = ErrorView;

    open spec fn view(&self) -> ErrorView {
        match self {
            CryError::Io(m) => ErrorView::Io(m@),
            CryError::EncryptionFailed => ErrorView::EncryptionFailed,
            CryError::DecryptionFailed => ErrorView::DecryptionFailed,
            CryError::HeaderTampered => ErrorView::HeaderTampered,
            CryError::Truncated { expected, got } => ErrorView::Truncated {
                expected: *expected as nat,
                got: *got as nat,
            },
            CryError::InvalidFormat(m) => ErrorView::InvalidFormat(m@),
            CryError::Kdf(m) => ErrorView::Kdf(m@),
            CryError::FileExists(m) => ErrorView::FileExists(m@),
            CryError::EmptyPassphrase => ErrorView::EmptyPassphrase,
            CryError::PassphraseMismatch => ErrorView::PassphraseMismatch,
            CryError::SuspiciousChunkLen { index, len } => ErrorView::SuspiciousChunkLen {
                index: *index as nat,
                len: *len as nat,
            },
            CryError::VerificationFailed(m) => ErrorView::VerificationFailed(m@),
        }
    }
}

/// The view of a result, by the views of its value and its error.
pub open spec fn outcome<T: View>(r: Result<T, CryError>) -> Result<T::V, ErrorView> {
    match r {
        Ok(v) => Ok(v@),
        Err(e) => Err(e@),
    }
}

impl ErrorView {
    /// The message shown to the user.
    pub open spec fn message(self) -> Seq<char> {
        match self {
            ErrorView::Io(m) => "I/O error: "@ + m,
            ErrorView::EncryptionFailed => "Encryption failed (AEAD error)"@,
            ErrorView::DecryptionFailed =>
                "Decryption failed — wrong passphrase, corrupted file, or tampered ciphertext"@,
            ErrorView::HeaderTampered =>
                "Header authentication failed — file may have been tampered with"@,
            ErrorView::Truncated { expected, got } => "File is truncated — expected "@
                + decimal_text(expected) + " chunks, got "@ + decimal_text(got),
            ErrorView::InvalidFormat(m) => "Invalid file format: "@ + m,
            ErrorView::Kdf(m) => "Key derivation failed: "@ + m,
            ErrorView::FileExists(m) => "Output file '"@ + m
                + "' already exists — use --force to overwrite"@,
            ErrorView::EmptyPassphrase => "Passphrase must not be empty"@,
            ErrorView::PassphraseMismatch => "Passphrases do not match"@,
            ErrorView::SuspiciousChunkLen { index, len } => "Chunk "@ + decimal_text(index)
                + " length "@ + decimal_text(len)
                + " is suspiciously large — file may be corrupted"@,
            ErrorView::VerificationFailed(m) => "Verification failed: "@ + m,
        }
    }
}

impl CryError {
    /// The message shown to the user.
    pub fn message(&self) -> (r: String)
        ensures
            r@ == self@.message(),
            match self {
                CryError::Io(m) => r@ == "I/O error: "@ + m@,
                CryError::EncryptionFailed => r@ == "Encryption failed (AEAD error)"@,
                CryError::DecryptionFailed => r@
                    == "Decryption failed — wrong passphrase, corrupted file, or tampered ciphertext"@,
                CryError::HeaderTampered => r@
                    == "Header authentication failed — file may have been tampered with"@,
                CryError::Truncated { expected, got } => r@ == "File is truncated — expected "@
                    + decimal_text(*expected as nat) + " chunks, got "@ + decimal_text(*got as nat),
                CryError::InvalidFormat(m) => r@ == "Invalid file format: "@ + m@,
                CryError::Kdf(m) => r@ == "Key derivation failed: "@ + m@,
                CryError::FileExists(m) => r@ == "Output file '"@ + m@
                    + "' already exists — use --force to overwrite"@,
                CryError::EmptyPassphrase => r@ == "Passphrase must not be empty"@,
                CryError::PassphraseMismatch => r@ == "Passphrases do not match"@,
                CryError::SuspiciousChunkLen { index, len } => r@ == "Chunk "@ + decimal_text(
                    *index as nat,
                ) + " length "@ + decimal_text(*len as nat)
                    + " is suspiciously large — file may be corrupted"@,
                CryError::VerificationFailed(m) => r@ == "Verification failed: "@ + m@,
            },
    {
        match self {
            CryError::Io(m) => "I/O error: ".to_owned().concat(m.as_str()),
            CryError::EncryptionFailed => "Encryption failed (AEAD error)".to_owned(),
            CryError::DecryptionFailed =>
                "Decryption failed — wrong passphrase, corrupted file, or tampered ciphertext".to_owned(),
            CryError::HeaderTampered =>
                "Header authentication failed — file may have been tampered with".to_owned(),
            CryError::Truncated { expected, got } => {
                let mut r: String = "File is truncated — expected ".to_owned();
                push_decimal(&mut r, *expected);
                r.append(" chunks, got ");
                push_decimal(&mut r, *got);
                r
            },
            CryError::InvalidFormat(m) => "Invalid file format: ".to_owned().concat(m.as_str()),
            CryError::Kdf(m) => "Key derivation failed: ".to_owned().concat(m.as_str()),
            CryError::FileExists(m) => "Output file '".to_owned().concat(m.as_str()).concat(
                "' already exists — use --force to overwrite",
            ),
            CryError::EmptyPassphrase => "Passphrase must not be empty".to_owned(),
            CryError::PassphraseMismatch => "Passphrases do not match".to_owned(),
            CryError::SuspiciousChunkLen { index, len } => {
                let mut r: String = "Chunk ".to_owned();
                push_decimal(&mut r, *index);
                r.append(" length ");
                push_decimal(&mut r, *len as u64);
                r.append(" is suspiciously large — file may be corrupted");
                r
            },
            CryError::VerificationFailed(m) => "Verification failed: ".to_owned().concat(
                m.as_str(),
            ),
        }
    }
}

/// An error is viewed as the error of the same kind, with its texts and numbers unchanged, and a
/// result by its value or its error.
pub proof fn law_views<T: View>(value: T, e: CryError)
    ensures
        outcome(Ok::<T, CryError>(value)) == Ok::<T::V, ErrorView>(value@),
        outcome(Err::<T, CryError>(e)) == Err::<T::V, ErrorView>(e@),
        match e {
            CryError::Io(m) => e@ == ErrorView::Io(m@),
            CryError::EncryptionFailed => e@ == ErrorView::EncryptionFailed,
            CryError::DecryptionFailed => e@ == ErrorView::DecryptionFailed,
            CryError::HeaderTampered => e@ == ErrorView::HeaderTampered,
            CryError::Truncated { expected, got } => e@ == (ErrorView::Truncated {
                expected: expected as nat,
                got: got as nat,
            }),
            CryError::InvalidFormat(m) => e@ == ErrorView::InvalidFormat(m@),
            CryError::Kdf(m) => e@ == ErrorView::Kdf(m@),
            CryError::FileExists(m) => e@ == ErrorView::FileExists(m@),
            CryError::EmptyPassphrase => e@ == ErrorView::EmptyPassphrase,
            CryError::PassphraseMismatch => e@ == ErrorView::PassphraseMismatch,
            CryError::SuspiciousChunkLen { index, len } => e@ == (ErrorView::SuspiciousChunkLen {
                index: index as nat,
                len: len as nat,
            }),
            CryError::VerificationFailed(m) => e@ == ErrorView::VerificationFailed(m@),
        },
{
}

} // verus!
