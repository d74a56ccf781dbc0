//! Key bytes that are overwritten when they go out of use.

use vstd::prelude::*;
use zeroize::Zeroize;

verus! {

/// 32 secret bytes, overwritten with zeros when the value is dropped.
pub struct SecretKey {
    pub bytes: [u8; 32],
}

impl View for SecretKey {
    type V = Seq<u8>;

    open spec fn view(&self) -> Seq<u8> {
        self.bytes@
    }
}

/// `Zeroize::zeroize` on a byte array: every byte is zero afterwards.
#[verifier::external_body]
pub(crate) fn zeroize_bytes<const N: usize>(bytes: &mut [u8; N])
    ensures
        final(bytes)@ == Seq::new(N as nat, |i: int| 0u8),
    opens_invariants none
    no_unwind
{
    bytes.zeroize();
}

impl SecretKey {
    /// 32 zero bytes, to be filled in.
    pub fn zeroed() -> (r: SecretKey)
        ensures
            r@ == Seq::new(32, |i: int| 0u8),
    {
        let r: SecretKey = SecretKey { bytes: [0u8; 32] };
        assert(r@ =~= Seq::new(32, |i: int| 0u8));
        r
    }

    /// Overwrites the bytes with zeros.
    pub fn wipe(&mut self)
        ensures
            final(self)@ == Seq::new(32, |i: int| 0u8),
        opens_invariants none
        no_unwind
    {
        zeroize_bytes(&mut self.bytes);
    }
}

impl Drop for SecretKey {
    fn drop(&mut self)
        opens_invariants none
        no_unwind
    {
        self.wipe();
    }
}

/// A secret text, overwritten and emptied when the value is dropped.
pub struct SecretText {
    pub text: String,
}

impl View for SecretText {
    type V = Seq<char>;

    open spec fn view(&self) -> Seq<char> {
        self.text@
    }
}

/// `Zeroize::zeroize` on a string: its bytes are overwritten with zeros, and it is empty
/// afterwards.
#[verifier::external_body]
pub(crate) fn zeroize_text(text: &mut String)
    ensures
        final(text)@ == Seq::<char>::empty(),
    opens_invariants none
    no_unwind
{
    text.zeroize();
}

impl SecretText {
    /// Overwrites and empties the text.
    pub fn wipe(&mut self)
        ensures
            final(self)@ == Seq::<char>::empty(),
        opens_invariants none
        no_unwind
    {
        zeroize_text(&mut self.text);
    }
}

impl Drop for SecretText {
    fn drop(&mut self)
        opens_invariants none
        no_unwind
    {
        self.wipe();
    }
}

/// Secrets are viewed as what they hold.
pub proof fn law_secret_views(key: SecretKey, text: SecretText)
    ensures
        key@ == key.bytes@,
        text@ == text.text@,
{
}

} // verus!
