use vstd::prelude::*;

verus! {

/// The ways in which a vault operation can fail.
#[derive(Debug, Clone, Copy, PartialEq, Eq, Structural)]
pub enum VaultError {
    /// The cipher refused to seal the payload (it is longer than the cipher allows).
    Encryption,
    /// The stored text is not hex, or decodes to fewer bytes than a nonce.
    MalformedBlob,
    /// The tag did not verify: wrong password, or a corrupted or altered file.
    Authentication,
    /// The decrypted payload does not have the expected form.
    CorruptStore,
    /// Two entries of a new password differ.
    PasswordMismatch,
}

} // verus!
