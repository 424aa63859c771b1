use vstd::prelude::*;

verus! {

/// Failures of the key provider against the OS credential store.
#[derive(Clone, Copy, Debug, PartialEq, Eq, Structural)]
pub enum KeyError {
    /// The platform credential backend could not be reached.
    StoreUnavailable,
    /// No key is stored under the fixed service/account identifier.
    NotFound,
    /// The stored entry does not decode to exactly 32 key bytes.
    Corrupt,
}

/// Failures of the authenticated encryption codec.
#[derive(Clone, Copy, Debug, PartialEq, Eq, Structural)]
pub enum CodecError {
    /// The transport text is not a well-formed blob: it is not canonical
    /// unpadded url-safe base64, or it decodes to fewer bytes than a nonce,
    /// or the plaintext is too large for the cipher.
    Malformed,
    /// The authentication tag does not verify: wrong key, corruption or
    /// tampering.  No partial plaintext is ever returned.
    AuthenticationFailed,
}

/// Failures of the configuration store as one error surface.
#[derive(Clone, Copy, Debug, PartialEq, Eq, Structural)]
pub enum StoreError {
    /// A non-directory entry occupies the application directory path.
    PathConflict,
    /// There is no configuration blob on disk.
    NotFound,
    /// The blob does not decrypt and deserialize to a configuration record.
    Corrupt,
    /// The credential store or the filesystem could not be used.
    IoFailure,
}

} // verus!
