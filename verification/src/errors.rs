use vstd::prelude::*;

verus! {

/// Error kinds shared by the packer and the loader.
#[derive(Clone, Copy, PartialEq, Eq, Structural, Debug)]
pub enum ShellError {
    /// Packer configuration problem: missing bootstrap pieces, no candidates.
    ConfigError,
    /// Unreadable or malformed archive on either side.
    ArchiveError,
    /// Payload blob too small, wrong magic, inconsistent size fields, or a
    /// non-UTF-8 entry name.
    FormatError,
    /// AEAD failure: tag mismatch or unusable ciphertext.
    CryptoError,
    /// Payload or certificate digest mismatch.
    IntegrityError,
    /// A call into the host runtime failed.
    HostError,
}

impl ShellError {
    /// Short description, usable where the host expects a message string.
    pub fn message(&self) -> (r: &'static str)
        ensures
            r@.len() > 0,
    {
        let r = match self {
            ShellError::ConfigError => "configuration error",
            ShellError::ArchiveError => "archive error",
            ShellError::FormatError => "payload format error",
            ShellError::CryptoError => "decryption failure",
            ShellError::IntegrityError => "integrity check failed",
            ShellError::HostError => "host runtime call failed",
        };
        proof {
            reveal_strlit("configuration error");
            reveal_strlit("archive error");
            reveal_strlit("payload format error");
            reveal_strlit("decryption failure");
            reveal_strlit("integrity check failed");
            reveal_strlit("host runtime call failed");
        }
        r
    }
}

} // verus!
