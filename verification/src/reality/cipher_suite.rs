//! The TLS 1.3 cipher suites this client can negotiate.
use vstd::prelude::*;

verus! {

/// An implemented TLS 1.3 cipher suite.
#[derive(Clone, Copy, Debug, PartialEq, Eq, Structural)]
pub enum CipherSuite {
    Aes128GcmSha256,
    Aes256GcmSha384,
    ChaCha20Poly1305Sha256,
}

impl CipherSuite {
    pub open spec fn spec_id(self) -> u16 {
        match self {
            CipherSuite::Aes128GcmSha256 => 0x1301,
            CipherSuite::Aes256GcmSha384 => 0x1302,
            CipherSuite::ChaCha20Poly1305Sha256 => 0x1303,
        }
    }

    pub open spec fn spec_from_id(id: u16) -> Option<CipherSuite> {
        if id == 0x1301 {
            Some(CipherSuite::Aes128GcmSha256)
        } else if id == 0x1302 {
            Some(CipherSuite::Aes256GcmSha384)
        } else if id == 0x1303 {
            Some(CipherSuite::ChaCha20Poly1305Sha256)
        } else {
            None
        }
    }

    pub open spec fn spec_key_len(self) -> nat {
        match self {
            CipherSuite::Aes128GcmSha256 => 16,
            CipherSuite::Aes256GcmSha384 => 32,
            CipherSuite::ChaCha20Poly1305Sha256 => 32,
        }
    }

    pub open spec fn spec_hash_len(self) -> nat {
        match self {
            CipherSuite::Aes128GcmSha256 => 32,
            CipherSuite::Aes256GcmSha384 => 48,
            CipherSuite::ChaCha20Poly1305Sha256 => 32,
        }
    }

    /// The suite with this IANA code point, if it is implemented.
    pub fn from_id(id: u16) -> (suite: Option<CipherSuite>)
        ensures
            suite == Self::spec_from_id(id),
    {
        match id {
            0x1301 => Some(CipherSuite::Aes128GcmSha256),
            0x1302 => Some(CipherSuite::Aes256GcmSha384),
            0x1303 => Some(CipherSuite::ChaCha20Poly1305Sha256),
            _ => None,
        }
    }

    /// The IANA code point.
    pub fn id(self) -> (id: u16)
        ensures
            id == self.spec_id(),
    {
        match self {
            CipherSuite::Aes128GcmSha256 => 0x1301,
            CipherSuite::Aes256GcmSha384 => 0x1302,
            CipherSuite::ChaCha20Poly1305Sha256 => 0x1303,
        }
    }

    /// The length of the suite's traffic keys.
    pub fn key_len(self) -> (length: usize)
        ensures
            length == self.spec_key_len(),
    {
        match self {
            CipherSuite::Aes128GcmSha256 => 16,
            CipherSuite::Aes256GcmSha384 => 32,
            CipherSuite::ChaCha20Poly1305Sha256 => 32,
        }
    }

    /// The length of the suite's transcript hash.
    pub fn hash_len(self) -> (length: usize)
        ensures
            length == self.spec_hash_len(),
    {
        match self {
            CipherSuite::Aes128GcmSha256 => 32,
            CipherSuite::Aes256GcmSha384 => 48,
            CipherSuite::ChaCha20Poly1305Sha256 => 32,
        }
    }
}

/// A code point names at most one suite, and every suite is found by its own.
pub proof fn suite_ids_are_inverse(suite: CipherSuite, id: u16)
    ensures
        CipherSuite::spec_from_id(suite.spec_id()) == Some(suite),
        CipherSuite::spec_from_id(id) matches Some(found) ==> found.spec_id() == id,
{
}

} // verus!
