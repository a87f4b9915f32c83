//! Content identifiers as the shwap types consume them: the codec, the
//! multihash code and the digest bytes of a CIDv1, held as plain values,
//! and the errors of converting identifiers from them.

use vstd::prelude::*;

verus! {

/// Errors of reading a shwap identifier out of a content identifier.
#[derive(Debug)]
pub enum CidError {
    /// The multihash digest has the wrong length.
    InvalidMultihashLength(usize),
    /// The multihash code is not the expected one (found, expected).
    InvalidMultihashCode(u64, u64),
    /// The CID codec is not the expected one.
    InvalidCidCodec(u64),
    /// The digest bytes are malformed.
    InvalidCid(String),
}

impl PartialEq for CidError {
    fn eq(&self, other: &CidError) -> (r: bool) {
        match (self, other) {
            (CidError::InvalidMultihashLength(a), CidError::InvalidMultihashLength(b)) => *a
                == *b,
            (
                CidError::InvalidMultihashCode(a1, a2),
                CidError::InvalidMultihashCode(b1, b2),
            ) => *a1 == *b1 && *a2 == *b2,
            (CidError::InvalidCidCodec(a), CidError::InvalidCidCodec(b)) => *a == *b,
            (CidError::InvalidCid(a), CidError::InvalidCid(b)) => *a == *b,
            _ => false,
        }
    }
}

impl vstd::std_specs::cmp::PartialEqSpecImpl for CidError {
    open spec fn obeys_eq_spec() -> bool {
        true
    }

    open spec fn eq_spec(&self, other: &CidError) -> bool {
        match (self, other) {
            (CidError::InvalidMultihashLength(a), CidError::InvalidMultihashLength(b)) => a == b,
            (
                CidError::InvalidMultihashCode(a1, a2),
                CidError::InvalidMultihashCode(b1, b2),
            ) => a1 == b1 && a2 == b2,
            (CidError::InvalidCidCodec(a), CidError::InvalidCidCodec(b)) => a == b,
            (CidError::InvalidCid(a), CidError::InvalidCid(b)) => a@ == b@,
            _ => false,
        }
    }
}

/// The parts of a CIDv1 that the shwap identifiers are carried in: the
/// codec, and the multihash's code and digest.
pub struct CidParts {
    pub codec: u64,
    pub mh_code: u64,
    pub digest: Vec<u8>,
}

} // verus!
