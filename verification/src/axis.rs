//! Identifiers for a whole axis (a row or a column) of the extended data
//! square, addressed by the hash of the axis root.

use vstd::prelude::*;

use crate::bytes::{
    bytes_eq, copy_bytes, get_u16_le, get_u64_le, lemma_u16_le_roundtrip, lemma_u64_le_roundtrip,
    put_u16_le, put_u64_le, u16_le_bytes, u64_le_bytes,
};
use crate::cids::CidParts;

verus! {

/// Number of bytes of an encoded [`AxisId`]: axis type, index, root hash,
/// block height.
pub const AXIS_ID_SIZE: usize = 43;

/// The code of the [`AxisId`] hashing algorithm in a multihash.
pub const AXIS_ID_MULTIHASH_CODE: u64 = 0x7811;

/// The codec of an [`AxisId`] in a content identifier.
pub const AXIS_ID_CODEC: u64 = 0x7810;

/// Errors of building or decoding an [`AxisId`].
#[derive(Debug, PartialEq, Eq, Structural)]
pub enum AxisError {
    /// The axis code is neither a row nor a column.
    InvalidAxis(i32),
    /// Block height 0 never names a block.
    ZeroBlockHeight,
    /// The axis index lies outside the data availability header.
    EdsIndexOutOfRange(usize),
    /// The CID codec is not the axis codec (found, expected).
    InvalidCidCodec(u64, u64),
    /// The multihash digest has the wrong length.
    InvalidMultihashLength(u8),
    /// The multihash code is not the axis code (found, expected).
    InvalidMultihashCode(u64, u64),
}

/// Whether an axis is a row or a column of the square.
#[derive(Copy, Clone, Debug, PartialEq, Eq, Structural)]
pub enum AxisType {
    Row,
    Col,
}

impl AxisType {
    /// The wire code of the axis type: rows are 0, columns are 1.
    pub fn code(&self) -> (r: u8)
        ensures
            r == 0 <==> self matches AxisType::Row,
            r == 1 <==> self matches AxisType::Col,
    {
        match self {
            AxisType::Row => 0,
            AxisType::Col => 1,
        }
    }

    /// Read an axis type back from its wire code.
    pub fn try_from(value: i32) -> (r: Result<AxisType, AxisError>)
        ensures
            match r {
                Ok(t) => (value == 0 && t matches AxisType::Row) || (value == 1
                    && t matches AxisType::Col),
                Err(e) => value != 0 && value != 1 && e == AxisError::InvalidAxis(value),
            },
    {
        if value == 0 {
            Ok(AxisType::Row)
        } else if value == 1 {
            Ok(AxisType::Col)
        } else {
            Err(AxisError::InvalidAxis(value))
        }
    }
}

/// The root hashes a block header commits to, one per row and one per
/// column of the extended data square.
pub struct DataAvailabilityHeader {
    pub row_roots: Vec<Vec<u8>>,
    pub column_roots: Vec<Vec<u8>>,
}

impl DataAvailabilityHeader {
    /// The root of the row at `index`, if it exists.
    pub fn row_root(&self, index: usize) -> (r: Option<&Vec<u8>>)
        ensures
            match r {
                Some(root) => index < self.row_roots@.len() && root@ == self.row_roots@[
                    index as int]@,
                None => index >= self.row_roots@.len(),
            },
    {
        if index < self.row_roots.len() {
            Some(&self.row_roots[index])
        } else {
            None
        }
    }

    /// The root of the column at `index`, if it exists.
    pub fn column_root(&self, index: usize) -> (r: Option<&Vec<u8>>)
        ensures
            match r {
                Some(root) => index < self.column_roots@.len() && root@ == self.column_roots@[
                    index as int]@,
                None => index >= self.column_roots@.len(),
            },
    {
        if index < self.column_roots.len() {
            Some(&self.column_roots[index])
        } else {
            None
        }
    }
}

/// The SHA-256 digest of a byte string, named; what it is on given bytes
/// only the hash function itself says.
pub uninterp spec fn sha256_of(data: Seq<u8>) -> Seq<u8>;

/// Relies on sha2's SHA-256: the digest is a function of the input bytes
/// alone and is 32 bytes long.
#[verifier::external_body]
fn sha256(data: &Vec<u8>) -> (r: Vec<u8>)
    ensures
        r@ == sha256_of(data@),
        r@.len() == 32,
{
    <sha2::Sha256 as sha2::Digest>::digest(data.as_slice()).to_vec()
}

/// Identifies one axis of the square of a block: the axis, its index, the
/// SHA-256 hash of its root, and the block height.
#[derive(Debug)]
pub struct AxisId {
    pub axis_type: AxisType,
    pub index: u16,
    pub hash: Vec<u8>,
    pub block_height: u64,
}

impl PartialEq for AxisId {
    fn eq(&self, other: &AxisId) -> (r: bool) {
        self.axis_type == other.axis_type && self.index == other.index && bytes_eq(
            &self.hash,
            &other.hash,
        ) && self.block_height == other.block_height
    }
}

impl vstd::std_specs::cmp::PartialEqSpecImpl for AxisId {
    open spec fn obeys_eq_spec() -> bool {
        true
    }

    open spec fn eq_spec(&self, other: &AxisId) -> bool {
        self.axis_type == other.axis_type && self.index == other.index && self.hash@ == other.hash@
            && self.block_height == other.block_height
    }
}

/// The byte layout of an [`AxisId`]: the axis code, then the index and the
/// block height little-endian, with the root hash in between.
pub open spec fn axis_id_bytes(t: AxisType, index: u16, hash: Seq<u8>, height: u64) -> Seq<u8> {
    seq![if (t matches AxisType::Row) { 0u8 } else { 1u8 }] + u16_le_bytes(index) + hash
        + u64_le_bytes(height)
}

impl AxisId {
    /// Well-formed identifiers carry a 32-byte hash and a positive height.
    pub open spec fn wf(self) -> bool {
        self.hash@.len() == 32 && self.block_height >= 1
    }

    /// Identify an axis of the given block by hashing its root out of the
    /// data availability header.
    pub fn new(
        axis_type: AxisType,
        index: usize,
        dah: &DataAvailabilityHeader,
        block_height: u64,
    ) -> (r: Result<AxisId, AxisError>)
        ensures
            match r {
                Ok(id) => {
                    &&& block_height >= 1
                    &&& index <= u16::MAX
                    &&& id.axis_type == axis_type
                    &&& id.index == index
                    &&& id.block_height == block_height
                    &&& match axis_type {
                        AxisType::Row => index < dah.row_roots@.len() && id.hash@ == sha256_of(
                            dah.row_roots@[index as int]@,
                        ),
                        AxisType::Col => index < dah.column_roots@.len() && id.hash@ == sha256_of(
                            dah.column_roots@[index as int]@,
                        ),
                    }
                    &&& id.wf()
                },
                Err(e) => match e {
                    AxisError::ZeroBlockHeight => block_height == 0,
                    AxisError::EdsIndexOutOfRange(i) => i == index && block_height >= 1 && (
                    match axis_type {
                        AxisType::Row => index >= dah.row_roots@.len(),
                        AxisType::Col => index >= dah.column_roots@.len(),
                    } || index > u16::MAX),
                    _ => false,
                },
            },
    {
        if block_height == 0 {
            return Err(AxisError::ZeroBlockHeight);
        }
        let root = match axis_type {
            AxisType::Row => dah.row_root(index),
            AxisType::Col => dah.column_root(index),
        };
        let root = match root {
            Some(root) => root,
            None => {
                return Err(AxisError::EdsIndexOutOfRange(index));
            },
        };
        if index > 65535 {
            return Err(AxisError::EdsIndexOutOfRange(index));
        }
        let hash = sha256(root);
        Ok(AxisId { axis_type, index: index as u16, hash, block_height })
    }

    /// The length in bytes of an encoded identifier.
    pub fn size() -> (r: usize)
        ensures
            r == AXIS_ID_SIZE,
    {
        // size of: u8 + u16 + [u8; 32] + u64
        43
    }

    /// Encode the identifier in its byte layout.
    pub fn to_bytes(&self) -> (r: Vec<u8>)
        requires
            self.wf(),
        ensures
            r@ == axis_id_bytes(self.axis_type, self.index, self.hash@, self.block_height),
            r@.len() == AXIS_ID_SIZE,
    {
        let mut out: Vec<u8> = Vec::new();
        out.push(self.axis_type.code());
        put_u16_le(&mut out, self.index);
        let mut i: usize = 0;
        while i < self.hash.len()
            invariant
                i <= self.hash@.len(),
                out@ == seq![
                    if (self.axis_type matches AxisType::Row) {
                        0u8
                    } else {
                        1u8
                    },
                ] + u16_le_bytes(self.index) + self.hash@.subrange(0, i as int),
            decreases self.hash@.len() - i,
        {
            out.push(self.hash[i]);
            i = i + 1;
            assert(out@ =~= seq![
                if (self.axis_type matches AxisType::Row) {
                    0u8
                } else {
                    1u8
                },
            ] + u16_le_bytes(self.index) + self.hash@.subrange(0, i as int));
        }
        put_u64_le(&mut out, self.block_height);
        assert(out@ =~= axis_id_bytes(self.axis_type, self.index, self.hash@, self.block_height));
        out
    }

    /// Decode an identifier from its byte layout.
    pub fn from_bytes(buffer: &[u8]) -> (r: Result<AxisId, AxisError>)
        requires
            buffer@.len() == AXIS_ID_SIZE,
        ensures
            match r {
                Ok(id) => {
                    &&& id.wf()
                    &&& buffer@ == axis_id_bytes(id.axis_type, id.index, id.hash@, id.block_height)
                },
                Err(e) => match e {
                    AxisError::InvalidAxis(v) => v == buffer@[0] && buffer@[0] != 0 && buffer@[0]
                        != 1,
                    AxisError::ZeroBlockHeight => crate::bytes::u64_from_le(
                        buffer@.subrange(35, 43),
                    ) == 0,
                    _ => false,
                },
            },
    {
        let axis_type = match AxisType::try_from(buffer[0] as i32) {
            Ok(t) => t,
            Err(e) => {
                return Err(e);
            },
        };
        let index = get_u16_le(buffer, 1);
        let mut hash: Vec<u8> = Vec::new();
        let mut i: usize = 3;
        while i < 35
            invariant
                3 <= i <= 35,
                buffer@.len() == AXIS_ID_SIZE,
                hash@ == buffer@.subrange(3, i as int),
            decreases 35 - i,
        {
            hash.push(buffer[i]);
            i = i + 1;
            assert(hash@ =~= buffer@.subrange(3, i as int));
        }
        let block_height = get_u64_le(buffer, 35);
        if block_height == 0 {
            return Err(AxisError::ZeroBlockHeight);
        }
        let id = AxisId { axis_type, index, hash, block_height };
        proof {
            lemma_u16_le_roundtrip(index);
            lemma_u64_le_roundtrip(block_height);
            crate::bytes::lemma_u16_le_inverse(buffer@.subrange(1, 3));
            crate::bytes::lemma_u64_le_inverse(buffer@.subrange(35, 43));
            assert(axis_id_bytes(id.axis_type, id.index, id.hash@, id.block_height) =~= buffer@);
        }
        Ok(id)
    }

    /// The content-identifier parts of this identifier.
    pub fn to_cid(&self) -> (r: CidParts)
        requires
            self.wf(),
        ensures
            r.codec == AXIS_ID_CODEC,
            r.mh_code == AXIS_ID_MULTIHASH_CODE,
            r.digest@ == axis_id_bytes(self.axis_type, self.index, self.hash@, self.block_height),
    {
        CidParts { codec: AXIS_ID_CODEC, mh_code: AXIS_ID_MULTIHASH_CODE, digest: self.to_bytes() }
    }

    /// Read an identifier back out of content-identifier parts.
    pub fn from_cid(cid: &CidParts) -> (r: Result<AxisId, AxisError>)
        ensures
            match r {
                Ok(id) => {
                    &&& cid.codec == AXIS_ID_CODEC
                    &&& cid.mh_code == AXIS_ID_MULTIHASH_CODE
                    &&& cid.digest@.len() == AXIS_ID_SIZE
                    &&& id.wf()
                    &&& cid.digest@ == axis_id_bytes(
                        id.axis_type,
                        id.index,
                        id.hash@,
                        id.block_height,
                    )
                },
                Err(e) => match e {
                    AxisError::InvalidCidCodec(c, x) => c == cid.codec && c != AXIS_ID_CODEC && x
                        == AXIS_ID_CODEC,
                    AxisError::InvalidMultihashLength(l) => cid.codec == AXIS_ID_CODEC && l
                        == cid.digest@.len() as u8 && cid.digest@.len() != AXIS_ID_SIZE,
                    AxisError::InvalidMultihashCode(c, x) => cid.codec == AXIS_ID_CODEC
                        && cid.digest@.len() == AXIS_ID_SIZE && c == cid.mh_code && c
                        != AXIS_ID_MULTIHASH_CODE && x == AXIS_ID_MULTIHASH_CODE,
                    AxisError::InvalidAxis(v) => cid.codec == AXIS_ID_CODEC && cid.digest@.len()
                        == AXIS_ID_SIZE && cid.mh_code == AXIS_ID_MULTIHASH_CODE && v
                        == cid.digest@[0] && cid.digest@[0] != 0 && cid.digest@[0] != 1,
                    AxisError::ZeroBlockHeight => cid.codec == AXIS_ID_CODEC && cid.digest@.len()
                        == AXIS_ID_SIZE && cid.mh_code == AXIS_ID_MULTIHASH_CODE
                        && crate::bytes::u64_from_le(cid.digest@.subrange(35, 43)) == 0,
                    _ => false,
                },
            },
    {
        if cid.codec != AXIS_ID_CODEC {
            return Err(AxisError::InvalidCidCodec(cid.codec, AXIS_ID_CODEC));
        }
        if cid.digest.len() != AXIS_ID_SIZE {
            return Err(AxisError::InvalidMultihashLength(cid.digest.len() as u8));
        }
        if cid.mh_code != AXIS_ID_MULTIHASH_CODE {
            return Err(AxisError::InvalidMultihashCode(cid.mh_code, AXIS_ID_MULTIHASH_CODE));
        }
        AxisId::from_bytes(cid.digest.as_slice())
    }

    /// An owned copy of this identifier.
    pub fn dup(&self) -> (r: AxisId)
        ensures
            r.axis_type == self.axis_type,
            r.index == self.index,
            r.hash@ == self.hash@,
            r.block_height == self.block_height,
    {
        AxisId {
            axis_type: self.axis_type,
            index: self.index,
            hash: copy_bytes(&self.hash),
            block_height: self.block_height,
        }
    }
}

} // verus!
