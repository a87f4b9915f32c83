//! Identifiers for single shares sampled out of the extended data square.

use vstd::prelude::*;

use crate::cids::{CidError, CidParts};
use crate::row::{row_id_bytes, RowId, ROW_ID_SIZE};
use crate::bytes::{get_u16_be, lemma_u16_be_inverse, put_u16_be, u16_be_bytes};
use crate::rsmt2d::ShwapError;

verus! {

/// Number of bytes of an encoded [`SampleId`]: a row identifier and the
/// column index.
pub const SAMPLE_ID_SIZE: usize = 12;

/// The code of the [`SampleId`] hashing algorithm in a multihash.
pub const SAMPLE_ID_MULTIHASH_CODE: u64 = 0x7811;

/// The codec of a [`SampleId`] in a content identifier.
pub const SAMPLE_ID_CODEC: u64 = 0x7810;

/// Identifies a single share of the square of a block, by row and column.
#[derive(Debug, PartialEq, Eq, Structural, Clone, Copy)]
pub struct SampleId {
    row_id: RowId,
    column_index: u16,
}

/// The byte layout of a [`SampleId`]: the row identifier, then the column
/// index big-endian.
pub open spec fn sample_id_bytes(height: u64, row: u16, column: u16) -> Seq<u8> {
    row_id_bytes(height, row) + u16_be_bytes(column)
}

impl SampleId {
    pub closed spec fn spec_height(self) -> u64 {
        self.row_id.spec_height()
    }

    pub closed spec fn spec_row(self) -> u16 {
        self.row_id.spec_index()
    }

    pub closed spec fn spec_column(self) -> u16 {
        self.column_index
    }

    /// Create an identifier for the share at the given row and column of
    /// the block at a positive height.
    pub fn new(row_index: u16, column_index: u16, block_height: u64) -> (r: Result<
        SampleId,
        ShwapError,
    >)
        ensures
            match r {
                Ok(id) => {
                    &&& block_height >= 1
                    &&& id.spec_height() == block_height
                    &&& id.spec_row() == row_index
                    &&& id.spec_column() == column_index
                },
                Err(e) => block_height == 0 && e == ShwapError::ZeroBlockHeight,
            },
    {
        if block_height == 0 {
            return Err(ShwapError::ZeroBlockHeight);
        }
        match RowId::new(row_index, block_height) {
            Ok(row_id) => Ok(SampleId { row_id, column_index }),
            Err(_) => Err(ShwapError::ZeroBlockHeight),
        }
    }

    /// The height of the block whose square the share belongs to.
    pub fn block_height(&self) -> (r: u64)
        ensures
            r == self.spec_height(),
    {
        self.row_id.block_height()
    }

    /// The row of the square the share sits on.
    pub fn row_index(&self) -> (r: u16)
        ensures
            r == self.spec_row(),
    {
        self.row_id.index()
    }

    /// The column of the square the share sits on.
    pub fn column_index(&self) -> (r: u16)
        ensures
            r == self.spec_column(),
    {
        self.column_index
    }

    /// Append the identifier's byte layout.
    pub fn encode(&self, bytes: &mut Vec<u8>)
        ensures
            final(bytes)@ == old(bytes)@ + sample_id_bytes(
                self.spec_height(),
                self.spec_row(),
                self.spec_column(),
            ),
    {
        self.row_id.encode(bytes);
        put_u16_be(bytes, self.column_index);
        assert(bytes@ =~= old(bytes)@ + sample_id_bytes(
            self.spec_height(),
            self.spec_row(),
            self.spec_column(),
        ));
    }

    /// Decode an identifier from its byte layout.
    pub fn decode(buffer: &[u8]) -> (r: Result<SampleId, CidError>)
        ensures
            match r {
                Ok(id) => {
                    &&& id.spec_height() >= 1
                    &&& buffer@ == sample_id_bytes(id.spec_height(), id.spec_row(), id.spec_column())
                },
                Err(e) => match e {
                    CidError::InvalidMultihashLength(l) => l == buffer@.len() && buffer@.len()
                        != SAMPLE_ID_SIZE,
                    CidError::InvalidCid(m) => buffer@.len() == SAMPLE_ID_SIZE
                        && crate::bytes::u64_from_be(buffer@.subrange(0, 8)) == 0 && m@
                        == "Zero block height"@,
                    _ => false,
                },
            },
    {
        if buffer.len() != SAMPLE_ID_SIZE {
            return Err(CidError::InvalidMultihashLength(buffer.len()));
        }
        let mut row_bytes: Vec<u8> = Vec::new();
        let mut i: usize = 0;
        while i < ROW_ID_SIZE
            invariant
                i <= ROW_ID_SIZE,
                buffer@.len() == SAMPLE_ID_SIZE,
                row_bytes@ == buffer@.subrange(0, i as int),
            decreases ROW_ID_SIZE - i,
        {
            row_bytes.push(buffer[i]);
            i = i + 1;
            assert(row_bytes@ =~= buffer@.subrange(0, i as int));
        }
        let row_id = match RowId::decode(row_bytes.as_slice()) {
            Ok(r) => r,
            Err(e) => {
                proof {
                    assert(buffer@.subrange(0, 10).subrange(0, 8) =~= buffer@.subrange(0, 8));
                }
                return Err(e);
            },
        };
        let column_index = get_u16_be(buffer, 10);
        proof {
            lemma_u16_be_inverse(buffer@.subrange(10, 12));
            assert(sample_id_bytes(row_id.spec_height(), row_id.spec_index(), column_index)
                =~= buffer@);
        }
        Ok(SampleId { row_id, column_index })
    }

    /// The content-identifier parts of this identifier.
    pub fn to_cid(&self) -> (r: CidParts)
        ensures
            r.codec == SAMPLE_ID_CODEC,
            r.mh_code == SAMPLE_ID_MULTIHASH_CODE,
            r.digest@ == sample_id_bytes(self.spec_height(), self.spec_row(), self.spec_column()),
    {
        let mut digest: Vec<u8> = Vec::new();
        self.encode(&mut digest);
        assert(digest@ =~= sample_id_bytes(
            self.spec_height(),
            self.spec_row(),
            self.spec_column(),
        ));
        CidParts { codec: SAMPLE_ID_CODEC, mh_code: SAMPLE_ID_MULTIHASH_CODE, digest }
    }

    /// Read an identifier back out of content-identifier parts.
    pub fn from_cid(cid: &CidParts) -> (r: Result<SampleId, CidError>)
        ensures
            match r {
                Ok(id) => {
                    &&& cid.codec == SAMPLE_ID_CODEC
                    &&& cid.mh_code == SAMPLE_ID_MULTIHASH_CODE
                    &&& id.spec_height() >= 1
                    &&& cid.digest@ == sample_id_bytes(
                        id.spec_height(),
                        id.spec_row(),
                        id.spec_column(),
                    )
                },
                Err(e) => match e {
                    CidError::InvalidCidCodec(c) => c == cid.codec && c != SAMPLE_ID_CODEC,
                    CidError::InvalidMultihashLength(l) => cid.codec == SAMPLE_ID_CODEC && l
                        == cid.digest@.len() && cid.digest@.len() != SAMPLE_ID_SIZE,
                    CidError::InvalidMultihashCode(c, x) => cid.codec == SAMPLE_ID_CODEC
                        && cid.digest@.len() == SAMPLE_ID_SIZE && c == cid.mh_code && c
                        != SAMPLE_ID_MULTIHASH_CODE && x == SAMPLE_ID_MULTIHASH_CODE,
                    CidError::InvalidCid(_) => true,
                },
            },
    {
        if cid.codec != SAMPLE_ID_CODEC {
            return Err(CidError::InvalidCidCodec(cid.codec));
        }
        if cid.digest.len() != SAMPLE_ID_SIZE {
            return Err(CidError::InvalidMultihashLength(cid.digest.len()));
        }
        if cid.mh_code != SAMPLE_ID_MULTIHASH_CODE {
            return Err(CidError::InvalidMultihashCode(cid.mh_code, SAMPLE_ID_MULTIHASH_CODE));
        }
        SampleId::decode(cid.digest.as_slice())
    }
}

} // verus!
