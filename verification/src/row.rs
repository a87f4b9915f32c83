//! Rows of the extended data square and their identifiers.

use vstd::prelude::*;

use crate::bytes::{
    bytes_eq, get_u16_be, get_u64_be, lemma_u16_be_inverse, lemma_u64_be_inverse, put_u16_be,
    put_u64_be, u16_be_bytes, u64_be_bytes, u64_from_be,
};
use crate::cids::{CidError, CidParts};
use crate::rsmt2d::{ExtendedDataSquare, ShwapError};

verus! {

/// Number of bytes of an encoded [`RowId`]: the block height and the row
/// index.
pub const ROW_ID_SIZE: usize = 10;

/// The code of the [`RowId`] hashing algorithm in a multihash.
pub const ROW_ID_MULTIHASH_CODE: u64 = 0x7801;

/// The codec of a [`RowId`] in a content identifier.
pub const ROW_ID_CODEC: u64 = 0x7800;

/// Identifies a particular row in the square of a specific block.
#[derive(Debug, PartialEq, Eq, Structural, Clone, Copy)]
pub struct RowId {
    height: u64,
    index: u16,
}

/// The byte layout of a [`RowId`]: the block height then the row index,
/// both big-endian.
pub open spec fn row_id_bytes(height: u64, index: u16) -> Seq<u8> {
    u64_be_bytes(height) + u16_be_bytes(index)
}

impl RowId {
    pub closed spec fn spec_height(self) -> u64 {
        self.height
    }

    pub closed spec fn spec_index(self) -> u16 {
        self.index
    }

    /// Create an identifier for a row of the block at a positive height.
    pub fn new(index: u16, height: u64) -> (r: Result<RowId, ShwapError>)
        ensures
            match r {
                Ok(id) => height >= 1 && id.spec_height() == height && id.spec_index() == index,
                Err(e) => height == 0 && e == ShwapError::ZeroBlockHeight,
            },
    {
        if height == 0 {
            return Err(ShwapError::ZeroBlockHeight);
        }
        Ok(RowId { height, index })
    }

    /// The height of the block whose square the row belongs to.
    pub fn block_height(&self) -> (r: u64)
        ensures
            r == self.spec_height(),
    {
        self.height
    }

    /// The index of the row in the square.
    pub fn index(&self) -> (r: u16)
        ensures
            r == self.spec_index(),
    {
        self.index
    }

    /// Append the identifier's byte layout.
    pub fn encode(&self, bytes: &mut Vec<u8>)
        ensures
            final(bytes)@ == old(bytes)@ + row_id_bytes(self.spec_height(), self.spec_index()),
    {
        put_u64_be(bytes, self.height);
        put_u16_be(bytes, self.index);
        assert(bytes@ =~= old(bytes)@ + row_id_bytes(self.height, self.index));
    }

    /// Decode an identifier from its byte layout.
    pub fn decode(buffer: &[u8]) -> (r: Result<RowId, CidError>)
        ensures
            match r {
                Ok(id) => {
                    &&& id.spec_height() >= 1
                    &&& buffer@ == row_id_bytes(id.spec_height(), id.spec_index())
                },
                Err(e) => match e {
                    CidError::InvalidMultihashLength(l) => l == buffer@.len() && buffer@.len()
                        != ROW_ID_SIZE,
                    CidError::InvalidCid(m) => buffer@.len() == ROW_ID_SIZE && u64_from_be(
                        buffer@.subrange(0, 8),
                    ) == 0 && m@ == "Zero block height"@,
                    _ => false,
                },
            },
    {
        if buffer.len() != ROW_ID_SIZE {
            return Err(CidError::InvalidMultihashLength(buffer.len()));
        }
        let height = get_u64_be(buffer, 0);
        let index = get_u16_be(buffer, 8);
        if height == 0 {
            return Err(CidError::InvalidCid("Zero block height".to_string()));
        }
        proof {
            lemma_u64_be_inverse(buffer@.subrange(0, 8));
            lemma_u16_be_inverse(buffer@.subrange(8, 10));
            assert(row_id_bytes(height, index) =~= buffer@);
        }
        Ok(RowId { height, index })
    }

    /// The content-identifier parts of this identifier.
    pub fn to_cid(&self) -> (r: CidParts)
        ensures
            r.codec == ROW_ID_CODEC,
            r.mh_code == ROW_ID_MULTIHASH_CODE,
            r.digest@ == row_id_bytes(self.spec_height(), self.spec_index()),
    {
        let mut digest: Vec<u8> = Vec::new();
        self.encode(&mut digest);
        assert(digest@ =~= row_id_bytes(self.height, self.index));
        CidParts { codec: ROW_ID_CODEC, mh_code: ROW_ID_MULTIHASH_CODE, digest }
    }

    /// Read an identifier back out of content-identifier parts.
    pub fn from_cid(cid: &CidParts) -> (r: Result<RowId, CidError>)
        ensures
            match r {
                Ok(id) => {
                    &&& cid.codec == ROW_ID_CODEC
                    &&& cid.mh_code == ROW_ID_MULTIHASH_CODE
                    &&& id.spec_height() >= 1
                    &&& cid.digest@ == row_id_bytes(id.spec_height(), id.spec_index())
                },
                Err(e) => match e {
                    CidError::InvalidCidCodec(c) => c == cid.codec && c != ROW_ID_CODEC,
                    CidError::InvalidMultihashLength(l) => cid.codec == ROW_ID_CODEC && l
                        == cid.digest@.len() && cid.digest@.len() != ROW_ID_SIZE,
                    CidError::InvalidMultihashCode(c, x) => cid.codec == ROW_ID_CODEC
                        && cid.digest@.len() == ROW_ID_SIZE && c == cid.mh_code && c
                        != ROW_ID_MULTIHASH_CODE && x == ROW_ID_MULTIHASH_CODE,
                    CidError::InvalidCid(_) => true,
                },
            },
    {
        if cid.codec != ROW_ID_CODEC {
            return Err(CidError::InvalidCidCodec(cid.codec));
        }
        if cid.digest.len() != ROW_ID_SIZE {
            return Err(CidError::InvalidMultihashLength(cid.digest.len()));
        }
        if cid.mh_code != ROW_ID_MULTIHASH_CODE {
            return Err(CidError::InvalidMultihashCode(cid.mh_code, ROW_ID_MULTIHASH_CODE));
        }
        RowId::decode(cid.digest.as_slice())
    }
}

/// Length in bytes of a share's namespace prefix.
pub const NS_SIZE: usize = 29;

/// A namespaced merkle tree over the shares of one axis, held opaquely;
/// its contents and its root are named below.
#[verifier::external_body]
struct Nmt {
    inner: nmt_rs::NamespaceMerkleTree<
        nmt_rs::simple_merkle::db::MemDb<nmt_rs::NamespacedHash<29>>,
        nmt_rs::NamespacedSha2Hasher<29>,
        29,
    >,
}

/// The leaves pushed into a tree so far, each a share with its namespace.
pub uninterp spec fn nmt_leaves(t: Nmt) -> Seq<(Seq<u8>, Seq<u8>)>;

/// The digest of the namespaced merkle root over the given leaves; a
/// function of the leaves alone.
pub uninterp spec fn nmt_root_of(leaves: Seq<(Seq<u8>, Seq<u8>)>) -> Seq<u8>;

/// Relies on nmt-rs's NamespaceMerkleTree::with_hasher (with the max
/// namespace ignored, as the data availability roots are built): a fresh
/// tree has no leaves.
#[verifier::external_body]
fn nmt_new() -> (t: Nmt)
    ensures
        nmt_leaves(t) == Seq::<(Seq<u8>, Seq<u8>)>::empty(),
{
    Nmt {
        inner: nmt_rs::NamespaceMerkleTree::with_hasher(
            <nmt_rs::NamespacedSha2Hasher<29> as nmt_rs::NamespaceMerkleHasher<29>>::with_ignore_max_ns(
                true,
            ),
        ),
    }
}

/// Relies on nmt-rs's NamespaceMerkleTree::push_leaf: it appends the leaf
/// when the namespaces arrive in ascending order and otherwise leaves the
/// tree untouched.
#[verifier::external_body]
fn nmt_push_leaf(t: &mut Nmt, data: &Vec<u8>, namespace: &Vec<u8>) -> (r: bool)
    requires
        namespace@.len() == NS_SIZE,
    ensures
        r ==> nmt_leaves(*final(t)) == nmt_leaves(*old(t)).push((data@, namespace@)),
        !r ==> nmt_leaves(*final(t)) == nmt_leaves(*old(t)),
{
    let mut ns = [0u8; 29];
    ns.copy_from_slice(namespace);
    t.inner.push_leaf(data.as_slice(), nmt_rs::NamespaceId(ns)).is_ok()
}

/// Relies on nmt-rs's NamespaceMerkleTree::root and NamespacedHash::hash:
/// the root digest is a function of the pushed leaves alone, 32 bytes
/// long, and computing it does not change the leaves.
#[verifier::external_body]
fn nmt_root_digest(t: &mut Nmt) -> (r: Vec<u8>)
    ensures
        nmt_leaves(*final(t)) == nmt_leaves(*old(t)),
        r@ == nmt_root_of(nmt_leaves(*old(t))),
        r@.len() == 32,
{
    t.inner.root().hash().to_vec()
}

/// Whether a coordinate lies in the original data square: both indices in
/// the first half of the extended square.
pub open spec fn spec_is_ods_square(row: u16, column: u16, square_width: u16) -> bool {
    row < square_width / 2 && column < square_width / 2
}

/// The namespace of all parity shares.
pub open spec fn parity_namespace() -> Seq<u8> {
    Seq::new(NS_SIZE as nat, |i: int| 0xFFu8)
}

/// The namespace under which a share enters its row tree: its own prefix
/// inside the original square, the parity namespace outside it.
pub open spec fn share_namespace(share: Seq<u8>, row: u16, column: u16, width: u16) -> Seq<u8> {
    if spec_is_ods_square(row, column, width) {
        share.subrange(0, NS_SIZE as int)
    } else {
        parity_namespace()
    }
}

/// The leaves of the tree of one row.
pub open spec fn row_leaves(shares: Seq<Seq<u8>>, row: u16, width: u16) -> Seq<(Seq<u8>, Seq<u8>)> {
    Seq::new(shares.len(), |c: int| (shares[c], share_namespace(shares[c], row, c as u16, width)))
}

/// The digest part of a stored namespaced root: its last 32 bytes.
pub open spec fn root_digest(root: Seq<u8>) -> Seq<u8> {
    root.subrange(root.len() - 32, root.len() as int)
}

/// A row of the square together with its shares.
#[derive(Debug)]
pub struct Row {
    pub shares: Vec<Vec<u8>>,
}

/// The views of a list of shares.
pub open spec fn shares_view(s: Seq<Vec<u8>>) -> Seq<Seq<u8>> {
    s.map_values(|v: Vec<u8>| v@)
}

impl Row {
    /// Verify the row against the root committed in the data availability
    /// header: rebuild the row's namespaced merkle tree and compare its
    /// digest with the committed root's digest.
    pub fn verify(&self, id: RowId, dah: &crate::axis::DataAvailabilityHeader) -> (r: Result<
        (),
        ShwapError,
    >)
        ensures
            r is Ok ==> {
                &&& self.shares@.len() <= u16::MAX
                &&& (id.spec_index() as int) < dah.row_roots@.len()
                &&& root_digest(dah.row_roots@[id.spec_index() as int]@) == nmt_root_of(
                    row_leaves(
                        shares_view(self.shares@),
                        id.spec_index(),
                        self.shares@.len() as u16,
                    ),
                )
            },
            match r {
                Ok(()) => true,
                Err(e) => match e {
                    // Too many shares for the index type, or a share of the
                    // original square too short to carry its namespace.
                    ShwapError::EdsInvalidDimentions => self.shares@.len() > u16::MAX || exists|
                        c: int,
                    |
                        0 <= c < self.shares@.len() && spec_is_ods_square(
                            id.spec_index(),
                            c as u16,
                            self.shares@.len() as u16,
                        ) && (#[trigger] self.shares@[c])@.len() < NS_SIZE,
                    // The tree refused a leaf (namespaces out of order).
                    ShwapError::Nmt => self.shares@.len() <= u16::MAX,
                    ShwapError::EdsIndexOutOfRange(i, z) => i == id.spec_index() && z == 0
                        && dah.row_roots@.len() <= id.spec_index(),
                    // The committed root is too short, or its digest differs
                    // from the recomputed one.
                    ShwapError::RootMismatch => {
                        &&& (id.spec_index() as int) < dah.row_roots@.len()
                        &&& (dah.row_roots@[id.spec_index() as int]@.len() < 32 || root_digest(
                            dah.row_roots@[id.spec_index() as int]@,
                        ) != nmt_root_of(
                            row_leaves(
                                shares_view(self.shares@),
                                id.spec_index(),
                                self.shares@.len() as u16,
                            ),
                        ))
                    },
                    _ => false,
                },
            },
    {
        let ghost sv = shares_view(self.shares@);
        let n = self.shares.len();
        if n > 65535 {
            return Err(ShwapError::EdsInvalidDimentions);
        }
        let square_width = n as u16;
        let row = id.index();
        let mut tree = nmt_new();
        proof {
            assert(nmt_leaves(tree) =~= row_leaves(sv, row, square_width).take(0));
        }
        let mut col: usize = 0;
        while col < n
            invariant
                sv == shares_view(self.shares@),
                n == self.shares@.len(),
                n <= 65535,
                square_width == n as u16,
                row == id.spec_index(),
                col <= n,
                nmt_leaves(tree) == row_leaves(sv, row, square_width).take(col as int),
            decreases n - col,
        {
            let share = &self.shares[col];
            let ns: Vec<u8> = if row < square_width / 2 && (col as u16) < square_width / 2 {
                if share.len() < NS_SIZE {
                    proof {
                        assert(spec_is_ods_square(row, col as u16, square_width));
                        assert(self.shares@[col as int]@.len() < NS_SIZE);
                    }
                    return Err(ShwapError::EdsInvalidDimentions);
                }
                let mut ns: Vec<u8> = Vec::new();
                let mut i: usize = 0;
                while i < NS_SIZE
                    invariant
                        i <= NS_SIZE,
                        share@.len() >= NS_SIZE,
                        ns@ == share@.subrange(0, i as int),
                    decreases NS_SIZE - i,
                {
                    ns.push(share[i]);
                    i = i + 1;
                    assert(ns@ =~= share@.subrange(0, i as int));
                }
                ns
            } else {
                let mut ns: Vec<u8> = Vec::new();
                let mut i: usize = 0;
                while i < NS_SIZE
                    invariant
                        i <= NS_SIZE,
                        ns@ == parity_namespace().take(i as int),
                    decreases NS_SIZE - i,
                {
                    ns.push(0xFF);
                    i = i + 1;
                    assert(ns@ =~= parity_namespace().take(i as int));
                }
                proof {
                    assert(ns@ =~= parity_namespace());
                }
                ns
            };
            proof {
                assert(sv[col as int] == self.shares@[col as int]@);
                assert(ns@ == share_namespace(sv[col as int], row, col as u16, square_width));
            }
            if !nmt_push_leaf(&mut tree, share, &ns) {
                return Err(ShwapError::Nmt);
            }
            col = col + 1;
            proof {
                assert(nmt_leaves(tree) =~= row_leaves(sv, row, square_width).take(col as int));
            }
        }
        proof {
            assert(row_leaves(sv, row, square_width).take(n as int) =~= row_leaves(
                sv,
                row,
                square_width,
            ));
        }
        let root = match dah.row_root(row as usize) {
            Some(root) => root,
            None => {
                return Err(ShwapError::EdsIndexOutOfRange(row, 0));
            },
        };
        if root.len() < 32 {
            return Err(ShwapError::RootMismatch);
        }
        let digest = nmt_root_digest(&mut tree);
        let mut committed: Vec<u8> = Vec::new();
        let start = root.len() - 32;
        let mut i: usize = start;
        while i < root.len()
            invariant
                start + 32 == root@.len(),
                start <= i <= root@.len(),
                committed@ == root@.subrange(start as int, i as int),
            decreases root@.len() - i,
        {
            committed.push(root[i]);
            i = i + 1;
            assert(committed@ =~= root@.subrange(start as int, i as int));
        }
        proof {
            assert(committed@ =~= root_digest(root@));
        }
        if bytes_eq(&digest, &committed) {
            Ok(())
        } else {
            Err(ShwapError::RootMismatch)
        }
    }

    /// Extract the row with the given index from a square.
    pub fn new(index: u16, eds: &ExtendedDataSquare) -> (r: Result<Row, ShwapError>)
        requires
            eds.wf(),
        ensures
            match r {
                Ok(row) => {
                    &&& index < eds.spec_width()
                    &&& row.shares@.len() == eds.spec_width()
                    &&& forall|j: int|
                        0 <= j < row.shares@.len() ==> (#[trigger] row.shares@[j])@
                            == eds.data_square@[index * eds.spec_width() + j]@
                },
                Err(e) => index >= eds.spec_width() && e == ShwapError::EdsIndexOutOfRange(
                    index,
                    0,
                ),
            },
    {
        let width = eds.square_width();
        if index >= width {
            return Err(ShwapError::EdsIndexOutOfRange(index, 0));
        }
        proof {
            assert((index + 1) * (width as int) <= (width as int) * (width as int))
                by (nonlinear_arith)
                requires
                    0 <= index < width,
            ;
        }
        let shares = eds.row(index as usize, width as usize);
        Ok(Row { shares })
    }
}

} // verus!
