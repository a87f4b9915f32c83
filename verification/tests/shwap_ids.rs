use lumina_core::cids::{CidError, CidParts};
use lumina_core::row::{Row, RowId, ROW_ID_CODEC, ROW_ID_MULTIHASH_CODE, ROW_ID_SIZE};
use lumina_core::rsmt2d::{ExtendedDataSquare, ShwapError};
use lumina_core::sample::{SampleId, SAMPLE_ID_CODEC, SAMPLE_ID_MULTIHASH_CODE, SAMPLE_ID_SIZE};
use nmt_rs::simple_merkle::db::MemDb;
use nmt_rs::{NamespaceId, NamespaceMerkleHasher, NamespaceMerkleTree, NamespacedSha2Hasher};

const SHARE_SIZE: usize = 512;

fn parts_from_cid(cid: &cid::CidGeneric<64>) -> CidParts {
    CidParts {
        codec: cid.codec(),
        mh_code: cid.hash().code(),
        digest: cid.hash().digest().to_vec(),
    }
}

fn cid_from_parts(parts: &CidParts) -> cid::CidGeneric<64> {
    let mh = multihash::Multihash::<64>::wrap(parts.mh_code, &parts.digest).unwrap();
    cid::CidGeneric::new_v1(parts.codec, mh)
}

#[test]
fn row_round_trip_test() {
    let row_id = RowId::new(5, 100).unwrap();
    let cid = cid_from_parts(&row_id.to_cid());

    let multihash = cid.hash();
    assert_eq!(multihash.code(), ROW_ID_MULTIHASH_CODE);
    assert_eq!(multihash.size(), ROW_ID_SIZE as u8);

    let deserialized_row_id = RowId::from_cid(&parts_from_cid(&cid)).unwrap();
    assert_eq!(row_id, deserialized_row_id);
}

#[test]
fn row_index_calculation() {
    let shares = vec![vec![0; SHARE_SIZE]; 8 * 8];
    let eds = ExtendedDataSquare::new(shares, "codec".to_string()).unwrap();

    Row::new(1, &eds).unwrap();
    Row::new(7, &eds).unwrap();
    let row_err = Row::new(8, &eds).unwrap_err();
    assert!(matches!(row_err, ShwapError::EdsIndexOutOfRange(8, 0)));
    let row_err = Row::new(100, &eds).unwrap_err();
    assert!(matches!(row_err, ShwapError::EdsIndexOutOfRange(100, 0)));
}

#[test]
fn row_id_size() {
    // Size MUST be 10 by the spec.
    assert_eq!(ROW_ID_SIZE, 10);

    let row_id = RowId::new(0, 1).unwrap();
    let mut bytes = Vec::new();
    row_id.encode(&mut bytes);
    assert_eq!(bytes.len(), ROW_ID_SIZE);
}

#[test]
fn row_from_buffer() {
    let bytes = [
        0x01, // CIDv1
        0x80, 0xF0, 0x01, // CID codec = 7800
        0x81, 0xF0, 0x01, // multihash code = 7801
        0x0A, // len = ROW_ID_SIZE = 10
        0, 0, 0, 0, 0, 0, 0, 64, // block height = 64
        0, 7, // row index = 7
    ];

    let cid = cid::CidGeneric::<64>::read_bytes(bytes.as_ref()).unwrap();
    assert_eq!(cid.codec(), ROW_ID_CODEC);
    let mh = cid.hash();
    assert_eq!(mh.code(), ROW_ID_MULTIHASH_CODE);
    assert_eq!(mh.size(), ROW_ID_SIZE as u8);
    let row_id = RowId::from_cid(&parts_from_cid(&cid)).unwrap();
    assert_eq!(row_id.index(), 7);
    assert_eq!(row_id.block_height(), 64);
}

#[test]
fn row_zero_block_height() {
    let bytes = [
        0x01, // CIDv1
        0x80, 0xF0, 0x01, // CID codec = 7800
        0x81, 0xF0, 0x01, // code = 7801
        0x0A, // len = ROW_ID_SIZE = 10
        0, 0, 0, 0, 0, 0, 0, 0, // invalid block height = 0 !
        0, 7, // row index = 7
    ];

    let cid = cid::CidGeneric::<64>::read_bytes(bytes.as_ref()).unwrap();
    assert_eq!(cid.codec(), ROW_ID_CODEC);
    let mh = cid.hash();
    assert_eq!(mh.code(), ROW_ID_MULTIHASH_CODE);
    assert_eq!(mh.size(), ROW_ID_SIZE as u8);
    let row_err = RowId::from_cid(&parts_from_cid(&cid)).unwrap_err();
    assert_eq!(
        row_err,
        CidError::InvalidCid("Zero block height".to_string())
    );
}

#[test]
fn row_multihash_invalid_code() {
    let multihash = multihash::Multihash::<64>::wrap(999, &[0; ROW_ID_SIZE]).unwrap();
    let cid = cid::CidGeneric::<64>::new_v1(ROW_ID_CODEC, multihash);
    let row_err = RowId::from_cid(&parts_from_cid(&cid)).unwrap_err();
    assert_eq!(
        row_err,
        CidError::InvalidMultihashCode(999, ROW_ID_MULTIHASH_CODE)
    );
}

#[test]
fn row_cid_invalid_codec() {
    let multihash =
        multihash::Multihash::<64>::wrap(ROW_ID_MULTIHASH_CODE, &[0; ROW_ID_SIZE]).unwrap();
    let cid = cid::CidGeneric::<64>::new_v1(1234, multihash);
    let row_err = RowId::from_cid(&parts_from_cid(&cid)).unwrap_err();
    assert_eq!(row_err, CidError::InvalidCidCodec(1234));
}

#[test]
fn round_trip() {
    let sample_id = SampleId::new(5, 10, 100).unwrap();
    let cid = cid_from_parts(&sample_id.to_cid());

    let multihash = cid.hash();
    assert_eq!(multihash.code(), SAMPLE_ID_MULTIHASH_CODE);
    assert_eq!(multihash.size(), SAMPLE_ID_SIZE as u8);

    let deserialized_sample_id = SampleId::from_cid(&parts_from_cid(&cid)).unwrap();
    assert_eq!(sample_id, deserialized_sample_id);
}

#[test]
fn sample_id_size() {
    // Size MUST be 12 by the spec.
    assert_eq!(SAMPLE_ID_SIZE, 12);

    let sample_id = SampleId::new(0, 4, 1).unwrap();
    let mut bytes = Vec::new();
    sample_id.encode(&mut bytes);
    assert_eq!(bytes.len(), SAMPLE_ID_SIZE);
}

#[test]
fn sample_from_buffer() {
    let bytes = [
        0x01, // CIDv1
        0x90, 0xF0, 0x01, // CID codec = 7810
        0x91, 0xF0, 0x01, // multihash code = 7811
        0x0C, // len = SAMPLE_ID_SIZE = 12
        0, 0, 0, 0, 0, 0, 0, 64, // block height = 64
        0, 7, // row index = 7
        0, 5, // sample index = 5
    ];

    let cid = cid::CidGeneric::<64>::read_bytes(bytes.as_ref()).unwrap();
    assert_eq!(cid.codec(), SAMPLE_ID_CODEC);
    let mh = cid.hash();
    assert_eq!(mh.code(), SAMPLE_ID_MULTIHASH_CODE);
    assert_eq!(mh.size(), SAMPLE_ID_SIZE as u8);
    let sample_id = SampleId::from_cid(&parts_from_cid(&cid)).unwrap();
    assert_eq!(sample_id.block_height(), 64);
    assert_eq!(sample_id.row_index(), 7);
    assert_eq!(sample_id.column_index(), 5);
}

#[test]
fn sample_multihash_invalid_code() {
    let multihash = multihash::Multihash::<64>::wrap(888, &[0; SAMPLE_ID_SIZE]).unwrap();
    let cid = cid::CidGeneric::<64>::new_v1(SAMPLE_ID_CODEC, multihash);
    let code_err = SampleId::from_cid(&parts_from_cid(&cid)).unwrap_err();
    assert_eq!(
        code_err,
        CidError::InvalidMultihashCode(888, SAMPLE_ID_MULTIHASH_CODE)
    );
}

#[test]
fn sample_cid_invalid_codec() {
    let multihash =
        multihash::Multihash::<64>::wrap(SAMPLE_ID_MULTIHASH_CODE, &[0; SAMPLE_ID_SIZE]).unwrap();
    let cid = cid::CidGeneric::<64>::new_v1(4321, multihash);
    let codec_err = SampleId::from_cid(&parts_from_cid(&cid)).unwrap_err();
    assert!(matches!(codec_err, CidError::InvalidCidCodec(4321)));
}

#[test]
fn eds_rows_and_columns() {
    let mut shares = Vec::new();
    for i in 0..4u8 {
        for j in 0..4u8 {
            shares.push(vec![i * 4 + j; 4]);
        }
    }
    let eds = ExtendedDataSquare::new(shares, "codec".to_string()).unwrap();
    assert_eq!(eds.square_width(), 4);

    let row2 = eds.row(2, 4);
    assert_eq!(row2.len(), 4);
    assert_eq!(row2[0], vec![8u8; 4]);
    assert_eq!(row2[3], vec![11u8; 4]);

    let col1 = eds.column(1, 4);
    assert_eq!(col1.len(), 4);
    assert_eq!(col1[0], vec![1u8; 4]);
    assert_eq!(col1[3], vec![13u8; 4]);

    let via_axis = eds.axis(lumina_core::axis::AxisType::Col, 1, 4);
    assert_eq!(via_axis, col1);

    let bad = ExtendedDataSquare::new(vec![vec![0u8; 4]; 5], "codec".to_string());
    assert!(matches!(bad, Err(ShwapError::EdsInvalidDimentions)));
}

#[test]
fn row_verify_against_committed_root() {
    // A 2x2 square: the first share sits in the original data square and
    // carries its namespace prefix, the second is a parity share.
    let mut share00 = vec![1u8; 64];
    share00[29] = 7;
    let share01 = vec![0xEEu8; 64];

    let ns00 = {
        let mut ns = [0u8; 29];
        ns.copy_from_slice(&share00[..29]);
        NamespaceId(ns)
    };
    let parity = NamespaceId([0xFFu8; 29]);

    let mut tree: NamespaceMerkleTree<MemDb<nmt_rs::NamespacedHash<29>>, NamespacedSha2Hasher<29>, 29> =
        NamespaceMerkleTree::with_hasher(NamespacedSha2Hasher::with_ignore_max_ns(true));
    tree.push_leaf(&share00, ns00).unwrap();
    tree.push_leaf(&share01, parity).unwrap();
    let digest = tree.root().hash();

    let mut committed_root = vec![0u8; 58];
    committed_root.extend_from_slice(&digest);
    let dah = lumina_core::axis::DataAvailabilityHeader {
        row_roots: vec![committed_root.clone()],
        column_roots: vec![],
    };

    let row = Row { shares: vec![share00, share01] };
    let id = RowId::new(0, 1).unwrap();
    row.verify(id, &dah).unwrap();

    // A corrupted root is rejected.
    let mut bad_root = committed_root;
    bad_root[60] ^= 1;
    let bad_dah = lumina_core::axis::DataAvailabilityHeader {
        row_roots: vec![bad_root],
        column_roots: vec![],
    };
    let err = row.verify(id, &bad_dah).unwrap_err();
    assert!(matches!(err, ShwapError::RootMismatch));
}
