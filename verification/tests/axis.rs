use lumina_core::axis::{
    AxisError, AxisId, AxisType, DataAvailabilityHeader, AXIS_ID_CODEC, AXIS_ID_MULTIHASH_CODE,
    AXIS_ID_SIZE,
};
use lumina_core::cids::CidParts;
use sha2::Digest;

fn empty_root() -> Vec<u8> {
    vec![0u8; 90]
}

fn dah_with_roots(n: usize) -> DataAvailabilityHeader {
    DataAvailabilityHeader {
        row_roots: (0..n).map(|_| empty_root()).collect(),
        column_roots: (0..n).map(|_| empty_root()).collect(),
    }
}

fn parts_from_cid(cid: &cid::CidGeneric<64>) -> CidParts {
    CidParts {
        codec: cid.codec(),
        mh_code: cid.hash().code(),
        digest: cid.hash().digest().to_vec(),
    }
}

fn cid_of(id: &AxisId) -> cid::CidGeneric<64> {
    let parts = id.to_cid();
    let mh = multihash::Multihash::<64>::wrap(parts.mh_code, &parts.digest).unwrap();
    cid::CidGeneric::new_v1(parts.codec, mh)
}

#[test]
fn axis_type_serialization() {
    assert_eq!(AxisType::Row as u8, 0);
    assert_eq!(AxisType::Col as u8, 1);
}

#[test]
fn axis_type_deserialization() {
    assert_eq!(AxisType::try_from(0).unwrap(), AxisType::Row);
    assert_eq!(AxisType::try_from(1).unwrap(), AxisType::Col);

    let axis_type_err = AxisType::try_from(2).unwrap_err();
    assert!(matches!(axis_type_err, AxisError::InvalidAxis(2)));
    let axis_type_err = AxisType::try_from(99).unwrap_err();
    assert!(matches!(axis_type_err, AxisError::InvalidAxis(99)));
}

#[test]
fn axis_round_trip_test() {
    let dah = dah_with_roots(10);
    let axis_id = AxisId::new(AxisType::Row, 5, &dah, 100).unwrap();
    let cid = cid_of(&axis_id);

    let multihash = cid.hash();
    assert_eq!(multihash.code(), AXIS_ID_MULTIHASH_CODE);
    assert_eq!(multihash.size(), AXIS_ID_SIZE as u8);

    let deserialized_axis_id = AxisId::from_cid(&parts_from_cid(&cid)).unwrap();
    assert_eq!(axis_id, deserialized_axis_id);
}

#[test]
fn axis_index_calculation() {
    let dah = dah_with_roots(8);

    AxisId::new(AxisType::Row, 1, &dah, 100).unwrap();
    AxisId::new(AxisType::Row, 7, &dah, 100).unwrap();
    let axis_err = AxisId::new(AxisType::Row, 8, &dah, 100).unwrap_err();
    assert!(matches!(axis_err, AxisError::EdsIndexOutOfRange(8)));
    let axis_err = AxisId::new(AxisType::Row, 100, &dah, 100).unwrap_err();
    assert!(matches!(axis_err, AxisError::EdsIndexOutOfRange(100)));
}

#[test]
fn axis_from_buffer() {
    let bytes = [
        0x01, // CIDv1
        0x90, 0xF0, 0x01, // CID codec = 7810
        0x91, 0xF0, 0x01, // multihash code = 7811
        0x2B, // len = AXIS_ID_SIZE = 43
        0,    // axis type = Row = 0
        7, 0, // axis index = 7
        0xFF, 0xFF, 0xFF, 0xFF, 0xFF, 0xFF, 0xFF, 0xFF, 0xFF, 0xFF, 0xFF, 0xFF, 0xFF, 0xFF,
        0xFF, 0xFF, 0xFF, 0xFF, 0xFF, 0xFF, 0xFF, 0xFF, 0xFF, 0xFF, 0xFF, 0xFF, 0xFF, 0xFF,
        0xFF, 0xFF, 0xFF, 0xFF, // hash
        64, 0, 0, 0, 0, 0, 0, 0, // block height = 64
    ];

    let cid = cid::CidGeneric::<64>::read_bytes(bytes.as_ref()).unwrap();
    assert_eq!(cid.codec(), AXIS_ID_CODEC);
    let mh = cid.hash();
    assert_eq!(mh.code(), AXIS_ID_MULTIHASH_CODE);
    assert_eq!(mh.size(), AXIS_ID_SIZE as u8);
    let axis_id = AxisId::from_cid(&parts_from_cid(&cid)).unwrap();
    assert_eq!(axis_id.axis_type, AxisType::Row);
    assert_eq!(axis_id.index, 7);
    assert_eq!(axis_id.hash, vec![0xFF; 32]);
    assert_eq!(axis_id.block_height, 64);
}

#[test]
fn invalid_axis() {
    let bytes = [
        0x01, // CIDv1
        0x90, 0xF0, 0x01, // CID codec = 7810
        0x91, 0xF0, 0x01, // code = 7811
        0x2B, // len = AXIS_ID_SIZE = 43
        0xBE, // invalid axis type!
        7, 0, // axis index = 7
        0xFF, 0xFF, 0xFF, 0xFF, 0xFF, 0xFF, 0xFF, 0xFF, 0xFF, 0xFF, 0xFF, 0xFF, 0xFF, 0xFF,
        0xFF, 0xFF, 0xFF, 0xFF, 0xFF, 0xFF, 0xFF, 0xFF, 0xFF, 0xFF, 0xFF, 0xFF, 0xFF, 0xFF,
        0xFF, 0xFF, 0xFF, 0xFF, // hash
        64, 0, 0, 0, 0, 0, 0, 0, // block height = 64
    ];

    let cid = cid::CidGeneric::<64>::read_bytes(bytes.as_ref()).unwrap();
    assert_eq!(cid.codec(), AXIS_ID_CODEC);
    let mh = cid.hash();
    assert_eq!(mh.code(), AXIS_ID_MULTIHASH_CODE);
    assert_eq!(mh.size(), AXIS_ID_SIZE as u8);
    let axis_err = AxisId::from_cid(&parts_from_cid(&cid)).unwrap_err();
    assert!(matches!(axis_err, AxisError::InvalidAxis(0xBE)));
}

#[test]
fn axis_zero_block_height() {
    let bytes = [
        0x01, // CIDv1
        0x90, 0xF0, 0x01, // CID codec = 7810
        0x91, 0xF0, 0x01, // code = 7811
        0x2B, // len = AXIS_ID_SIZE = 43
        0,    // axis type = Row = 0
        7, 0, // axis index = 7
        0xFF, 0xFF, 0xFF, 0xFF, 0xFF, 0xFF, 0xFF, 0xFF, 0xFF, 0xFF, 0xFF, 0xFF, 0xFF, 0xFF,
        0xFF, 0xFF, 0xFF, 0xFF, 0xFF, 0xFF, 0xFF, 0xFF, 0xFF, 0xFF, 0xFF, 0xFF, 0xFF, 0xFF,
        0xFF, 0xFF, 0xFF, 0xFF, // hash
        0, 0, 0, 0, 0, 0, 0, 0, // invalid block height = 0 !
    ];

    let cid = cid::CidGeneric::<64>::read_bytes(bytes.as_ref()).unwrap();
    assert_eq!(cid.codec(), AXIS_ID_CODEC);
    let mh = cid.hash();
    assert_eq!(mh.code(), AXIS_ID_MULTIHASH_CODE);
    assert_eq!(mh.size(), AXIS_ID_SIZE as u8);
    let axis_err = AxisId::from_cid(&parts_from_cid(&cid)).unwrap_err();
    assert!(matches!(axis_err, AxisError::ZeroBlockHeight));
}

#[test]
fn axis_multihash_invalid_code() {
    let multihash = multihash::Multihash::<64>::wrap(999, &[0; AXIS_ID_SIZE]).unwrap();
    let cid = cid::CidGeneric::<64>::new_v1(AXIS_ID_CODEC, multihash);
    let axis_err = AxisId::from_cid(&parts_from_cid(&cid)).unwrap_err();
    assert!(matches!(
        axis_err,
        AxisError::InvalidMultihashCode(999, AXIS_ID_MULTIHASH_CODE)
    ));
}

#[test]
fn axis_cid_invalid_codec() {
    let multihash =
        multihash::Multihash::<64>::wrap(AXIS_ID_MULTIHASH_CODE, &[0; AXIS_ID_SIZE]).unwrap();
    let cid = cid::CidGeneric::<64>::new_v1(1234, multihash);
    let axis_err = AxisId::from_cid(&parts_from_cid(&cid)).unwrap_err();
    assert!(matches!(
        axis_err,
        AxisError::InvalidCidCodec(1234, AXIS_ID_CODEC)
    ));
}

#[test]
fn axis_id_hashes_the_root() {
    let mut root = empty_root();
    root[0] = 0xAB;
    let dah = DataAvailabilityHeader { row_roots: vec![root.clone()], column_roots: vec![] };
    let axis_id = AxisId::new(AxisType::Row, 0, &dah, 7).unwrap();
    let expected: Vec<u8> = sha2::Sha256::digest(&root).to_vec();
    assert_eq!(axis_id.hash, expected);
    assert_ne!(axis_id.hash, root);
}
