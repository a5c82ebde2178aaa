use git_odb::{decode_loose, loose_path, parse_loose, DecodedObject, Error, ObjectId, ObjectKind, OidError};
use miniz_oxide::deflate::compress_to_vec_zlib;

const ID: &str = "e69de29bb2d1d6434b8b29ae775ad8c2e48c5391";

#[test]
fn oid_hex_round_trip() {
    let id = ObjectId::from_hex(ID).unwrap();
    assert_eq!(id.as_bytes()[0], 0xe6);
    assert_eq!(id.as_bytes()[19], 0x91);
    assert_eq!(id.to_hex(), ID);
    let upper = ObjectId::from_hex(&ID.to_uppercase()).unwrap();
    assert_eq!(upper, id);
    assert!(upper.same_as(&id));
}

#[test]
fn oid_errors() {
    assert_eq!(ObjectId::from_hex("e69d"), Err(OidError::InvalidLength));
    assert_eq!(ObjectId::from_hex("e69"), Err(OidError::InvalidHex));
    assert_eq!(ObjectId::from_hex(&ID.replace('e', "g")), Err(OidError::InvalidHex));
    assert_eq!(ObjectId::from_bytes(&[1, 2, 3]), Err(OidError::InvalidLength));
    assert_eq!(ObjectId::from_bytes(&[7; 20]).unwrap().as_bytes(), &[7u8; 20]);
}

#[test]
fn oid_order_and_equality() {
    let a = ObjectId::from_bytes(&[1; 20]).unwrap();
    let b = ObjectId::from_bytes(&[2; 20]).unwrap();
    assert!(a < b);
    assert!(!a.same_as(&b));
    assert_ne!(a, b);
}

#[test]
fn path_of_a_loose_object() {
    let id = ObjectId::from_hex(ID).unwrap();
    assert_eq!(loose_path("objects", &id), "objects/e6/9de29bb2d1d6434b8b29ae775ad8c2e48c5391");
}

#[test]
fn parse_header_kinds() {
    assert_eq!(
        parse_loose(b"blob 3\0abc"),
        Ok(DecodedObject { kind: ObjectKind::Blob, data: b"abc".to_vec() })
    );
    assert_eq!(parse_loose(b"tree 0\0").unwrap().kind, ObjectKind::Tree);
    assert_eq!(parse_loose(b"commit 1\0x").unwrap().kind, ObjectKind::Commit);
    assert_eq!(parse_loose(b"tag 2\0xy").unwrap().kind, ObjectKind::Tag);
    assert_eq!(parse_loose(b"blob 012\0abcdefghijkl").unwrap().data.len(), 12);
}

#[test]
fn parse_header_errors() {
    for bad in [
        &b"blob3\0abc"[..],
        b"blob 3abc",
        b"blub 3\0abc",
        b"blob \0abc",
        b"blob 3x\0abc",
        b"blob 4\0abc",
        b"blob 2\0abc",
        b"blob 99999999999999999999999\0abc",
        b"",
    ] {
        assert_eq!(parse_loose(bad), Err(Error::MalformedHeader), "{:?}", bad);
    }
}

#[test]
fn decode_compressed_object() {
    let file = compress_to_vec_zlib(b"blob 5\0hello", 6);
    let obj = decode_loose(&file).unwrap();
    assert_eq!(obj.kind, ObjectKind::Blob);
    assert_eq!(obj.data, b"hello".to_vec());
}

#[test]
fn decode_twice_is_identical() {
    let file = compress_to_vec_zlib(b"tree 0\0", 9);
    assert_eq!(decode_loose(&file), decode_loose(&file));
}

#[test]
fn decode_corrupt_stream() {
    assert_eq!(decode_loose(b"not zlib at all"), Err(Error::CorruptZlib));
    let file = compress_to_vec_zlib(b"blob 5\0hello", 6);
    assert_eq!(decode_loose(&file[..file.len() - 3]), Err(Error::CorruptZlib));
}

#[test]
fn decode_bad_header_after_inflate() {
    let file = compress_to_vec_zlib(b"blob 6\0hello", 6);
    assert_eq!(decode_loose(&file), Err(Error::MalformedHeader));
}
