use custom_nosql_cdn::database::Database;
use custom_nosql_cdn::record::Record;

fn db() -> Database {
    Database::new("data.db".to_string())
}

#[test]
fn digest_of_empty_value_is_sha256() {
    let d = db().generate_checksum(b"");
    let hex: String = d.iter().map(|b| format!("{:02x}", b)).collect();
    assert_eq!(hex, "e3b0c44298fc1c149afbf4c8996fb92427ae41e4649b934ca495991b7852b855");
}

#[test]
fn flipping_a_byte_fails_validation() {
    let db = db();
    let v = b"some value".to_vec();
    let c = db.generate_checksum(&v);
    assert!(db.validate_checksum(&v, &c));
    for i in 0..v.len() {
        let mut w = v.clone();
        w[i] ^= 0x01;
        assert!(!db.validate_checksum(&w, &c));
    }
    assert!(!db.validate_checksum(&v, &c[..31]));
}

#[test]
fn encoding_matches_bincode_layout() {
    let db = db();
    let bytes = db.encode_insert("key", b"value");
    let checksum = db.generate_checksum(b"value");
    let expected =
        bincode::serialize(&("key".to_string(), b"value".to_vec(), checksum.clone())).unwrap();
    assert_eq!(bytes, expected);
    assert_eq!(bytes.len(), 8 + 3 + 8 + 5 + 8 + 32);
}

#[test]
fn record_round_trip() {
    let r = Record { key: "k\u{e9}y".to_string(), value: vec![0, 1, 2, 255], checksum: vec![9; 32] };
    let mut bytes = r.encode();
    bytes.extend_from_slice(&[1, 2, 3]);
    let (back, next) = Record::decode_at(&bytes, 0).unwrap();
    assert_eq!(back.key, r.key);
    assert_eq!(back.value, r.value);
    assert_eq!(back.checksum, r.checksum);
    assert_eq!(next, bytes.len() - 3);
    assert!(Record::decode_at(&bytes, next).is_none());
}

#[test]
fn decode_rejects_invalid_utf8_key() {
    let mut bytes = vec![2, 0, 0, 0, 0, 0, 0, 0, 0xff, 0xfe];
    bytes.extend_from_slice(&[0u8; 16]);
    assert!(Record::decode_at(&bytes, 0).is_none());
}

#[test]
fn insert_then_get() {
    let db = db();
    let file = db.encode_insert("k", b"v");
    assert_eq!(db.lookup(&file, "k"), Some(b"v".to_vec()));
}

#[test]
fn earliest_insert_wins() {
    let db = db();
    let mut file = db.encode_insert("k", b"v1");
    file.extend(db.encode_insert("k", b"v2"));
    assert_eq!(db.lookup(&file, "k"), Some(b"v1".to_vec()));
}

#[test]
fn corrupt_digest_gives_none() {
    let db = db();
    let mut file = db.encode_insert("k", b"v");
    let last = file.len() - 1;
    file[last] ^= 0xff;
    assert_eq!(db.lookup(&file, "k"), None);
}

#[test]
fn corrupt_record_is_passed_over() {
    let db = db();
    let mut file = db.encode_insert("k", b"v1");
    let last = file.len() - 1;
    file[last] ^= 0xff;
    file.extend(db.encode_insert("k", b"v2"));
    assert_eq!(db.lookup(&file, "k"), Some(b"v2".to_vec()));
}

#[test]
fn absent_key_gives_none() {
    let db = db();
    let file = db.encode_insert("a", b"1");
    assert_eq!(db.lookup(&file, "b"), None);
    assert_eq!(db.lookup(&[], "b"), None);
}

#[test]
fn truncated_tail_is_end_of_data() {
    let db = db();
    let mut file = db.encode_insert("a", b"1");
    let second = db.encode_insert("b", b"2");
    file.extend_from_slice(&second[..second.len() - 1]);
    assert_eq!(db.lookup(&file, "a"), Some(b"1".to_vec()));
    assert_eq!(db.lookup(&file, "b"), None);
}

#[test]
fn end_to_end_unrelated_key() {
    let db = db();
    let mut file = db.encode_insert("key", b"value");
    assert_eq!(db.lookup(&file, "key"), Some(b"value".to_vec()));
    file.extend(db.encode_insert("other", b"x"));
    assert_eq!(db.lookup(&file, "key"), Some(b"value".to_vec()));
    assert_eq!(db.lookup(&file, "other"), Some(b"x".to_vec()));
}

#[test]
fn database_keeps_its_path() {
    assert_eq!(db().file_path(), "data.db");
}
