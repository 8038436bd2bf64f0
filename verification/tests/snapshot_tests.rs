use points_store::atomic::saturating_add;
use points_store::db::Db;
use points_store::snapshot::{decode_db, encode_db};

fn sample_db() -> Db {
    let mut db = Db::default();
    db.update_infallible("general", "alice", 100, saturating_add);
    db.update_infallible("general", "bob", 7, saturating_add);
    db.update_infallible("caf\u{e9}", "ren\u{e9}e", u64::MAX, saturating_add);
    db.channel_db("empty");
    db
}

#[test]
fn round_trip_empty_store() {
    let db = Db::default();
    let bytes = encode_db(&db);
    assert_eq!(bytes, 0u64.to_be_bytes().to_vec());
    let back = decode_db(&bytes).unwrap();
    assert_eq!(back.get("any", "one"), 0);
}

#[test]
fn round_trip_preserves_every_balance() {
    let db = sample_db();
    let bytes = encode_db(&db);
    let back = decode_db(&bytes).unwrap();
    assert_eq!(back.get("general", "alice"), 100);
    assert_eq!(back.get("general", "bob"), 7);
    assert_eq!(back.get("caf\u{e9}", "ren\u{e9}e"), u64::MAX);
    assert_eq!(back.get("empty", "nobody"), 0);
    assert_eq!(back.get("general", "carol"), 0);
    // a second trip gives identical bytes
    assert_eq!(encode_db(&back), bytes);
}

#[test]
fn exact_layout_of_one_entry() {
    let mut db = Db::default();
    db.update_infallible("ch", "u", 9, saturating_add);
    let bytes = encode_db(&db);
    let mut expected = Vec::new();
    expected.extend_from_slice(&1u64.to_be_bytes()); // one channel
    expected.extend_from_slice(&2u64.to_be_bytes()); // name length
    expected.extend_from_slice(b"ch");
    expected.extend_from_slice(&1u64.to_be_bytes()); // one user
    expected.extend_from_slice(&1u64.to_be_bytes()); // id length
    expected.extend_from_slice(b"u");
    expected.extend_from_slice(&9u64.to_be_bytes()); // balance
    assert_eq!(bytes, expected);
}

#[test]
fn truncated_snapshot_is_rejected() {
    let bytes = encode_db(&sample_db());
    for cut in [0, 3, 8, 9, bytes.len() - 1] {
        assert!(decode_db(&bytes[..cut].to_vec()).is_none(), "cut at {cut}");
    }
}

#[test]
fn trailing_bytes_are_rejected() {
    let mut bytes = encode_db(&sample_db());
    bytes.push(0);
    assert!(decode_db(&bytes).is_none());
}

#[test]
fn ill_formed_name_bytes_are_rejected() {
    let mut bytes = Vec::new();
    bytes.extend_from_slice(&1u64.to_be_bytes());
    bytes.extend_from_slice(&2u64.to_be_bytes());
    bytes.extend_from_slice(&[0xFF, 0xFE]); // not UTF-8
    bytes.extend_from_slice(&0u64.to_be_bytes());
    assert!(decode_db(&bytes).is_none());
}

#[test]
fn duplicate_channel_names_are_rejected() {
    let mut bytes = Vec::new();
    bytes.extend_from_slice(&2u64.to_be_bytes());
    for _ in 0..2 {
        bytes.extend_from_slice(&2u64.to_be_bytes());
        bytes.extend_from_slice(b"ch");
        bytes.extend_from_slice(&0u64.to_be_bytes());
    }
    assert!(decode_db(&bytes).is_none());
}

#[test]
fn duplicate_user_ids_are_rejected() {
    let mut bytes = Vec::new();
    bytes.extend_from_slice(&1u64.to_be_bytes());
    bytes.extend_from_slice(&2u64.to_be_bytes());
    bytes.extend_from_slice(b"ch");
    bytes.extend_from_slice(&2u64.to_be_bytes());
    for v in [1u64, 2] {
        bytes.extend_from_slice(&1u64.to_be_bytes());
        bytes.extend_from_slice(b"u");
        bytes.extend_from_slice(&v.to_be_bytes());
    }
    assert!(decode_db(&bytes).is_none());
}
