use ddcp::proto::codec::NodeStatus;
use ddcp::tracker::{
    db_version_bytes, db_version_of, published_values, status_of, Tracker, DHT_SUBKEY_DB_VERSION,
    DHT_SUBKEY_PRIVATE_ROUTE, DHT_SUBKEY_SITE_ID,
};

#[test]
fn version_bytes_are_big_endian() {
    assert_eq!(db_version_bytes(1), vec![0, 0, 0, 0, 0, 0, 0, 1]);
    assert_eq!(db_version_bytes(0x0102030405060708), vec![1, 2, 3, 4, 5, 6, 7, 8]);
    assert_eq!(db_version_bytes(-1), vec![0xff; 8]);
    assert_eq!(db_version_bytes(42), 42i64.to_be_bytes().to_vec());
}

#[test]
fn version_bytes_roundtrip() {
    for v in [0i64, 1, -1, 42, i64::MAX, i64::MIN, 0x0102030405060708] {
        assert_eq!(db_version_of(&db_version_bytes(v)), Some(v));
    }
    assert_eq!(db_version_of(&[1, 2, 3]), None);
    assert_eq!(db_version_of(&[]), None);
}

#[test]
fn status_roundtrip_through_subkeys() {
    let status = NodeStatus { site_id: vec![7; 16], db_version: 12, route: vec![1, 2, 3] };
    let values = published_values(&status);
    assert_eq!(values.len(), 3);
    assert_eq!(values[0], (DHT_SUBKEY_PRIVATE_ROUTE, vec![1, 2, 3]));
    assert_eq!(values[1], (DHT_SUBKEY_SITE_ID, vec![7; 16]));
    assert_eq!(values[2], (DHT_SUBKEY_DB_VERSION, 12i64.to_be_bytes().to_vec()));
    let read = status_of(
        Some(values[0].1.clone()),
        Some(values[1].1.clone()),
        Some(values[2].1.clone()),
    );
    assert_eq!(read, Some(status));
}

#[test]
fn status_needs_every_subkey() {
    assert_eq!(status_of(None, Some(vec![1]), Some(vec![0; 8])), None);
    assert_eq!(status_of(Some(vec![1]), None, Some(vec![0; 8])), None);
    assert_eq!(status_of(Some(vec![1]), Some(vec![1]), None), None);
    assert_eq!(status_of(Some(vec![1]), Some(vec![1]), Some(vec![0; 7])), None);
}

#[test]
fn tracker_publishes_newer_versions_once() {
    let mut t = Tracker::new();
    assert!(t.observe(0));
    assert!(!t.observe(0));
    assert!(t.observe(3));
    assert!(!t.observe(2));
    assert!(!t.observe(3));
    assert!(t.observe(4));
}
