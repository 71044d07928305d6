use ddcp::db::{merged_version, tracked_version, wants_changes};
use ddcp::proto::codec::{Change, Value};

fn change(db_version: i64) -> Change {
    Change {
        table: "canvas".to_string(),
        pk: vec![1],
        cid: "value".to_string(),
        val: Value::Text("x".to_string()),
        col_version: 1,
        db_version,
        cl: 1,
        seq: 0,
    }
}

#[test]
fn tracked_version_of_row() {
    assert_eq!(tracked_version(Some(Some(7))), 7);
    assert_eq!(tracked_version(Some(None)), 0);
    assert_eq!(tracked_version(None), 0);
}

#[test]
fn merged_version_is_greatest() {
    assert_eq!(merged_version(&vec![]), 0);
    assert_eq!(merged_version(&vec![change(3), change(9), change(4)]), 9);
    assert_eq!(merged_version(&vec![change(-3), change(-1)]), 0);
}

#[test]
fn wants_changes_when_behind() {
    assert!(wants_changes(3, 4));
    assert!(!wants_changes(4, 4));
    assert!(!wants_changes(5, 4));
}
