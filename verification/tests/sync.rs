use ddcp::error::Error;
use ddcp::ident::{Conclave, Peer};
use ddcp::proto::codec::{NodeStatus, Request};
use ddcp::sync::{check_site_id, known_peer, published_status, start_pull, PullStep};

fn status(site_id: &[u8], db_version: i64) -> NodeStatus {
    NodeStatus { site_id: site_id.to_vec(), db_version, route: vec![] }
}

#[test]
fn pull_up_to_date() {
    assert_eq!(
        start_pull(&status(b"s", 5), 5),
        PullStep::Done { merged: false, version: 5 }
    );
    assert_eq!(
        start_pull(&status(b"s", 3), 5),
        PullStep::Done { merged: false, version: 5 }
    );
}

#[test]
fn pull_fetches_newer_changes() {
    assert_eq!(
        start_pull(&status(b"s", 6), 5),
        PullStep::Fetch { request: Request::Changes { since_db_version: 5 } }
    );
    assert_eq!(
        start_pull(&status(b"s", 1), 0),
        PullStep::Fetch { request: Request::Changes { since_db_version: 0 } }
    );
}

#[test]
fn site_id_must_match() {
    assert!(check_site_id(&status(b"abc", 1), b"abc").is_ok());
    for bad in [&b"abd"[..], &b"ab"[..], &b"abcd"[..], &b""[..]] {
        match check_site_id(&status(b"abc", 1), bad) {
            Err(Error::Other(m)) => assert_eq!(m, "mismatched site_id"),
            other => panic!("unexpected {:?}", other),
        }
    }
}

#[test]
fn known_peer_or_error() {
    let mut ccl = Conclave::new();
    ccl.set_peer(Peer::new("bob".to_string(), "VLD0:b".to_string()));
    assert_eq!(known_peer(&ccl, "bob").expect("bob").dht_key(), "VLD0:b");
    match known_peer(&ccl, "eve") {
        Err(Error::Other(m)) => assert_eq!(m, "unknown peer"),
        other => panic!("unexpected {:?}", other),
    }
}

#[test]
fn published_status_or_error() {
    assert_eq!(published_status(Some(status(b"x", 2))).expect("ok"), status(b"x", 2));
    match published_status(None) {
        Err(Error::Other(m)) => assert_eq!(m, "peer missing status"),
        other => panic!("unexpected {:?}", other),
    }
}

#[test]
fn respond_to_status() {
    match ddcp::sync::respond(Request::Status, vec![1, 2], 7) {
        ddcp::sync::Reply::Ready(r) => assert_eq!(
            r,
            ddcp::proto::codec::Response::Status { site_id: vec![1, 2], db_version: 7 }
        ),
        other => panic!("unexpected {:?}", other),
    }
}

#[test]
fn respond_to_changes() {
    match ddcp::sync::respond(Request::Changes { since_db_version: 7 }, vec![1], 7) {
        ddcp::sync::Reply::Ready(r) => assert_eq!(
            r,
            ddcp::proto::codec::Response::Changes { site_id: vec![1], changes: vec![] }
        ),
        other => panic!("unexpected {:?}", other),
    }
    match ddcp::sync::respond(Request::Changes { since_db_version: 3 }, vec![1], 7) {
        ddcp::sync::Reply::Changes { site_id, since } => {
            assert_eq!(site_id, vec![1]);
            assert_eq!(since, 3);
        }
        other => panic!("unexpected {:?}", other),
    }
}
