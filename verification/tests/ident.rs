use ddcp::ident::{Conclave, Peer};
use ddcp::sync::remotes;

#[test]
fn conclave_counts_peers() {
    let mut ccl = Conclave::new();
    assert_eq!(ccl.peers().len(), 0);
    let peer = Peer::new(
        "bob".to_string(),
        "VLD0:7lxDEabK_qgjbe38RtBa3IZLrud84P6NhGP-pRTZzdQ".to_string(),
    );
    ccl.set_peer(peer);
    assert_eq!(ccl.peers().len(), 1);
}

#[test]
fn set_peer_then_peer() {
    let mut ccl = Conclave::new();
    ccl.set_peer(Peer::new("alice".to_string(), "VLD0:a".to_string()));
    ccl.set_peer(Peer::new("bob".to_string(), "VLD0:b".to_string()));
    assert_eq!(ccl.peer("alice").expect("alice").dht_key(), "VLD0:a");
    assert_eq!(ccl.peer("bob").expect("bob").dht_key(), "VLD0:b");
    assert!(ccl.peer("carol").is_none());
    // Setting a known name replaces its peer.
    ccl.set_peer(Peer::new("alice".to_string(), "VLD0:c".to_string()));
    assert_eq!(ccl.peers().len(), 2);
    assert_eq!(ccl.peer("alice").expect("alice").dht_key(), "VLD0:c");
    assert_eq!(ccl.peer("alice").expect("alice").name(), "alice");
}

#[test]
fn remove_peer_forgets_it() {
    let mut ccl = Conclave::new();
    ccl.set_peer(Peer::new("alice".to_string(), "VLD0:a".to_string()));
    ccl.set_peer(Peer::new("bob".to_string(), "VLD0:b".to_string()));
    assert!(ccl.remove_peer("alice"));
    assert!(!ccl.remove_peer("alice"));
    assert!(ccl.peer("alice").is_none());
    assert_eq!(ccl.peer("bob").expect("bob").dht_key(), "VLD0:b");
    assert_eq!(ccl.peers().len(), 1);
}

#[test]
fn remotes_lists_name_and_key() {
    let mut ccl = Conclave::new();
    ccl.set_peer(Peer::new("alice".to_string(), "VLD0:a".to_string()));
    ccl.set_peer(Peer::new("bob".to_string(), "VLD0:b".to_string()));
    let mut r = remotes(&ccl);
    r.sort();
    assert_eq!(
        r,
        vec![
            ("alice".to_string(), "VLD0:a".to_string()),
            ("bob".to_string(), "VLD0:b".to_string())
        ]
    );
}

#[test]
fn peer_name_from_key() {
    assert_eq!(ddcp::ident::peer_name(b"alice".to_vec()).expect("ok"), "alice");
    match ddcp::ident::peer_name(vec![0x61, 0xff]) {
        Err(ddcp::error::Error::Other(m)) => {
            assert_eq!(m, String::from_utf8(vec![0x61, 0xff]).unwrap_err().to_string())
        }
        other => panic!("unexpected {:?}", other),
    }
}

#[test]
fn name_of_dht_key() {
    let mut ccl = Conclave::new();
    ccl.set_peer(Peer::new("alice".to_string(), "VLD0:a".to_string()));
    ccl.set_peer(Peer::new("bob".to_string(), "VLD0:b".to_string()));
    assert_eq!(ccl.name_of("VLD0:b"), Some("bob".to_string()));
    assert_eq!(ccl.name_of("VLD0:c"), None);
}
