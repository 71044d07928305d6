use ddcp::error::Error;
use ddcp::node::{on_network_update, on_node_update, NetworkUpdate, NodeUpdate, ServeStep, Wait};

#[test]
fn network_wait_steps() {
    assert!(matches!(
        on_network_update(NetworkUpdate::Attachment { public_internet_ready: true }),
        Ok(Wait::Ready)
    ));
    assert!(matches!(
        on_network_update(NetworkUpdate::Attachment { public_internet_ready: false }),
        Ok(Wait::Waiting)
    ));
    assert!(matches!(on_network_update(NetworkUpdate::Other), Ok(Wait::Waiting)));
    match on_network_update(NetworkUpdate::Closed("Disconnected".to_string())) {
        Err(Error::Other(m)) => assert_eq!(m, "Disconnected"),
        other => panic!("unexpected {:?}", other),
    }
}

#[test]
fn serve_steps() {
    assert_eq!(on_node_update(NodeUpdate::AppCall), ServeStep::Answer);
    assert_eq!(on_node_update(NodeUpdate::RouteChange), ServeStep::ReleaseRoute);
    assert_eq!(on_node_update(NodeUpdate::Shutdown), ServeStep::Stop);
    assert_eq!(on_node_update(NodeUpdate::Other), ServeStep::Ignore);
}
