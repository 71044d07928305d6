//! What each update from the node means: while waiting for the network,
//! and while serving.
use vstd::prelude::*;
use crate::error::{Error, is_other};

verus! {

/// An update from the node, as far as waiting for the network reads it.
#[derive(Debug, Clone)]
pub enum NetworkUpdate {
    /// The node's attachment changed; whether it can reach the public
    /// internet now.
    Attachment { public_internet_ready: bool },
    /// Any other update.
    Other,
    /// The stream of updates ended, with the reason given.
    Closed(String),
}

/// Where the wait stands after an update.
#[derive(Debug, Clone, Copy, PartialEq, Eq)]
pub enum Wait {
    Ready,
    Waiting,
}

/// The wait after an update: the network is ready once the node can reach
/// the public internet, and the wait fails when the updates end.
pub fn on_network_update(update: NetworkUpdate) -> (r: Result<Wait, Error>)
    ensures
        match update {
            NetworkUpdate::Attachment { public_internet_ready } => r == Ok::<Wait, Error>(
                if public_internet_ready {
                    Wait::Ready
                } else {
                    Wait::Waiting
                },
            ),
            NetworkUpdate::Other => r == Ok::<Wait, Error>(Wait::Waiting),
            NetworkUpdate::Closed(reason) => r matches Err(e) && is_other(e, reason@),
        },
{
    match update {
        NetworkUpdate::Attachment { public_internet_ready } => {
            if public_internet_ready {
                Ok(Wait::Ready)
            } else {
                Ok(Wait::Waiting)
            }
        },
        NetworkUpdate::Other => Ok(Wait::Waiting),
        NetworkUpdate::Closed(reason) => Err(Error::Other(reason)),
    }
}

/// The kind of an update from the node, as serving reads it.
#[derive(Debug, Clone, Copy, PartialEq, Eq)]
pub enum NodeUpdate {
    /// A peer called this node.
    AppCall,
    /// A private route changed.
    RouteChange,
    /// The node shuts down.
    Shutdown,
    /// Any other update.
    Other,
}

/// What serving does for an update.
#[derive(Debug, Clone, Copy, PartialEq, Eq)]
pub enum ServeStep {
    /// Answer the call.
    Answer,
    /// Release the node's private route, so that the next announcement
    /// publishes a new one.
    ReleaseRoute,
    /// Stop: the node is shutting down.
    Stop,
    /// Nothing.
    Ignore,
}

/// The step for an update while serving.
pub fn on_node_update(update: NodeUpdate) -> (s: ServeStep)
    ensures
        s == match update {
            NodeUpdate::AppCall => ServeStep::Answer,
            NodeUpdate::RouteChange => ServeStep::ReleaseRoute,
            NodeUpdate::Shutdown => ServeStep::Stop,
            NodeUpdate::Other => ServeStep::Ignore,
        },
{
    match update {
        NodeUpdate::AppCall => ServeStep::Answer,
        NodeUpdate::RouteChange => ServeStep::ReleaseRoute,
        NodeUpdate::Shutdown => ServeStep::Stop,
        NodeUpdate::Other => ServeStep::Ignore,
    }
}

} // verus!
