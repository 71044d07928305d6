//! Replication of cr-sqlite databases between peers: the messages peers
//! exchange, their encoding, and the decisions around sending and merging
//! changes.
use vstd::prelude::*;

pub mod cli;
pub mod command;
pub mod db;
pub mod error;
pub mod ident;
pub mod node;
pub mod path;
pub mod proto;
pub mod sync;
pub mod text;
pub mod tracker;

verus! {

} // verus!
