//! A node's status as it publishes it in the subkeys of its DHT record, and
//! the local tracker that decides when to publish it again.
use vstd::prelude::*;
use vstd::bytes::*;
use vstd::slice::*;
use crate::proto::codec::{NodeStatus, NodeStatusView};

verus! {

/// Number of subkeys of a node's DHT record.
pub const DHT_N_SUBKEYS: u16 = 3;

/// Subkey holding the node's private route.
pub const DHT_SUBKEY_PRIVATE_ROUTE: u32 = 0;

/// Subkey holding the site id of the node's database.
pub const DHT_SUBKEY_SITE_ID: u32 = 1;

/// Subkey holding the version of the node's database.
pub const DHT_SUBKEY_DB_VERSION: u32 = 2;

/// The eight big-endian bytes of a database version.
pub open spec fn version_bytes(v: i64) -> Seq<u8> {
    spec_u64_to_le_bytes(v as u64).reverse()
}

/// The bytes of the reverse of a sequence of bytes.
fn reversed(b: &[u8]) -> (r: Vec<u8>)
    ensures
        r@ == b@.reverse(),
{
    let mut r: Vec<u8> = Vec::new();
    let mut i: usize = b.len();
    while i > 0
        invariant
            i <= b@.len(),
            r@ == b@.subrange(i as int, b@.len() as int).reverse(),
        decreases i,
    {
        i = i - 1;
        r.push(b[i]);
        assert(r@ =~= b@.subrange(i as int, b@.len() as int).reverse());
    }
    assert(b@.subrange(0, b@.len() as int) =~= b@);
    r
}

/// The big-endian bytes of a database version, as published.
pub fn db_version_bytes(v: i64) -> (r: Vec<u8>)
    ensures
        r@ == version_bytes(v),
        r@.len() == 8,
{
    let le = u64_to_le_bytes(v as u64);
    reversed(le.as_slice())
}

/// The database version that published bytes hold, when there are eight.
pub open spec fn spec_version_of(b: Seq<u8>) -> Option<i64> {
    if b.len() == 8 {
        Some(spec_u64_from_le_bytes(b.reverse()) as i64)
    } else {
        None
    }
}

pub fn db_version_of(b: &[u8]) -> (r: Option<i64>)
    ensures
        r == spec_version_of(b@),
{
    if b.len() != 8 {
        return None;
    }
    let le = reversed(b);
    Some(u64_from_le_bytes(le.as_slice()) as i64)
}

/// Reading a published version gives back the version.
pub proof fn lemma_version_roundtrip(v: i64)
    ensures
        spec_version_of(version_bytes(v)) == Some(v),
{
    lemma_auto_spec_u64_to_from_le_bytes();
    let le = spec_u64_to_le_bytes(v as u64);
    assert(le.reverse().reverse() =~= le);
    assert((v as u64) as i64 == v) by (bit_vector);
}

/// The node status that a peer's published subkeys make up: all three must
/// be there, and the version must be eight bytes.
pub open spec fn spec_status_of(
    route: Option<Seq<u8>>,
    site_id: Option<Seq<u8>>,
    db_version: Option<Seq<u8>>,
) -> Option<NodeStatusView> {
    match (route, site_id, db_version) {
        (Some(r), Some(s), Some(v)) => match spec_version_of(v) {
            Some(n) => Some(NodeStatusView { site_id: s, db_version: n, route: r }),
            None => None,
        },
        _ => None,
    }
}

/// The bytes of a subkey's value, if it has one.
pub open spec fn bytes_of(v: Option<Vec<u8>>) -> Option<Seq<u8>> {
    match v {
        Some(b) => Some(b@),
        None => None,
    }
}

/// The node status read from a peer's published subkeys.
pub fn status_of(route: Option<Vec<u8>>, site_id: Option<Vec<u8>>, db_version: Option<Vec<u8>>) -> (r:
    Option<NodeStatus>)
    ensures
        match r {
            Some(s) => spec_status_of(
                bytes_of(route),
                bytes_of(site_id),
                bytes_of(db_version),
            ) == Some(s@),
            None => spec_status_of(
                bytes_of(route),
                bytes_of(site_id),
                bytes_of(db_version),
            ) is None,
        },
{
    match (route, site_id, db_version) {
        (Some(r), Some(s), Some(v)) => match db_version_of(v.as_slice()) {
            Some(n) => Some(NodeStatus { site_id: s, db_version: n, route: r }),
            None => None,
        },
        _ => None,
    }
}

/// What a node publishes in each subkey for its status.
pub fn published_values(status: &NodeStatus) -> (r: Vec<(u32, Vec<u8>)>)
    ensures
        r@.len() == 3,
        r@[0].0 == DHT_SUBKEY_PRIVATE_ROUTE && r@[0].1@ == status.route@,
        r@[1].0 == DHT_SUBKEY_SITE_ID && r@[1].1@ == status.site_id@,
        r@[2].0 == DHT_SUBKEY_DB_VERSION && r@[2].1@ == version_bytes(status.db_version),
{
    let mut r: Vec<(u32, Vec<u8>)> = Vec::new();
    r.push((DHT_SUBKEY_PRIVATE_ROUTE, slice_to_vec(status.route.as_slice())));
    r.push((DHT_SUBKEY_SITE_ID, slice_to_vec(status.site_id.as_slice())));
    r.push((DHT_SUBKEY_DB_VERSION, db_version_bytes(status.db_version)));
    r
}

/// Reading back the subkeys a node published gives the status it published.
pub proof fn lemma_status_roundtrip(s: NodeStatusView)
    ensures
        spec_status_of(Some(s.route), Some(s.site_id), Some(version_bytes(s.db_version))) == Some(
            s,
        ),
{
    lemma_version_roundtrip(s.db_version);
}

/// The local tracker: the version it last published, or -1 before the
/// first publication.
pub struct Tracker {
    published: i64,
}

impl View for Tracker {
    type V = i64;

    closed spec fn view(&self) -> i64 {
        self.published
    }
}

impl Tracker {
    /// A tracker that has published nothing yet.
    pub fn new() -> (t: Tracker)
        ensures
            t@ == -1,
    {
        Tracker { published: -1 }
    }

    /// Sees the database at `db_version`; whether to publish its status now,
    /// which is when the version is newer than the one last published.
    pub fn observe(&mut self, db_version: i64) -> (publish: bool)
        ensures
            publish == (db_version > old(self)@),
            final(self)@ == if publish {
                db_version
            } else {
                old(self)@
            },
    {
        if db_version <= self.published {
            false
        } else {
            self.published = db_version;
            true
        }
    }
}

/// The tracker publishes a version at most once, and the versions it
/// publishes only grow: after it sees `v`, it publishes no version up to `v`.
pub proof fn lemma_tracker_monotone(published: i64, v: i64, w: i64)
    ensures
        ({
            let after = if v > published {
                v
            } else {
                published
            };
            &&& after >= published
            &&& after >= v
            &&& w <= v ==> !(w > after)
        }),
{
}

} // verus!
