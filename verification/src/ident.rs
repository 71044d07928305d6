//! The peers a node replicates from: each known by a unique name and the
//! public key of the DHT record where it publishes its status.
use vstd::prelude::*;
use vstd::utf8::*;
use crate::error::{Error, is_other};
use crate::text::{text_eq, string_from_utf8, utf8_error_text};

verus! {

/// A remote peer.
#[derive(Debug, Clone)]
pub struct Peer {
    name: String,
    dht_public_key: String,
}

pub struct PeerView {
    pub name: Seq<char>,
    pub dht_public_key: Seq<char>,
}

impl View for Peer {
    type V = PeerView;

    closed spec fn view(&self) -> PeerView {
        PeerView { name: self.name@, dht_public_key: self.dht_public_key@ }
    }
}

impl Peer {
    /// A peer named `name` whose DHT record has the public key
    /// `dht_public_key` (in its text form).
    pub fn new(name: String, dht_public_key: String) -> (p: Peer)
        ensures
            p@ == (PeerView { name: name@, dht_public_key: dht_public_key@ }),
    {
        Peer { name, dht_public_key }
    }

    pub fn name(&self) -> (r: &str)
        ensures
            r@ == self@.name,
    {
        self.name.as_str()
    }

    pub fn dht_key(&self) -> (r: &str)
        ensures
            r@ == self@.dht_public_key,
    {
        self.dht_public_key.as_str()
    }
}

/// The name of a peer stored under the key `key`: its UTF-8 text, or the
/// failure that decoding it reports.
pub fn peer_name(key: Vec<u8>) -> (r: Result<String, Error>)
    ensures
        r is Ok <==> valid_utf8(key@),
        r matches Ok(s) ==> encode_utf8(s@) == key@,
        r matches Err(e) ==> is_other(e, utf8_error_text(key@)),
{
    match string_from_utf8(key) {
        Ok(s) => Ok(s),
        Err(m) => Err(Error::Other(m)),
    }
}

/// The views of a sequence of peers.
pub open spec fn peers_view(s: Seq<Peer>) -> Seq<PeerView> {
    s.map_values(|p: Peer| p@)
}

/// Whether no two peers share a name.
pub open spec fn names_unique(s: Seq<PeerView>) -> bool {
    forall|i: int, j: int| 0 <= i < j < s.len() ==> s[i].name != s[j].name
}

/// Whether some peer of `s` is named `name`.
pub open spec fn has_name(s: Seq<PeerView>, name: Seq<char>) -> bool {
    exists|i: int| 0 <= i < s.len() && s[i].name == name
}

/// The peers by name.
pub open spec fn peer_map(s: Seq<PeerView>) -> Map<Seq<char>, PeerView>
    decreases s.len(),
{
    if s.len() == 0 {
        Map::empty()
    } else {
        peer_map(s.drop_last()).insert(s.last().name, s.last())
    }
}

/// A name is in the map exactly when a peer has it.
pub proof fn lemma_peer_map_dom(s: Seq<PeerView>, name: Seq<char>)
    ensures
        peer_map(s).contains_key(name) <==> has_name(s, name),
    decreases s.len(),
{
    if s.len() > 0 {
        let t = s.drop_last();
        lemma_peer_map_dom(t, name);
        if has_name(t, name) {
            let i = choose|i: int| 0 <= i < t.len() && t[i].name == name;
            assert(s[i] == t[i]);
        }
        if has_name(s, name) && s.last().name != name {
            let i = choose|i: int| 0 <= i < s.len() && s[i].name == name;
            assert(i < t.len());
            assert(t[i] == s[i]);
        }
    }
}

/// Among peers with unique names, a peer is what the map holds for its name.
pub proof fn lemma_peer_map_at(s: Seq<PeerView>, i: int)
    requires
        names_unique(s),
        0 <= i < s.len(),
    ensures
        peer_map(s).contains_key(s[i].name),
        peer_map(s)[s[i].name] == s[i],
    decreases s.len(),
{
    let t = s.drop_last();
    if i < s.len() - 1 {
        assert(t[i] == s[i]);
        lemma_peer_map_at(t, i);
    }
}

/// Replacing the peer at `j` by one of the same name replaces the map entry.
proof fn lemma_peer_map_update(s: Seq<PeerView>, j: int, p: PeerView)
    requires
        names_unique(s),
        0 <= j < s.len(),
        s[j].name == p.name,
    ensures
        names_unique(s.update(j, p)),
        peer_map(s.update(j, p)) == peer_map(s).insert(p.name, p),
{
    let u = s.update(j, p);
    assert(names_unique(u));
    assert forall|k: Seq<char>| #[trigger] peer_map(u).contains_key(k) == peer_map(s).insert(
        p.name,
        p,
    ).contains_key(k) by {
        lemma_peer_map_dom(u, k);
        lemma_peer_map_dom(s, k);
        if has_name(s, k) {
            let i = choose|i: int| 0 <= i < s.len() && s[i].name == k;
            assert(u[i].name == k);
        }
        if has_name(u, k) {
            let i = choose|i: int| 0 <= i < u.len() && u[i].name == k;
            assert(s[i].name == k);
        }
    }
    assert forall|k: Seq<char>| #[trigger] peer_map(u).contains_key(k) implies peer_map(u)[k]
        == peer_map(s).insert(p.name, p)[k] by {
        lemma_peer_map_dom(u, k);
        let i = choose|i: int| 0 <= i < u.len() && u[i].name == k;
        lemma_peer_map_at(u, i);
        if i != j {
            lemma_peer_map_at(s, i);
        }
    }
    assert(peer_map(u) =~= peer_map(s).insert(p.name, p));
}

/// Removing the peer at `j` removes its name from the map.
proof fn lemma_peer_map_remove(s: Seq<PeerView>, j: int)
    requires
        names_unique(s),
        0 <= j < s.len(),
    ensures
        names_unique(s.remove(j)),
        peer_map(s.remove(j)) == peer_map(s).remove(s[j].name),
{
    let u = s.remove(j);
    let n = s[j].name;
    assert forall|a: int, b: int| 0 <= a < b < u.len() implies u[a].name != u[b].name by {
        let a2 = if a < j { a } else { a + 1 };
        let b2 = if b < j { b } else { b + 1 };
        assert(u[a] == s[a2]);
        assert(u[b] == s[b2]);
    }
    assert forall|k: Seq<char>| #[trigger] peer_map(u).contains_key(k) == peer_map(s).remove(
        n,
    ).contains_key(k) by {
        lemma_peer_map_dom(u, k);
        lemma_peer_map_dom(s, k);
        if has_name(s, k) && k != n {
            let i = choose|i: int| 0 <= i < s.len() && s[i].name == k;
            let i2 = if i < j { i } else { i - 1 };
            assert(u[i2] == s[i]);
        }
        if has_name(u, k) {
            let i = choose|i: int| 0 <= i < u.len() && u[i].name == k;
            let i2 = if i < j { i } else { i + 1 };
            assert(u[i] == s[i2]);
        }
    }
    assert forall|k: Seq<char>| #[trigger] peer_map(u).contains_key(k) implies peer_map(u)[k]
        == peer_map(s).remove(n)[k] by {
        lemma_peer_map_dom(u, k);
        let i = choose|i: int| 0 <= i < u.len() && u[i].name == k;
        let i2 = if i < j { i } else { i + 1 };
        assert(u[i] == s[i2]);
        lemma_peer_map_at(u, i);
        lemma_peer_map_at(s, i2);
    }
    assert(peer_map(u) =~= peer_map(s).remove(n));
}

/// The peers the local node replicates from, each under its own name.
pub struct Conclave {
    remotes: Vec<Peer>,
}

impl View for Conclave {
    type V = Map<Seq<char>, PeerView>;

    closed spec fn view(&self) -> Map<Seq<char>, PeerView> {
        peer_map(peers_view(self.remotes@))
    }
}

impl Conclave {
    /// No two remotes share a name.
    #[verifier::type_invariant]
    pub closed spec fn wf(&self) -> bool {
        names_unique(peers_view(self.remotes@))
    }

    /// A conclave with no peers.
    pub fn new() -> (c: Conclave)
        ensures
            c@ == Map::<Seq<char>, PeerView>::empty(),
    {
        Conclave { remotes: Vec::new() }
    }

    /// Position of the peer named `name`, if any.
    fn find(&self, name: &str) -> (r: Option<usize>)
        ensures
            r is None <==> !self@.contains_key(name@),
            r matches Some(i) ==> i < self.remotes@.len() && self.remotes@[i as int]@.name
                == name@,
    {
        proof {
            use_type_invariant(self);
        }
        let ghost s = peers_view(self.remotes@);
        proof {
            lemma_peer_map_dom(s, name@);
        }
        let mut i: usize = 0;
        while i < self.remotes.len()
            invariant
                s == peers_view(self.remotes@),
                i <= self.remotes@.len(),
                forall|j: int| 0 <= j < i ==> s[j].name != name@,
            decreases self.remotes@.len() - i,
        {
            if text_eq(self.remotes[i].name.as_str(), name) {
                assert(s[i as int] == self.remotes@[i as int]@);
                assert(s[i as int].name == name@);
                assert(has_name(s, name@));
                proof {
                    lemma_peer_map_dom(s, name@);
                }
                return Some(i);
            }
            assert(s[i as int] == self.remotes@[i as int]@);
            i = i + 1;
        }
        assert(!has_name(s, name@));
        None
    }

    /// The peer named `name`, if any.
    pub fn peer(&self, name: &str) -> (r: Option<&Peer>)
        ensures
            r is Some <==> self@.contains_key(name@),
            r matches Some(p) ==> p@ == self@[name@],
    {
        proof {
            use_type_invariant(self);
        }
        match self.find(name) {
            None => None,
            Some(i) => {
                proof {
                    lemma_peer_map_at(peers_view(self.remotes@), i as int);
                }
                Some(&self.remotes[i])
            },
        }
    }

    /// Adds a peer, or replaces the peer of the same name.
    pub fn set_peer(&mut self, peer: Peer)
        ensures
            final(self)@ == old(self)@.insert(peer@.name, peer@),
    {
        proof {
            use_type_invariant(&*self);
        }
        let ghost s = peers_view(self.remotes@);
        let ghost pv = peer@;
        let found = self.find(peer.name.as_str());
        let mut remotes: Vec<Peer> = Vec::new();
        std::mem::swap(&mut remotes, &mut self.remotes);
        match found {
            Some(i) => {
                proof {
                    lemma_peer_map_update(s, i as int, pv);
                }
                remotes.set(i, peer);
                assert(peers_view(remotes@) =~= s.update(i as int, pv));
            },
            None => {
                proof {
                    lemma_peer_map_dom(s, pv.name);
                    assert forall|a: int, b: int|
                        0 <= a < b < s.len() + 1 implies #[trigger] s.push(pv)[a].name != #[trigger] s.push(
                        pv,
                    )[b].name by {
                        if b == s.len() {
                            assert(s.push(pv)[a] == s[a]);
                        }
                    }
                    assert(s.push(pv).drop_last() =~= s);
                }
                remotes.push(peer);
                assert(peers_view(remotes@) =~= s.push(pv));
            },
        }
        self.remotes = remotes;
    }

    /// Removes the peer named `name`; whether there was one.
    pub fn remove_peer(&mut self, name: &str) -> (removed: bool)
        ensures
            removed == old(self)@.contains_key(name@),
            final(self)@ == old(self)@.remove(name@),
    {
        proof {
            use_type_invariant(&*self);
        }
        let ghost s = peers_view(self.remotes@);
        match self.find(name) {
            Some(i) => {
                proof {
                    lemma_peer_map_remove(s, i as int);
                }
                let mut remotes: Vec<Peer> = Vec::new();
                std::mem::swap(&mut remotes, &mut self.remotes);
                remotes.remove(i);
                assert(peers_view(remotes@) =~= s.remove(i as int));
                self.remotes = remotes;
                true
            },
            None => {
                assert(old(self)@.remove(name@) =~= old(self)@);
                false
            },
        }
    }

    /// The name of a peer whose DHT key is `dht_key`, if there is one.
    pub fn name_of(&self, dht_key: &str) -> (r: Option<String>)
        ensures
            r matches Some(n) ==> self@.contains_key(n@) && self@[n@].dht_public_key == dht_key@,
            r is None ==> forall|n: Seq<char>| #[trigger] self@.contains_key(n) ==> self@[n].dht_public_key
                != dht_key@,
    {
        proof {
            use_type_invariant(self);
        }
        let ghost s = peers_view(self.remotes@);
        let mut i: usize = 0;
        while i < self.remotes.len()
            invariant
                s == peers_view(self.remotes@),
                names_unique(s),
                i <= self.remotes@.len(),
                forall|j: int| 0 <= j < i ==> s[j].dht_public_key != dht_key@,
            decreases self.remotes@.len() - i,
        {
            assert(s[i as int] == self.remotes@[i as int]@);
            if text_eq(self.remotes[i].dht_public_key.as_str(), dht_key) {
                proof {
                    lemma_peer_map_at(s, i as int);
                }
                return Some(self.remotes[i].name.clone());
            }
            i = i + 1;
        }
        proof {
            assert forall|n: Seq<char>| #[trigger] self@.contains_key(n) implies self@[n].dht_public_key
                != dht_key@ by {
                lemma_peer_map_dom(s, n);
                let j = choose|j: int| 0 <= j < s.len() && s[j].name == n;
                lemma_peer_map_at(s, j);
            }
        }
        None
    }

    /// Every peer, each once, in no promised order.
    pub fn peers(&self) -> (r: &Vec<Peer>)
        ensures
            r@.len() == self@.len(),
            names_unique(peers_view(r@)),
            forall|i: int| 0 <= i < r@.len() ==> #[trigger] self@.contains_key(r@[i]@.name)
                && self@[r@[i]@.name] == r@[i]@,
            forall|name: Seq<char>| #[trigger] self@.contains_key(name) ==> has_name(
                peers_view(r@),
                name,
            ),
    {
        proof {
            use_type_invariant(self);
        }
        let ghost s = peers_view(self.remotes@);
        proof {
            lemma_peer_map_len(s);
            assert forall|i: int| 0 <= i < self.remotes@.len() implies #[trigger] self@.contains_key(
                self.remotes@[i]@.name,
            ) && self@[self.remotes@[i]@.name] == self.remotes@[i]@ by {
                assert(s[i] == self.remotes@[i]@);
                lemma_peer_map_at(s, i);
            }
            assert forall|name: Seq<char>| #[trigger] self@.contains_key(name) implies has_name(
                s,
                name,
            ) by {
                lemma_peer_map_dom(s, name);
            }
        }
        &self.remotes
    }
}

/// Peers with unique names have as many map entries as peers.
pub proof fn lemma_peer_map_len(s: Seq<PeerView>)
    requires
        names_unique(s),
    ensures
        peer_map(s).len() == s.len(),
        peer_map(s).dom().finite(),
    decreases s.len(),
{
    if s.len() > 0 {
        let t = s.drop_last();
        lemma_peer_map_len(t);
        lemma_peer_map_dom(t, s.last().name);
        if has_name(t, s.last().name) {
            let i = choose|i: int| 0 <= i < t.len() && t[i].name == s.last().name;
            assert(s[i] == t[i]);
            assert(false);
        }
    }
}

/// Looking a name up after `set_peer(p)` finds `p` for `p`'s name and, for
/// every other name, what it found before.
pub proof fn lemma_peer_after_set_peer(before: Map<Seq<char>, PeerView>, p: PeerView, name: Seq<char>)
    ensures
        before.insert(p.name, p).contains_key(p.name),
        before.insert(p.name, p)[p.name] == p,
        name != p.name ==> before.insert(p.name, p).contains_key(name) == before.contains_key(name),
        name != p.name && before.contains_key(name) ==> before.insert(p.name, p)[name]
            == before[name],
{
}

/// `set_peer` adds one peer for a new name and none for a known one.
pub proof fn lemma_set_peer_count(c: &Conclave, p: PeerView)
    requires
        c.wf(),
    ensures
        c@.insert(p.name, p).len() == c@.len() + if c@.contains_key(p.name) {
            0int
        } else {
            1int
        },
{
    lemma_peer_map_len(peers_view(c.remotes@));
    if c@.contains_key(p.name) {
        assert(c@.insert(p.name, p).dom() =~= c@.dom());
    }
}

/// Removing a peer that `set_peer` added under a new name gives back the
/// peers there were before.
pub proof fn lemma_remove_undoes_set_peer(before: Map<Seq<char>, PeerView>, p: PeerView)
    requires
        !before.contains_key(p.name),
    ensures
        before.insert(p.name, p).remove(p.name) == before,
{
    assert(before.insert(p.name, p).remove(p.name) =~= before);
}

} // verus!
