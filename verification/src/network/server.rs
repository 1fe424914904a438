//! A node's identity and the addresses of its peers.

use vstd::prelude::*;
use vstd::utf8::encode_utf8;
use crate::network::key::{is_key_pair_for, key_gen};

verus! {

/// The address a node puts before the port of a peer that announces itself.
pub open spec fn local_host() -> Seq<char> {
    "127.0.0.1:80"@
}

/// Whether some address of `peers` reads `p`.
pub open spec fn has_peer(peers: Seq<String>, p: Seq<char>) -> bool {
    exists|i: int| 0 <= i < peers.len() && (#[trigger] peers[i])@ == p
}

/// No address occurs twice in `peers`.
pub open spec fn distinct_peers(peers: Seq<String>) -> bool {
    forall|i: int, j: int| 0 <= i < j < peers.len() ==> (#[trigger] peers[i])@ != (#[trigger] peers[j])@
}

/// Whether some address of `peers` reads `p`.
fn contains_peer(peers: &Vec<String>, p: &String) -> (found: bool)
    ensures
        found == has_peer(peers@, p@),
{
    let n = peers.len();
    for i in 0..n
        invariant
            n == peers@.len(),
            forall|j: int| 0 <= j < i ==> (#[trigger] peers@[j])@ != p@,
    {
        if peers[i] == *p {
            return true;
        }
    }
    false
}

/// Add `p` to a set of addresses, unless it is there already.
fn insert_peer(peers: &mut Vec<String>, p: String)
    requires
        distinct_peers(old(peers)@),
    ensures
        distinct_peers(final(peers)@),
        forall|x: Seq<char>| has_peer(final(peers)@, x) <==> (has_peer(old(peers)@, x) || x == p@),
{
    if !contains_peer(peers, &p) {
        let ghost before = peers@;
        let ghost pv = p@;
        peers.push(p);
        assert forall|x: Seq<char>| has_peer(peers@, x) <==> (has_peer(before, x) || x == pv) by {
            if has_peer(before, x) {
                let i = choose|i: int| 0 <= i < before.len() && (#[trigger] before[i])@ == x;
                assert(peers@[i] == before[i]);
            }
            if x == pv {
                assert(peers@[before.len() as int]@ == pv);
            }
            if has_peer(peers@, x) {
                let i = choose|i: int| 0 <= i < peers@.len() && (#[trigger] peers@[i])@ == x;
                if i < before.len() {
                    assert(peers@[i] == before[i]);
                }
            }
        }
    }
}

/// The addresses of `peers` except `p`, in their order.
fn without_peer(peers: &Vec<String>, p: &String) -> (rest: Vec<String>)
    requires
        distinct_peers(peers@),
    ensures
        distinct_peers(rest@),
        forall|x: Seq<char>| has_peer(rest@, x) <==> (has_peer(peers@, x) && x != p@),
{
    let n = peers.len();
    let mut rest: Vec<String> = Vec::new();
    for i in 0..n
        invariant
            n == peers@.len(),
            distinct_peers(peers@),
            distinct_peers(rest@),
            forall|x: Seq<char>| has_peer(rest@, x) <==> (has_peer(peers@.take(i as int), x) && x != p@),
    {
        let ghost before = rest@;
        if peers[i] != *p {
            insert_peer(&mut rest, peers[i].clone());
        }
        assert forall|x: Seq<char>| has_peer(rest@, x) <==> (has_peer(peers@.take(i + 1), x) && x != p@) by {
            assert(peers@.take(i + 1)[i as int] == peers@[i as int]);
            if has_peer(peers@.take(i + 1), x) {
                let j = choose|j: int| 0 <= j < i + 1 && (#[trigger] peers@.take(i + 1)[j])@ == x;
                if j < i {
                    assert(peers@.take(i as int)[j] == peers@.take(i + 1)[j]);
                }
            }
            if has_peer(peers@.take(i as int), x) {
                let j = choose|j: int| 0 <= j < i && (#[trigger] peers@.take(i as int)[j])@ == x;
                assert(peers@.take(i as int)[j] == peers@.take(i + 1)[j]);
            }
        }
    }
    assert(peers@.take(n as int) =~= peers@);
    rest
}

/// A node: its key pair, its address and port, and the addresses of its
/// peers (no address twice).
pub struct Node {
    pkey: Vec<u8>,
    pub id: Vec<u8>,
    pub addr: String,
    pub port: String,
    pub config_list: Vec<String>,
}

impl Node {
    /// The node's private key, as encrypted PEM.
    pub closed spec fn private_key(&self) -> Seq<u8> {
        self.pkey@
    }

    /// The node's public key, as PEM: its identity.
    pub closed spec fn identity(&self) -> Seq<u8> {
        self.id@
    }

    /// The node's address.
    pub closed spec fn address(&self) -> Seq<char> {
        self.addr@
    }

    /// The node's port.
    pub closed spec fn port_name(&self) -> Seq<char> {
        self.port@
    }

    /// The addresses of the node's peers.
    pub closed spec fn peers(&self) -> Seq<String> {
        self.config_list@
    }

    /// A node at `addr` and `port` with a new key pair made by `key_gen`:
    /// its identity is a public key of `KEY_BITS` bits, and its private key
    /// is encrypted under the port and opens to that same key. Its peers are
    /// those of `config` but for its own address `addr` followed by `port`
    /// (see `from_key_pair`). Nothing comes back when the key pair could not
    /// be made.
    pub fn new(addr: String, port: String, config: Vec<String>) -> (node: Option<Node>)
        requires
            encode_utf8(port@).len() <= i32::MAX,
        ensures
            node matches Some(n) ==> {
                &&& is_key_pair_for(n.private_key(), n.identity(), port@)
                &&& n.address() == addr@
                &&& n.port_name() == port@
                &&& distinct_peers(n.peers())
                &&& forall|x: Seq<char>| has_peer(n.peers(), x) <==> (has_peer(config@, x) && x != addr@ + port@)
            },
    {
        let key_pair = key_gen(port.clone());
        Node::from_key_pair(key_pair, addr, port, config)
    }

    /// A node at `addr` and `port` with the key pair `pair` (private key,
    /// public key), whose peers are those of `config` but for its own
    /// address `addr` followed by `port`, each once. Nothing comes back when
    /// a key of the pair is missing.
    pub fn from_key_pair(
        pair: (Option<Vec<u8>>, Option<Vec<u8>>),
        addr: String,
        port: String,
        config: Vec<String>,
    ) -> (node: Option<Node>)
        ensures
            node is Some <==> (pair.0 is Some && pair.1 is Some),
            node matches Some(n) ==> {
                &&& n.private_key() == pair.0->0@
                &&& n.identity() == pair.1->0@
                &&& n.address() == addr@
                &&& n.port_name() == port@
                &&& distinct_peers(n.peers())
                &&& forall|x: Seq<char>| has_peer(n.peers(), x) <==> (has_peer(config@, x) && x != addr@ + port@)
            },
    {
        let mut own = addr.clone();
        own.append(port.as_str());
        let mut peers: Vec<String> = Vec::new();
        let n = config.len();
        for i in 0..n
            invariant
                n == config@.len(),
                distinct_peers(peers@),
                forall|x: Seq<char>| has_peer(peers@, x) <==> has_peer(config@.take(i as int), x),
        {
            insert_peer(&mut peers, config[i].clone());
            assert forall|x: Seq<char>| has_peer(peers@, x) <==> has_peer(config@.take(i + 1), x) by {
                assert(config@.take(i + 1)[i as int] == config@[i as int]);
                if has_peer(config@.take(i + 1), x) {
                    let j = choose|j: int| 0 <= j < i + 1 && (#[trigger] config@.take(i + 1)[j])@ == x;
                    if j < i {
                        assert(config@.take(i as int)[j] == config@.take(i + 1)[j]);
                    }
                }
                if has_peer(config@.take(i as int), x) {
                    let j = choose|j: int| 0 <= j < i && (#[trigger] config@.take(i as int)[j])@ == x;
                    assert(config@.take(i as int)[j] == config@.take(i + 1)[j]);
                }
            }
        }
        assert(config@.take(n as int) =~= config@);
        let config_list = without_peer(&peers, &own);
        match pair {
            (Some(pkey), Some(id)) => Some(Node { pkey, id, addr, port, config_list }),
            _ => None,
        }
    }

    /// The node's full address: its address followed by its port.
    pub fn full_addr(&self) -> (a: String)
        ensures
            a@ == self.address() + self.port_name(),
    {
        let mut a = self.addr.clone();
        a.append(self.port.as_str());
        a
    }

    /// A peer announced by its port joins the peers, as the local host
    /// followed by that port.
    pub fn add_peer(&mut self, port: String)
        requires
            distinct_peers(old(self).peers()),
        ensures
            final(self).address() == old(self).address(),
            final(self).port_name() == old(self).port_name(),
            final(self).identity() == old(self).identity(),
            final(self).private_key() == old(self).private_key(),
            distinct_peers(final(self).peers()),
            forall|x: Seq<char>| has_peer(final(self).peers(), x) <==> (
                has_peer(old(self).peers(), x) || x == local_host() + port@),
    {
        let mut peer = String::from_str("127.0.0.1:80");
        peer.append(port.as_str());
        insert_peer(&mut self.config_list, peer);
    }

    /// The peers together with the node itself: every node that takes part
    /// in a round of work.
    pub fn peers_with_self(&self) -> (all: Vec<String>)
        requires
            distinct_peers(self.peers()),
        ensures
            distinct_peers(all@),
            forall|x: Seq<char>| has_peer(all@, x) <==> (
                has_peer(self.peers(), x) || x == self.address() + self.port_name()),
    {
        let mut all = self.config_list.clone();
        assert(all@ =~= self.config_list@);
        insert_peer(&mut all, self.full_addr());
        all
    }

    /// Join a network through `contact`: the peers become those `contact`
    /// knows, and `contact` itself.
    pub fn join_network(&mut self, peers: Vec<String>, contact: String)
        requires
            distinct_peers(peers@),
        ensures
            final(self).address() == old(self).address(),
            final(self).port_name() == old(self).port_name(),
            final(self).identity() == old(self).identity(),
            final(self).private_key() == old(self).private_key(),
            distinct_peers(final(self).peers()),
            forall|x: Seq<char>| has_peer(final(self).peers(), x) <==> (has_peer(peers@, x) || x == contact@),
    {
        let mut peers = peers;
        insert_peer(&mut peers, contact);
        self.config_list = peers;
    }
}

} // verus!
