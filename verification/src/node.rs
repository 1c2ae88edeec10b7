//! The gossip node's registry: connected peer ids, their reachable
//! addresses, and the set of already-seen message hashes that suppresses
//! gossip loops.
//!
//! The embedding owns the sockets; this state machine decides what each
//! byte of handshake or gossip input does to the registry and what goes
//! back out.

use vstd::prelude::*;
use crate::codec::len_pref;
use crate::envelope::{Message, MsgView, msg_enc, msg_dec, encode_message, parse_message};
use crate::handshake::{
    HandshakeCode, hs_frame, token_ok, handshake_frame, parse_handshake,
    lemma_hs_frame_injective,
};
use crate::runtime::new_id;
use crate::util::{bytes_eq, copy_bytes};

verus! {

/// Whether a run of byte strings holds this one.
pub open spec fn seq_has(s: Seq<Seq<u8>>, x: Seq<u8>) -> bool {
    exists|k: int| 0 <= k < s.len() && s[k] == x
}

/// The index of the first byte string equal to `x`, or the run's length.
pub open spec fn seq_find(s: Seq<Seq<u8>>, x: Seq<u8>) -> int
    decreases s.len(),
{
    if s.len() == 0 {
        0
    } else if s[0] == x {
        0
    } else {
        1 + seq_find(s.drop_first(), x)
    }
}

/// The mathematical content of a node's registry.
pub struct NodeView {
    pub node_id: Seq<u8>,
    pub port: u16,
    pub server_addr: Seq<u8>,
    pub peers: Seq<Seq<u8>>,
    pub addrs: Seq<Seq<u8>>,
    pub seen: Seq<Seq<u8>>,
}

/// Marks a content hash seen; marking an already-seen hash changes
/// nothing.
pub open spec fn mark_seen(n: NodeView, h: Seq<u8>) -> NodeView {
    if seq_has(n.seen, h) {
        n
    } else {
        NodeView { seen: n.seen.push(h), ..n }
    }
}

/// What one received gossip payload does: an undecodable payload is
/// dropped; a decodable one is dropped if its content hash was already
/// seen, and otherwise marked seen and handed on.
pub open spec fn receive_step(n: NodeView, payload: Seq<u8>) -> (NodeView, Option<MsgView>) {
    match msg_dec(payload) {
        Option::None => (n, None),
        Option::Some(m) => if seq_has(n.seen, m.message_hash) {
            (n, None)
        } else {
            (mark_seen(n, m.message_hash), Some(m))
        },
    }
}

/// Marking a hash twice is marking it once.
pub proof fn lemma_mark_seen_idempotent(n: NodeView, h: Seq<u8>)
    ensures
        mark_seen(mark_seen(n, h), h) == mark_seen(n, h),
        seq_has(mark_seen(n, h).seen, h),
{
    if !seq_has(n.seen, h) {
        let s1 = n.seen.push(h);
        assert(s1[s1.len() - 1] == h);
    }
}

/// Delivering the same payload again changes nothing and hands nothing
/// on: at most one local state change per content hash.
pub proof fn lemma_receive_idempotent(n: NodeView, payload: Seq<u8>)
    ensures
        ({
            let (n1, m1) = receive_step(n, payload);
            let (n2, m2) = receive_step(n1, payload);
            n2 == n1 && m2 is None
        }),
{
    match msg_dec(payload) {
        Option::None => {},
        Option::Some(m) => {
            lemma_mark_seen_idempotent(n, m.message_hash);
        },
    }
}

/// A broadcast marks its own hash seen, so the same envelope echoed
/// back from a peer is not handed on again.
pub proof fn lemma_broadcast_suppresses_echo(n: NodeView, m: MsgView, payload: Seq<u8>)
    requires
        msg_dec(payload) == Some(m),
    ensures
        receive_step(mark_seen(n, m.message_hash), payload).0 == mark_seen(n, m.message_hash),
        receive_step(mark_seen(n, m.message_hash), payload).1 is None,
{
    lemma_mark_seen_idempotent(n, m.message_hash);
}

/// What a handshake request does on the responding side: an acceptance
/// frame and a registered peer, a silent no-op for a peer already
/// connected, or a rejection frame.
pub enum HandshakeReply {
    Accepted(Vec<u8>),
    AlreadyConnected,
    Rejected(Vec<u8>),
}

/// The gossip node's registry.
pub struct Node {
    node_id: Vec<u8>,
    port: u16,
    server_addr: Vec<u8>,
    peer_connected: Vec<Vec<u8>>,
    peer_server_addr: Vec<Vec<u8>>,
    msg_hashes: Vec<Vec<u8>>,
}

impl View for Node {
    type V = NodeView;

    closed spec fn view(&self) -> NodeView {
        NodeView {
            node_id: self.node_id@,
            port: self.port,
            server_addr: self.server_addr@,
            peers: Seq::new(self.peer_connected@.len(), |k: int| self.peer_connected@[k]@),
            addrs: Seq::new(self.peer_server_addr@.len(), |k: int| self.peer_server_addr@[k]@),
            seen: Seq::new(self.msg_hashes@.len(), |k: int| self.msg_hashes@[k]@),
        }
    }
}

impl Node {
    /// The registry's invariant: peer ids are pairwise distinct, and
    /// every peer has exactly one recorded address.
    pub open spec fn wf(&self) -> bool {
        &&& self@.peers.len() == self@.addrs.len()
        &&& forall|i: int, j: int|
            0 <= i < j < self@.peers.len() ==> self@.peers[i] != self@.peers[j]
    }

    /// A fresh node: a random 36-byte id, the listening port, the
    /// externally reachable address of this node's own gossip server,
    /// and empty registries.
    pub fn new(port: u16, server_addr: Vec<u8>) -> (n: Node)
        ensures
            n.wf(),
            n@.port == port,
            n@.server_addr == server_addr@,
            n@.node_id.len() == 36,
            token_ok(n@.node_id),
            n@.peers =~= Seq::<Seq<u8>>::empty(),
            n@.addrs =~= Seq::<Seq<u8>>::empty(),
            n@.seen =~= Seq::<Seq<u8>>::empty(),
    {
        let node_id = new_id();
        Node {
            node_id,
            port,
            server_addr,
            peer_connected: Vec::new(),
            peer_server_addr: Vec::new(),
            msg_hashes: Vec::new(),
        }
    }

    /// This node's id.
    pub fn get_id(&self) -> (r: Vec<u8>)
        ensures
            r@ == self@.node_id,
    {
        copy_bytes(self.node_id.as_slice())
    }

    /// How many peers are connected.
    pub fn peer_count(&self) -> (r: usize)
        ensures
            r == self@.peers.len(),
    {
        self.peer_connected.len()
    }

    /// The recorded gossip-server address of the peer at an index.
    pub fn peer_address(&self, i: usize) -> (r: Vec<u8>)
        requires
            i < self@.addrs.len(),
        ensures
            r@ == self@.addrs[i as int],
    {
        copy_bytes(self.peer_server_addr[i].as_slice())
    }

    /// Whether a peer id is in the connected set.
    pub fn has_peer(&self, id: &[u8]) -> (r: bool)
        ensures
            r == seq_has(self@.peers, id@),
    {
        let mut i: usize = 0;
        while i < self.peer_connected.len()
            invariant
                i <= self@.peers.len(),
                forall|j: int| 0 <= j < i ==> self@.peers[j] != id@,
            decreases self@.peers.len() - i,
        {
            if bytes_eq(self.peer_connected[i].as_slice(), id) {
                proof {
                    assert(self@.peers[i as int] == id@);
                }
                return true;
            }
            i = i + 1;
        }
        false
    }

    /// Whether a content hash is in the seen set.
    fn hash_seen(&self, h: &[u8]) -> (r: bool)
        ensures
            r == seq_has(self@.seen, h@),
    {
        let mut i: usize = 0;
        while i < self.msg_hashes.len()
            invariant
                i <= self@.seen.len(),
                forall|j: int| 0 <= j < i ==> self@.seen[j] != h@,
            decreases self@.seen.len() - i,
        {
            if bytes_eq(self.msg_hashes[i].as_slice(), h) {
                proof {
                    assert(self@.seen[i as int] == h@);
                }
                return true;
            }
            i = i + 1;
        }
        false
    }

    /// Registers a peer and its address. Registering an id already in
    /// the connected set is a no-op, so a reconnection attempt is
    /// idempotent.
    pub fn register_peer(&mut self, peer_id: Vec<u8>, peer_addr: Vec<u8>) -> (r: bool)
        requires
            old(self).wf(),
        ensures
            final(self).wf(),
            r == !seq_has(old(self)@.peers, peer_id@),
            r ==> final(self)@ == (NodeView {
                peers: old(self)@.peers.push(peer_id@),
                addrs: old(self)@.addrs.push(peer_addr@),
                ..old(self)@
            }),
            !r ==> final(self)@ == old(self)@,
    {
        if self.has_peer(peer_id.as_slice()) {
            return false;
        }
        let ghost v0 = self@;
        self.peer_connected.push(peer_id);
        self.peer_server_addr.push(peer_addr);
        proof {
            assert(self@.peers =~= v0.peers.push(self.peer_connected@.last()@));
            assert(self@.addrs =~= v0.addrs.push(self.peer_server_addr@.last()@));
            assert(self@.seen =~= v0.seen);
            assert forall|i: int, j: int|
                0 <= i < j < self@.peers.len() implies self@.peers[i] != self@.peers[j] by {
                if j == self@.peers.len() - 1 {
                    assert(!seq_has(v0.peers, self@.peers[j]));
                    assert(v0.peers[i] == self@.peers[i]);
                }
            }
        }
        true
    }

    /// The request frame this node opens an outbound handshake with.
    pub fn handshake_request(&self) -> (r: Vec<u8>)
        ensures
            r@ == hs_frame(HandshakeCode::Request, self@.node_id, self@.server_addr),
    {
        handshake_frame(
            HandshakeCode::Request,
            self.node_id.as_slice(),
            self.server_addr.as_slice(),
        )
    }

    /// Answers an inbound handshake: a well-formed request from an
    /// unknown peer registers it and is answered with an acceptance
    /// frame; a request from a connected peer is a no-op; anything else
    /// draws a rejection frame and changes nothing.
    pub fn handle_handshake(&mut self, request: &[u8]) -> (reply: HandshakeReply)
        requires
            old(self).wf(),
        ensures
            final(self).wf(),
            match reply {
                HandshakeReply::Accepted(f) => f@ == hs_frame(
                    HandshakeCode::Accept,
                    old(self)@.node_id,
                    old(self)@.server_addr,
                ) && (exists|id: Seq<u8>, addr: Seq<u8>|
                    {
                        &&& token_ok(id)
                        &&& token_ok(addr)
                        &&& request@ == #[trigger] hs_frame(HandshakeCode::Request, id, addr)
                        &&& !seq_has(old(self)@.peers, id)
                        &&& final(self)@ == (NodeView {
                            peers: old(self)@.peers.push(id),
                            addrs: old(self)@.addrs.push(addr),
                            ..old(self)@
                        })
                    }),
                HandshakeReply::AlreadyConnected => final(self)@ == old(self)@ && (exists|
                    id: Seq<u8>,
                    addr: Seq<u8>,
                |
                    token_ok(id) && token_ok(addr) && request@ == #[trigger] hs_frame(
                        HandshakeCode::Request,
                        id,
                        addr,
                    ) && seq_has(old(self)@.peers, id)),
                HandshakeReply::Rejected(f) => f@ == hs_frame(
                    HandshakeCode::Reject,
                    old(self)@.node_id,
                    old(self)@.server_addr,
                ) && final(self)@ == old(self)@ && (forall|id: Seq<u8>, addr: Seq<u8>|
                    token_ok(id) && token_ok(addr) ==> request@ != #[trigger] hs_frame(
                        HandshakeCode::Request,
                        id,
                        addr,
                    )),
            },
    {
        match parse_handshake(request) {
            Some((code, id, addr)) => {
                match code {
                    HandshakeCode::Request => {
                        let ghost idv = id@;
                        let ghost addrv = addr@;
                        if self.register_peer(id, addr) {
                            HandshakeReply::Accepted(
                                handshake_frame(
                                    HandshakeCode::Accept,
                                    self.node_id.as_slice(),
                                    self.server_addr.as_slice(),
                                ),
                            )
                        } else {
                            HandshakeReply::AlreadyConnected
                        }
                    },
                    _ => {
                        proof {
                            lemma_hs_code_unambiguous(request@, code, id@, addr@);
                        }
                        HandshakeReply::Rejected(
                            handshake_frame(
                                HandshakeCode::Reject,
                                self.node_id.as_slice(),
                                self.server_addr.as_slice(),
                            ),
                        )
                    },
                }
            },
            None => {
                HandshakeReply::Rejected(
                    handshake_frame(
                        HandshakeCode::Reject,
                        self.node_id.as_slice(),
                        self.server_addr.as_slice(),
                    ),
                )
            },
        }
    }

    /// Finishes an outbound handshake from the peer's response: an
    /// acceptance from a not-yet-connected peer registers it and opens
    /// the stream; everything else leaves the registry unchanged.
    pub fn handle_handshake_response(&mut self, response: &[u8]) -> (r: bool)
        requires
            old(self).wf(),
        ensures
            final(self).wf(),
            r ==> (exists|id: Seq<u8>, addr: Seq<u8>|
                {
                    &&& token_ok(id)
                    &&& token_ok(addr)
                    &&& response@ == #[trigger] hs_frame(HandshakeCode::Accept, id, addr)
                    &&& !seq_has(old(self)@.peers, id)
                    &&& final(self)@ == (NodeView {
                        peers: old(self)@.peers.push(id),
                        addrs: old(self)@.addrs.push(addr),
                        ..old(self)@
                    })
                }),
            !r ==> final(self)@ == old(self)@,
            forall|id: Seq<u8>, addr: Seq<u8>|
                token_ok(id) && token_ok(addr) && response@ == #[trigger] hs_frame(
                    HandshakeCode::Accept,
                    id,
                    addr,
                ) && !seq_has(old(self)@.peers, id) ==> r,
    {
        match parse_handshake(response) {
            Some((code, id, addr)) => {
                match code {
                    HandshakeCode::Accept => {
                        let ghost idv = id@;
                        let ghost addrv = addr@;
                        let registered = self.register_peer(id, addr);
                        proof {
                            assert forall|id2: Seq<u8>, addr2: Seq<u8>|
                                token_ok(id2) && token_ok(addr2) && response@
                                    == #[trigger] hs_frame(HandshakeCode::Accept, id2, addr2)
                                    && !seq_has(old(self)@.peers, id2) implies registered by {
                                lemma_hs_frame_injective(
                                    HandshakeCode::Accept,
                                    idv,
                                    addrv,
                                    HandshakeCode::Accept,
                                    id2,
                                    addr2,
                                );
                            }
                        }
                        registered
                    },
                    _ => {
                        proof {
                            lemma_other_code_no_accept_frame(response@, code, id@, addr@);
                        }
                        false
                    },
                }
            },
            None => false,
        }
    }

    /// Frames an envelope for the wire: the eight-byte big-endian length
    /// prefix followed by the envelope's canonical encoding.
    pub fn encode_msg_bytes(data: &Message) -> (r: Vec<u8>)
        requires
            match data.block {
                Option::Some(b) => b.count == b@.transactions.len(),
                Option::None => true,
            },
        ensures
            r@ == len_pref(msg_enc(data@)),
    {
        let enc = encode_message(data);
        let mut out: Vec<u8> = Vec::new();
        crate::codec::write_len_pref(&mut out, enc.as_slice());
        proof {
            assert(out@ =~= len_pref(msg_enc(data@)));
        }
        out
    }

    /// Prepares an envelope for fan-out: marks its content hash seen, so
    /// the echo a peer gossips back is suppressed, and returns the wire
    /// frame to write to every connected peer.
    pub fn prepare_broadcast(&mut self, data: &Message) -> (r: Vec<u8>)
        requires
            old(self).wf(),
            match data.block {
                Option::Some(b) => b.count == b@.transactions.len(),
                Option::None => true,
            },
        ensures
            final(self).wf(),
            final(self)@ == mark_seen(old(self)@, data@.message_hash),
            r@ == len_pref(msg_enc(data@)),
    {
        if !self.hash_seen(data.message_hash.as_slice()) {
            let ghost v0 = self@;
            self.msg_hashes.push(copy_bytes(data.message_hash.as_slice()));
            proof {
                assert(self@.seen =~= v0.seen.push(data@.message_hash));
                assert(self@.peers =~= v0.peers);
                assert(self@.addrs =~= v0.addrs);
            }
        }
        Node::encode_msg_bytes(data)
    }

    /// Takes one received gossip payload through deduplication: decodes
    /// it, drops it if its content hash was already seen, and otherwise
    /// marks it seen and hands the envelope on toward the ledger.
    pub fn receive_frame(&mut self, payload: &[u8]) -> (r: Option<Message>)
        requires
            old(self).wf(),
        ensures
            final(self).wf(),
            final(self)@ == receive_step(old(self)@, payload@).0,
            (match r {
                Some(m) => Some(m@),
                None => None::<MsgView>,
            }) == receive_step(old(self)@, payload@).1,
            (match r {
                Some(m) => match m.block {
                    Option::Some(b) => b.count == b@.transactions.len(),
                    Option::None => true,
                },
                None => true,
            }),
    {
        let msg = match parse_message(payload) {
            Some(m) => m,
            None => {
                return None;
            },
        };
        if self.hash_seen(msg.message_hash.as_slice()) {
            return None;
        }
        let ghost v0 = self@;
        self.msg_hashes.push(copy_bytes(msg.message_hash.as_slice()));
        proof {
            assert(self@.seen =~= v0.seen.push(msg@.message_hash));
            assert(self@.peers =~= v0.peers);
            assert(self@.addrs =~= v0.addrs);
        }
        Some(msg)
    }

    /// Drops a peer whose write failed: the connection is assumed dead,
    /// and its id and recorded address leave the registry together.
    pub fn prune_peer(&mut self, peer_id: &[u8])
        requires
            old(self).wf(),
        ensures
            final(self).wf(),
            seq_has(old(self)@.peers, peer_id@) ==> ({
                let k = seq_find(old(self)@.peers, peer_id@);
                final(self)@ == (NodeView {
                    peers: old(self)@.peers.remove(k),
                    addrs: old(self)@.addrs.remove(k),
                    ..old(self)@
                })
            }),
            !seq_has(old(self)@.peers, peer_id@) ==> final(self)@ == old(self)@,
    {
        let mut i: usize = 0;
        while i < self.peer_connected.len()
            invariant
                old(self).wf(),
                self == old(self),
                i <= self@.peers.len(),
                forall|j: int| 0 <= j < i ==> self@.peers[j] != peer_id@,
            decreases self@.peers.len() - i,
        {
            if bytes_eq(self.peer_connected[i].as_slice(), peer_id) {
                let ghost v0 = self@;
                proof {
                    lemma_seq_find_hit(v0.peers, peer_id@, i as int);
                }
                self.peer_connected.remove(i);
                self.peer_server_addr.remove(i);
                proof {
                    assert(self@.peers =~= v0.peers.remove(i as int));
                    assert(self@.addrs =~= v0.addrs.remove(i as int));
                    assert(self@.seen =~= v0.seen);
                    assert forall|a: int, b: int|
                        0 <= a < b < self@.peers.len() implies self@.peers[a]
                        != self@.peers[b] by {
                        let pa = if a < i as int {
                            a
                        } else {
                            a + 1
                        };
                        let pb = if b < i as int {
                            b
                        } else {
                            b + 1
                        };
                        assert(v0.peers[pa] != v0.peers[pb]);
                    }
                }
                return ;
            }
            i = i + 1;
        }
        proof {
            if seq_has(self@.peers, peer_id@) {
                let k = choose|k: int| 0 <= k < self@.peers.len() && self@.peers[k] == peer_id@;
            }
        }
    }
}

/// When the entries before `k` miss the value and entry `k` holds it,
/// `k` is where the find lands.
proof fn lemma_seq_find_hit(s: Seq<Seq<u8>>, x: Seq<u8>, k: int)
    requires
        0 <= k < s.len(),
        s[k] == x,
        forall|j: int| 0 <= j < k ==> s[j] != x,
    ensures
        seq_find(s, x) == k,
    decreases s.len(),
{
    if k > 0 {
        assert(s[0] != x);
        assert(s.drop_first()[k - 1] == x);
        assert forall|j: int| 0 <= j < k - 1 implies s.drop_first()[j] != x by {
            assert(s[j + 1] != x);
        }
        lemma_seq_find_hit(s.drop_first(), x, k - 1);
    }
}

/// A frame whose code is not an acceptance is no acceptance frame.
proof fn lemma_other_code_no_accept_frame(s: Seq<u8>, c: HandshakeCode, id: Seq<u8>, addr: Seq<u8>)
    requires
        token_ok(id),
        token_ok(addr),
        s == hs_frame(c, id, addr),
        !(c is Accept),
    ensures
        forall|id2: Seq<u8>, addr2: Seq<u8>|
            token_ok(id2) && token_ok(addr2) ==> s != #[trigger] hs_frame(
                HandshakeCode::Accept,
                id2,
                addr2,
            ),
{
    assert forall|id2: Seq<u8>, addr2: Seq<u8>|
        token_ok(id2) && token_ok(addr2) implies s != #[trigger] hs_frame(
        HandshakeCode::Accept,
        id2,
        addr2,
    ) by {
        if s == hs_frame(HandshakeCode::Accept, id2, addr2) {
            crate::handshake::lemma_hs_frame_injective(
                c,
                id,
                addr,
                HandshakeCode::Accept,
                id2,
                addr2,
            );
        }
    }
}

/// Two frames with different status codes are different byte strings.
proof fn lemma_hs_code_unambiguous(s: Seq<u8>, c: HandshakeCode, id: Seq<u8>, addr: Seq<u8>)
    requires
        token_ok(id),
        token_ok(addr),
        s == hs_frame(c, id, addr),
        !(c is Request),
    ensures
        forall|id2: Seq<u8>, addr2: Seq<u8>|
            token_ok(id2) && token_ok(addr2) ==> s != #[trigger] hs_frame(
                HandshakeCode::Request,
                id2,
                addr2,
            ),
{
    crate::handshake::lemma_hs_frame_facts(c, id, addr);
    assert forall|id2: Seq<u8>, addr2: Seq<u8>|
        token_ok(id2) && token_ok(addr2) implies s != #[trigger] hs_frame(
        HandshakeCode::Request,
        id2,
        addr2,
    ) by {
        if s == hs_frame(HandshakeCode::Request, id2, addr2) {
            crate::handshake::lemma_hs_frame_facts(HandshakeCode::Request, id2, addr2);
            assert(s[8] == 49);
            assert(s[8] == crate::handshake::code_bytes(c)[1]);
        }
    }
}

} // verus!
