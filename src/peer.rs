//! The node's bootstrap and membership state machine.
//!
//! The node does no I/O. Each method takes one event (the node started, a
//! dial ended, a message arrived, the gossip timer fired) and returns the
//! actions that the runtime must carry out, in order.

use vstd::prelude::*;
use crate::addr::PeerAddr;
use crate::codec::Message;
use crate::codec::MessageModel;
use crate::codec::Request;
use crate::codec::Response;
use crate::codec::CodecError;
use crate::codec::P2PCodec;
use crate::codec::decode_spec;
use crate::codec::encode_spec;
use crate::codec::append_bytes;

verus! {

/// Where the node stands in its bootstrap sequence.
#[derive(Clone, Copy, Debug, PartialEq, Eq, Structural)]
pub enum NodeState {
    Idle,
    Dialing,
    Listening,
    Failed,
}

/// Something the runtime must do for the node.
#[derive(Debug, PartialEq, Eq)]
pub enum Action {
    /// Bind the listening socket at this address.
    Listen(PeerAddr),
    /// Open an outbound connection to this address.
    Dial(PeerAddr),
    /// Write this message on the connection to this address.
    Send(PeerAddr, Message),
    /// Report the failure and stop the node.
    Shutdown,
}

pub enum ActionModel {
    Listen(PeerAddr),
    Dial(PeerAddr),
    Send(PeerAddr, MessageModel),
    Shutdown,
}

impl View for Action {
    type V = ActionModel;

    open spec fn view(&self) -> ActionModel {
        match self {
            Action::Listen(a) => ActionModel::Listen(*a),
            Action::Dial(a) => ActionModel::Dial(*a),
            Action::Send(a, m) => ActionModel::Send(*a, m@),
            Action::Shutdown => ActionModel::Shutdown,
        }
    }
}

pub open spec fn actions_view(v: Seq<Action>) -> Seq<ActionModel> {
    v.map_values(|a: Action| a@)
}

/// The addresses of `list` that are new to a node at `me` that knows
/// `known`: not `me`, not known, each once, in order of first appearance.
pub open spec fn fresh(known: Seq<PeerAddr>, me: PeerAddr, list: Seq<PeerAddr>) -> Seq<PeerAddr>
    decreases list.len(),
{
    if list.len() == 0 {
        seq![]
    } else {
        let r = fresh(known, me, list.drop_last());
        let a = list.last();
        if a == me || known.contains(a) || r.contains(a) {
            r
        } else {
            r.push(a)
        }
    }
}

/// A peer list names each new address once: the new addresses are exactly
/// those of the list that are neither the node itself nor known to it, and
/// none comes twice.
pub proof fn lemma_fresh(known: Seq<PeerAddr>, me: PeerAddr, list: Seq<PeerAddr>)
    ensures
        fresh(known, me, list).no_duplicates(),
        forall|x: PeerAddr| #[trigger]
            fresh(known, me, list).contains(x) <==> (list.contains(x) && x != me
                && !known.contains(x)),
    decreases list.len(),
{
    if list.len() > 0 {
        let init = list.drop_last();
        lemma_fresh(known, me, init);
        let last = list.last();
        assert(list[list.len() - 1] == last);
        assert forall|x: PeerAddr| #[trigger] list.contains(x) <==> (init.contains(x) || x == last) by {
            if list.contains(x) && x != last {
                let i = choose|i: int| 0 <= i < list.len() && list[i] == x;
                assert(init[i] == x);
            }
            if init.contains(x) {
                let i = choose|i: int| 0 <= i < init.len() && init[i] == x;
                assert(list[i] == x);
            }
        }
        let r = fresh(known, me, init);
        if !(last == me || known.contains(last) || r.contains(last)) {
            assert forall|x: PeerAddr| #[trigger] r.push(last).contains(x) <==> (r.contains(x) || x
                == last) by {
                if r.push(last).contains(x) && x != last {
                    let i = choose|i: int| 0 <= i < r.push(last).len() && r.push(last)[i] == x;
                    assert(r[i] == x);
                }
                if r.contains(x) {
                    let i = choose|i: int| 0 <= i < r.len() && r[i] == x;
                    assert(r.push(last)[i] == x);
                }
                assert(r.push(last)[r.len() as int] == last);
            }
            assert(r.push(last).no_duplicates()) by {
                let p = r.push(last);
                assert forall|i: int, j: int| 0 <= i < j < p.len() implies p[i] != p[j] by {
                    if j == p.len() - 1 {
                        assert(r.contains(p[i]));
                    } else {
                        assert(p[i] == r[i] && p[j] == r[j]);
                    }
                }
            }
        }
        assert forall|x: PeerAddr| #[trigger]
            fresh(known, me, list).contains(x) <==> (list.contains(x) && x != me
                && !known.contains(x)) by {
            assert(list.contains(x) <==> (init.contains(x) || x == last));
            assert(r.contains(x) <==> (init.contains(x) && x != me && !known.contains(x)));
            if !(last == me || known.contains(last) || r.contains(last)) {
                assert(r.push(last).contains(x) <==> (r.contains(x) || x == last));
            }
        }
    }
}

/// A node of the overlay.
pub struct Peer {
    /// The address the node listens on; it identifies the node.
    pub socket_addr: PeerAddr,
    /// Seconds between two gossip rounds.
    pub period_secs: u64,
    /// The bootstrap peer, if the node joins an existing overlay.
    pub connect_to: Option<PeerAddr>,
    pub state: NodeState,
    /// The addresses the node knows, each once, never its own.
    pub peers: Vec<PeerAddr>,
}

/// A joining node that learns of two distinct new addresses, neither its
/// own, dials each of them exactly once.
pub proof fn lemma_two_new_peers(known: Seq<PeerAddr>, me: PeerAddr, a: PeerAddr, b: PeerAddr)
    requires
        a != b,
        a != me,
        b != me,
        !known.contains(a),
        !known.contains(b),
    ensures
        dials(fresh(known, me, seq![a, b])) == seq![ActionModel::Dial(a), ActionModel::Dial(b)],
{
    let l = seq![a, b];
    assert(l.drop_last() =~= seq![a]);
    assert(seq![a].drop_last() =~= Seq::<PeerAddr>::empty());
    let e = Seq::<PeerAddr>::empty();
    assert(fresh(known, me, e) == e);
    assert(!e.contains(a));
    assert(seq![a].last() == a && l.last() == b);
    assert(fresh(known, me, seq![a]) == fresh(known, me, e).push(a));
    assert(fresh(known, me, seq![a]) =~= seq![a]);
    assert(!seq![a].contains(b)) by {
        if seq![a].contains(b) {
            let i = choose|i: int| 0 <= i < 1 && seq![a][i] == b;
        }
    }
    assert(fresh(known, me, l) =~= seq![a, b]);
    assert(dials(seq![a, b]) =~= seq![ActionModel::Dial(a), ActionModel::Dial(b)]);
}

proof fn lemma_contains_concat(a: Seq<PeerAddr>, b: Seq<PeerAddr>, x: PeerAddr)
    ensures
        (a + b).contains(x) <==> a.contains(x) || b.contains(x),
{
    if (a + b).contains(x) {
        let i = choose|i: int| 0 <= i < (a + b).len() && (a + b)[i] == x;
        if i >= a.len() {
            assert(b[i - a.len()] == x);
        }
    }
    if b.contains(x) {
        let i = choose|i: int| 0 <= i < b.len() && b[i] == x;
        assert((a + b)[a.len() + i] == x);
    }
    if a.contains(x) {
        let i = choose|i: int| 0 <= i < a.len() && a[i] == x;
        assert((a + b)[i] == x);
    }
}

pub open spec fn dials(l: Seq<PeerAddr>) -> Seq<ActionModel> {
    l.map_values(|a: PeerAddr| ActionModel::Dial(a))
}

pub open spec fn gossip_to(l: Seq<PeerAddr>, text: Seq<char>) -> Seq<ActionModel> {
    l.map_values(|a: PeerAddr| ActionModel::Send(a, MessageModel::Gossip(text)))
}

impl Peer {
    /// The node's identity and configuration are the same in both.
    pub open spec fn same_config(&self, other: &Peer) -> bool {
        &&& self.socket_addr == other.socket_addr
        &&& self.period_secs == other.period_secs
        &&& self.connect_to == other.connect_to
    }

    pub open spec fn wf(&self) -> bool {
        &&& self.peers@.no_duplicates()
        &&& !self.peers@.contains(self.socket_addr)
    }

    /// A node that will listen on `127.0.0.1:port`.
    pub fn new(port: u32, period_secs: u64, connect_to: Option<PeerAddr>) -> (r: Peer)
        requires
            port < 65536,
        ensures
            r.wf(),
            r.socket_addr == PeerAddr::localhost_spec(port as u16),
            r.period_secs == period_secs,
            r.connect_to == connect_to,
            r.state == NodeState::Idle,
            r.peers@ == Seq::<PeerAddr>::empty(),
    {
        Peer {
            socket_addr: PeerAddr::localhost(port as u16),
            period_secs,
            connect_to,
            state: NodeState::Idle,
            peers: Vec::new(),
        }
    }

    fn knows(&self, a: PeerAddr) -> (r: bool)
        ensures
            r == self.peers@.contains(a),
    {
        let n = self.peers.len();
        let mut i: usize = 0;
        while i < n
            invariant
                n == self.peers@.len(),
                i <= n,
                forall|j: int| 0 <= j < i ==> self.peers@[j] != a,
            decreases n - i,
        {
            if self.peers[i] == a {
                return true;
            }
            i = i + 1;
        }
        false
    }

    /// Adds `a` to the peer set unless it is the node itself or known.
    fn learn(&mut self, a: PeerAddr)
        requires
            old(self).wf(),
        ensures
            final(self).wf(),
            final(self).socket_addr == old(self).socket_addr,
            final(self).period_secs == old(self).period_secs,
            final(self).connect_to == old(self).connect_to,
            final(self).state == old(self).state,
            final(self).peers@ == (if a == old(self).socket_addr || old(self).peers@.contains(a) {
                old(self).peers@
            } else {
                old(self).peers@.push(a)
            }),
    {
        if a != self.socket_addr && !self.knows(a) {
            self.peers.push(a);
            assert(final(self).peers@.no_duplicates()) by {
                let p = final(self).peers@;
                assert forall|i: int, j: int| 0 <= i < j < p.len() implies p[i] != p[j] by {
                    if j == p.len() - 1 {
                        assert(old(self).peers@.contains(p[i]));
                    } else {
                        assert(p[i] == old(self).peers@[i] && p[j] == old(self).peers@[j]);
                    }
                }
            }
        }
    }
}

impl Peer {
    /// Starts the node. It always listens; with a bootstrap peer it also
    /// dials that peer. A node that has already started does nothing.
    pub fn started(&mut self) -> (acts: Vec<Action>)
        requires
            old(self).wf(),
        ensures
            final(self).wf(),
            final(self).same_config(old(self)),
            final(self).peers@ == old(self).peers@,
            old(self).state == NodeState::Idle && old(self).connect_to is None ==> final(self).state == NodeState::Listening && actions_view(acts@) == seq![
                ActionModel::Listen(old(self).socket_addr),
            ],
            old(self).state == NodeState::Idle && old(self).connect_to is Some ==> final(self).state == NodeState::Dialing && actions_view(acts@) == seq![
                ActionModel::Listen(old(self).socket_addr),
                ActionModel::Dial(old(self).connect_to->0),
            ],
            old(self).state != NodeState::Idle ==> final(self).state == old(self).state
                && acts@.len() == 0,
    {
        let mut acts: Vec<Action> = Vec::new();
        if self.state != NodeState::Idle {
            return acts;
        }
        acts.push(Action::Listen(self.socket_addr));
        match self.connect_to {
            None => {
                self.state = NodeState::Listening;
            },
            Some(b) => {
                acts.push(Action::Dial(b));
                self.state = NodeState::Dialing;
            },
        }
        assert(actions_view(acts@) =~= acts@.map_values(|a: Action| a@));
        acts
    }

    /// The dial of `to` ended, successfully when `ok`. A successful dial of
    /// the bootstrap peer makes it known and asks it for its peers; a failed
    /// one is fatal. The end of any other dial changes nothing.
    pub fn on_dial(&mut self, to: PeerAddr, ok: bool) -> (acts: Vec<Action>)
        requires
            old(self).wf(),
        ensures
            final(self).wf(),
            final(self).same_config(old(self)),
            ({
                let bootstrap = old(self).state == NodeState::Dialing && old(self).connect_to
                    == Some(to);
                &&& bootstrap && ok ==> final(self).state == NodeState::Listening && final(self).peers@ == (if to == old(self).socket_addr || old(self).peers@.contains(to) {
                    old(self).peers@
                } else {
                    old(self).peers@.push(to)
                }) && actions_view(acts@) == seq![
                    ActionModel::Send(to, MessageModel::PeerListRequest),
                ]
                &&& bootstrap && !ok ==> final(self).state == NodeState::Failed && final(self).peers@ == old(self).peers@ && actions_view(acts@) == seq![
                    ActionModel::Shutdown,
                ]
                &&& !bootstrap ==> final(self).state == old(self).state && final(self).peers@
                    == old(self).peers@ && acts@.len() == 0
            }),
    {
        let mut acts: Vec<Action> = Vec::new();
        let bootstrap = match self.connect_to {
            Some(b) => self.state == NodeState::Dialing && b == to,
            None => false,
        };
        if !bootstrap {
            return acts;
        }
        if ok {
            self.learn(to);
            self.state = NodeState::Listening;
            acts.push(Action::Send(to, Message::Request(Request::PeerListRequest)));
        } else {
            self.state = NodeState::Failed;
            acts.push(Action::Shutdown);
        }
        assert(actions_view(acts@) =~= acts@.map_values(|a: Action| a@));
        acts
    }

    /// A peer list arrived. A listening node adds each new address to its
    /// peer set and dials it, once; it never adds its own address.
    pub fn on_peer_list(&mut self, list: &Vec<PeerAddr>) -> (acts: Vec<Action>)
        requires
            old(self).wf(),
        ensures
            final(self).wf(),
            final(self).same_config(old(self)),
            final(self).state == old(self).state,
            !final(self).peers@.contains(final(self).socket_addr),
            old(self).state == NodeState::Listening ==> final(self).peers@ == old(self).peers@
                + fresh(old(self).peers@, old(self).socket_addr, list@) && actions_view(acts@)
                == dials(fresh(old(self).peers@, old(self).socket_addr, list@)),
            old(self).state != NodeState::Listening ==> final(self).peers@ == old(self).peers@
                && acts@.len() == 0,
    {
        let mut acts: Vec<Action> = Vec::new();
        if self.state != NodeState::Listening {
            return acts;
        }
        let ghost known = self.peers@;
        let ghost me = self.socket_addr;
        let n = list.len();
        let mut i: usize = 0;
        while i < n
            invariant
                n == list@.len(),
                i <= n,
                self.wf(),
                self.same_config(old(self)),
                self.state == old(self).state,
                known == old(self).peers@,
                me == old(self).socket_addr,
                self.peers@ == known + fresh(known, me, list@.subrange(0, i as int)),
                actions_view(acts@) == dials(fresh(known, me, list@.subrange(0, i as int))),
            decreases n - i,
        {
            let a = list[i];
            let ghost r = fresh(known, me, list@.subrange(0, i as int));
            let ghost before = acts@;
            proof {
                let sub = list@.subrange(0, i + 1);
                assert(sub.drop_last() =~= list@.subrange(0, i as int));
                assert(sub.last() == a);
                lemma_contains_concat(known, r, a);
            }
            let len0 = self.peers.len();
            self.learn(a);
            if self.peers.len() > len0 {
                acts.push(Action::Dial(a));
                proof {
                    assert(self.peers@ =~= known + r.push(a));
                    assert(actions_view(acts@) =~= actions_view(before).push(ActionModel::Dial(a)));
                    assert(dials(r.push(a)) =~= dials(r).push(ActionModel::Dial(a)));
                }
            }
            i = i + 1;
        }
        assert(list@.subrange(0, n as int) =~= list@);
        acts
    }

    /// A peer asked for the peer list on the connection to `from`. The node
    /// learns `from` and answers with its whole peer set.
    pub fn on_peer_list_request(&mut self, from: PeerAddr) -> (acts: Vec<Action>)
        requires
            old(self).wf(),
        ensures
            final(self).wf(),
            final(self).same_config(old(self)),
            final(self).state == old(self).state,
            final(self).peers@ == (if from == old(self).socket_addr || old(self).peers@.contains(
                from,
            ) {
                old(self).peers@
            } else {
                old(self).peers@.push(from)
            }),
            actions_view(acts@) == seq![
                ActionModel::Send(from, MessageModel::PeerList(final(self).peers@)),
            ],
    {
        self.learn(from);
        let mut acts: Vec<Action> = Vec::new();
        acts.push(Action::Send(from, Message::Response(Response::PeerListResponse(self.snapshot()))));
        assert(actions_view(acts@) =~= acts@.map_values(|a: Action| a@));
        acts
    }

    /// An inbound connection was identified as coming from `from`.
    pub fn on_inbound(&mut self, from: PeerAddr)
        requires
            old(self).wf(),
        ensures
            final(self).wf(),
            final(self).same_config(old(self)),
            final(self).state == old(self).state,
            final(self).peers@ == (if from == old(self).socket_addr || old(self).peers@.contains(
                from,
            ) {
                old(self).peers@
            } else {
                old(self).peers@.push(from)
            }),
    {
        self.learn(from);
    }

    /// The gossip timer fired: a listening node sends `text` to every peer it
    /// knows, in the order it learned them.
    pub fn on_gossip_tick(&self, text: &String) -> (acts: Vec<Action>)
        ensures
            self.state == NodeState::Listening ==> actions_view(acts@) == gossip_to(
                self.peers@,
                text@,
            ),
            self.state != NodeState::Listening ==> acts@.len() == 0,
    {
        let mut acts: Vec<Action> = Vec::new();
        if self.state != NodeState::Listening {
            return acts;
        }
        let n = self.peers.len();
        let mut i: usize = 0;
        while i < n
            invariant
                n == self.peers@.len(),
                i <= n,
                actions_view(acts@) == gossip_to(self.peers@.subrange(0, i as int), text@),
            decreases n - i,
        {
            let ghost before = acts@;
            let t = text.clone();
            acts.push(Action::Send(self.peers[i], Message::Request(Request::RandomGossip(t))));
            proof {
                assert(actions_view(acts@) =~= actions_view(before).push(acts@.last()@));
                assert(self.peers@.subrange(0, i + 1) =~= self.peers@.subrange(0, i as int).push(
                    self.peers@[i as int],
                ));
            }
            i = i + 1;
            assert(actions_view(acts@) =~= gossip_to(self.peers@.subrange(0, i as int), text@));
        }
        assert(self.peers@.subrange(0, n as int) =~= self.peers@);
        acts
    }

    /// The connection to `addr` closed. The node keeps running and keeps the
    /// address: nothing is evicted and nothing else is stopped.
    pub fn on_connection_closed(&self, addr: PeerAddr) -> (acts: Vec<Action>)
        ensures
            acts@.len() == 0,
    {
        Vec::new()
    }

    /// A copy of the peer set.
    pub fn snapshot(&self) -> (r: Vec<PeerAddr>)
        ensures
            r@ == self.peers@,
    {
        let mut r: Vec<PeerAddr> = Vec::new();
        let n = self.peers.len();
        let mut i: usize = 0;
        while i < n
            invariant
                n == self.peers@.len(),
                i <= n,
                r@ == self.peers@.subrange(0, i as int),
            decreases n - i,
        {
            r.push(self.peers[i]);
            i = i + 1;
            assert(r@ =~= self.peers@.subrange(0, i as int));
        }
        assert(r@ =~= self.peers@);
        r
    }
}

impl Peer {
    /// A message arrived on the connection to `from`. Gossip is only
    /// observed; a peer-list request is answered; a peer list is merged.
    pub fn handle(&mut self, from: PeerAddr, msg: Message) -> (acts: Vec<Action>)
        requires
            old(self).wf(),
        ensures
            final(self).wf(),
            final(self).same_config(old(self)),
            final(self).state == old(self).state,
            match msg@ {
                MessageModel::Gossip(_) => final(self).peers@ == old(self).peers@ && acts@.len()
                    == 0,
                MessageModel::PeerListRequest => final(self).peers@ == (if from == old(self).socket_addr || old(self).peers@.contains(from) {
                    old(self).peers@
                } else {
                    old(self).peers@.push(from)
                }) && actions_view(acts@) == seq![
                    ActionModel::Send(from, MessageModel::PeerList(final(self).peers@)),
                ],
                MessageModel::PeerList(l) => (old(self).state == NodeState::Listening ==> final(self).peers@ == old(self).peers@ + fresh(old(self).peers@, old(self).socket_addr, l)
                    && actions_view(acts@) == dials(fresh(old(self).peers@, old(self).socket_addr, l)))
                    && (old(self).state != NodeState::Listening ==> final(self).peers@ == old(self).peers@ && acts@.len() == 0),
            },
    {
        match msg {
            Message::Request(Request::RandomGossip(_)) => Vec::new(),
            Message::Request(Request::PeerListRequest) => self.on_peer_list_request(from),
            Message::Response(Response::PeerListResponse(l)) => self.on_peer_list(&l),
        }
    }
}

/// Decoding a buffer frame after frame: the messages in order, the bytes
/// left, and the error that stopped decoding, if one did.
pub open spec fn decode_all(s: Seq<u8>) -> (Seq<MessageModel>, Seq<u8>, Option<CodecError>)
    decreases s.len(),
{
    let step = decode_spec(s);
    match step.0 {
        Ok(Some(m)) => if step.1.len() < s.len() {
            let more = decode_all(step.1);
            (seq![m] + more.0, more.1, more.2)
        } else {
            (seq![m], step.1, None)
        },
        Ok(None) => (seq![], s, None),
        Err(e) => (seq![], step.1, Some(e)),
    }
}

pub open spec fn messages_view(v: Seq<Message>) -> Seq<MessageModel> {
    v.map_values(|m: Message| m@)
}

/// One live stream to a remote peer: the bytes read and not yet decoded, and
/// the frames waiting to be written, in order.
pub struct Connection {
    pub remote: PeerAddr,
    pub codec: P2PCodec,
    pub inbox: Vec<u8>,
    pub outbox: Vec<u8>,
}

impl Connection {
    pub fn new(remote: PeerAddr) -> (r: Connection)
        ensures
            r.remote == remote,
            r.codec.failed is None,
            r.inbox@ == Seq::<u8>::empty(),
            r.outbox@ == Seq::<u8>::empty(),
    {
        Connection { remote, codec: P2PCodec::new(), inbox: Vec::new(), outbox: Vec::new() }
    }

    /// Whether a frame failed to decode, which ends the connection.
    pub fn is_closed(&self) -> (r: bool)
        ensures
            r == self.codec.failed is Some,
    {
        self.codec.failed.is_some()
    }

    /// Queues the frame of `msg` after those already queued.
    pub fn send(&mut self, msg: &Message)
        ensures
            final(self).outbox@ == old(self).outbox@ + encode_spec(msg@),
            final(self).remote == old(self).remote,
            final(self).codec == old(self).codec,
            final(self).inbox@ == old(self).inbox@,
    {
        self.codec.encode(msg, &mut self.outbox);
    }

    /// Hands out the queued bytes, in order, and empties the queue.
    pub fn take_output(&mut self) -> (r: Vec<u8>)
        ensures
            r@ == old(self).outbox@,
            final(self).outbox@ == Seq::<u8>::empty(),
            final(self).remote == old(self).remote,
            final(self).codec == old(self).codec,
            final(self).inbox@ == old(self).inbox@,
    {
        let mut r: Vec<u8> = Vec::new();
        std::mem::swap(&mut r, &mut self.outbox);
        r
    }

    /// Bytes arrived from the stream. Every complete frame is decoded, in
    /// order; a partial frame stays buffered. A frame that fails to decode
    /// ends the connection: its error is returned with the messages before
    /// it, and every later call returns that error and nothing else.
    pub fn receive(&mut self, data: &[u8]) -> (r: (Vec<Message>, Option<CodecError>))
        ensures
            final(self).remote == old(self).remote,
            final(self).outbox@ == old(self).outbox@,
            old(self).codec.failed is Some ==> r.0@.len() == 0 && r.1 == old(self).codec.failed
                && final(self).inbox@ == old(self).inbox@ && final(self).codec == old(self).codec,
            old(self).codec.failed is None ==> messages_view(r.0@) == decode_all(
                old(self).inbox@ + data@,
            ).0 && final(self).inbox@ == decode_all(old(self).inbox@ + data@).1 && r.1
                == decode_all(old(self).inbox@ + data@).2 && final(self).codec.failed == r.1,
    {
        let mut msgs: Vec<Message> = Vec::new();
        if let Some(e) = self.codec.failed {
            return (msgs, Some(e));
        }
        append_bytes(&mut self.inbox, data);
        let ghost start = self.inbox@;
        let mut err: Option<CodecError> = None;
        let mut done = false;
        while !done
            invariant
                self.remote == old(self).remote,
                self.outbox@ == old(self).outbox@,
                start == old(self).inbox@ + data@,
                !done ==> self.codec.failed is None && err is None,
                done ==> self.codec.failed == err,
                !done ==> decode_all(start) == (
                    messages_view(msgs@) + decode_all(self.inbox@).0,
                    decode_all(self.inbox@).1,
                    decode_all(self.inbox@).2,
                ),
                done ==> decode_all(start) == (messages_view(msgs@), self.inbox@, err),
            decreases self.inbox@.len() + (if done {
                0int
            } else {
                1int
            }),
        {
            let ghost cur = self.inbox@;
            let ghost before = msgs@;
            let step = self.codec.decode(&mut self.inbox);
            match step {
                Ok(Some(m)) => {
                    msgs.push(m);
                    proof {
                        assert(messages_view(msgs@) =~= messages_view(before).push(m@));
                        assert(seq![m@] + decode_all(self.inbox@).0 =~= decode_all(cur).0);
                        assert(messages_view(before) + decode_all(cur).0 =~= messages_view(msgs@)
                            + decode_all(self.inbox@).0);
                    }
                },
                Ok(None) => {
                    done = true;
                    assert(messages_view(msgs@) + Seq::<MessageModel>::empty() =~= messages_view(
                        msgs@,
                    ));
                },
                Err(e) => {
                    err = Some(e);
                    done = true;
                    assert(messages_view(msgs@) + Seq::<MessageModel>::empty() =~= messages_view(
                        msgs@,
                    ));
                },
            }
        }
        (msgs, err)
    }
}

} // verus!
