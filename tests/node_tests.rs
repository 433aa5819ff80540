use gossip_node::addr::PeerAddr;
use gossip_node::codec::{CodecError, Message, Request, Response};
use gossip_node::peer::{Action, Connection, NodeState, Peer};

fn local(port: u16) -> PeerAddr {
    PeerAddr::localhost(port)
}

fn peer_list(l: Vec<PeerAddr>) -> Message {
    Message::Response(Response::PeerListResponse(l))
}

fn gossip(t: &str) -> Message {
    Message::Request(Request::RandomGossip(t.to_string()))
}

fn joined(port: u16, bootstrap: u16) -> Peer {
    let mut p = Peer::new(port as u32, 5, Some(local(bootstrap)));
    p.started();
    p.on_dial(local(bootstrap), true);
    p
}

#[test]
fn new_peer_is_idle() {
    let p = Peer::new(9001, 3, None);
    assert_eq!(p.socket_addr, local(9001));
    assert_eq!(p.period_secs, 3);
    assert_eq!(p.state, NodeState::Idle);
    assert!(p.peers.is_empty());
}

#[test]
fn bootstrap_node_listens_without_dialing() {
    let mut p = Peer::new(9001, 1, None);
    let acts = p.started();
    assert_eq!(p.state, NodeState::Listening);
    assert_eq!(acts, vec![Action::Listen(local(9001))]);
    assert!(p.started().is_empty());
}

#[test]
fn joining_node_dials_bootstrap() {
    let mut p = Peer::new(9002, 1, Some(local(9001)));
    let acts = p.started();
    assert_eq!(p.state, NodeState::Dialing);
    assert_eq!(acts, vec![Action::Listen(local(9002)), Action::Dial(local(9001))]);
}

#[test]
fn successful_bootstrap_dial_sends_one_peer_list_request() {
    let mut p = Peer::new(9002, 1, Some(local(9001)));
    p.started();
    let acts = p.on_dial(local(9001), true);
    assert_eq!(p.state, NodeState::Listening);
    assert_eq!(
        acts,
        vec![Action::Send(local(9001), Message::Request(Request::PeerListRequest))]
    );
    assert_eq!(p.peers, vec![local(9001)]);
}

#[test]
fn failed_bootstrap_dial_is_fatal() {
    let mut p = Peer::new(9002, 1, Some(local(9001)));
    p.started();
    let acts = p.on_dial(local(9001), false);
    assert_eq!(p.state, NodeState::Failed);
    assert_eq!(acts, vec![Action::Shutdown]);
}

#[test]
fn other_dial_results_change_nothing() {
    let mut p = joined(9002, 9001);
    assert!(p.on_dial(local(9005), false).is_empty());
    assert!(p.on_dial(local(9001), true).is_empty());
    assert_eq!(p.state, NodeState::Listening);
    assert_eq!(p.peers, vec![local(9001)]);
}

#[test]
fn peer_list_with_two_new_addresses_dials_each_once() {
    let mut p = joined(9002, 9001);
    let acts = p.on_peer_list(&vec![local(9003), local(9004)]);
    assert_eq!(acts, vec![Action::Dial(local(9003)), Action::Dial(local(9004))]);
    assert_eq!(p.peers, vec![local(9001), local(9003), local(9004)]);
}

#[test]
fn own_address_echoed_back_is_never_added() {
    let mut p = joined(9002, 9001);
    let acts = p.on_peer_list(&vec![local(9002), local(9001), local(9003), local(9003)]);
    assert_eq!(acts, vec![Action::Dial(local(9003))]);
    assert_eq!(p.peers, vec![local(9001), local(9003)]);
    assert!(!p.peers.contains(&local(9002)));
    p.on_inbound(local(9002));
    p.on_peer_list_request(local(9002));
    assert!(!p.peers.contains(&local(9002)));
}

#[test]
fn peer_list_before_listening_is_ignored() {
    let mut p = Peer::new(9002, 1, Some(local(9001)));
    p.started();
    assert!(p.on_peer_list(&vec![local(9003)]).is_empty());
    assert!(p.peers.is_empty());
}

#[test]
fn peer_list_request_is_answered_with_requester_included() {
    let mut p = Peer::new(9001, 1, None);
    p.started();
    let acts = p.on_peer_list_request(local(9002));
    assert_eq!(acts, vec![Action::Send(local(9002), peer_list(vec![local(9002)]))]);
    let acts = p.on_peer_list_request(local(9003));
    assert_eq!(
        acts,
        vec![Action::Send(local(9003), peer_list(vec![local(9002), local(9003)]))]
    );
}

#[test]
fn gossip_tick_reaches_every_peer() {
    let mut p = joined(9002, 9001);
    p.on_peer_list(&vec![local(9003)]);
    let acts = p.on_gossip_tick(&"word".to_string());
    assert_eq!(
        acts,
        vec![
            Action::Send(local(9001), gossip("word")),
            Action::Send(local(9003), gossip("word")),
        ]
    );
}

#[test]
fn gossip_tick_before_listening_sends_nothing() {
    let mut p = Peer::new(9002, 1, Some(local(9001)));
    p.started();
    assert!(p.on_gossip_tick(&"word".to_string()).is_empty());
}

#[test]
fn handle_routes_messages() {
    let mut p = joined(9002, 9001);
    assert!(p.handle(local(9001), gossip("hi")).is_empty());
    let acts = p.handle(local(9001), peer_list(vec![local(9003)]));
    assert_eq!(acts, vec![Action::Dial(local(9003))]);
    let acts = p.handle(local(9004), Message::Request(Request::PeerListRequest));
    assert_eq!(
        acts,
        vec![Action::Send(
            local(9004),
            peer_list(vec![local(9001), local(9003), local(9004)])
        )]
    );
}

#[test]
fn closed_connection_leaves_node_and_others_running() {
    let mut p = joined(9002, 9001);
    p.on_peer_list(&vec![local(9003)]);
    let mut a = Connection::new(local(9001));
    let mut b = Connection::new(local(9003));
    let (_, err) = a.receive(b"BOGUS\r\n");
    assert_eq!(err, Some(CodecError::UnknownMessageType));
    assert!(a.is_closed());
    assert!(p.on_connection_closed(local(9001)).is_empty());
    assert_eq!(p.state, NodeState::Listening);
    assert_eq!(p.peers, vec![local(9001), local(9003)]);
    let (msgs, err) = b.receive(b"GOSSIP ok\r\n");
    assert_eq!(msgs, vec![gossip("ok")]);
    assert_eq!(err, None);
    assert!(!b.is_closed());
    assert_eq!(p.on_gossip_tick(&"x".to_string()).len(), 2);
}

#[test]
fn connection_buffers_partial_frames() {
    let mut c = Connection::new(local(9001));
    let (msgs, err) = c.receive(b"GOSSIP a\r\nGOSSIP b\r\nPEE");
    assert_eq!(msgs, vec![gossip("a"), gossip("b")]);
    assert_eq!(err, None);
    assert_eq!(c.inbox, b"PEE".to_vec());
    let (msgs, err) = c.receive(b"RS?\r\n");
    assert_eq!(msgs, vec![Message::Request(Request::PeerListRequest)]);
    assert_eq!(err, None);
    assert!(c.inbox.is_empty());
}

#[test]
fn connection_error_keeps_earlier_messages_then_closes() {
    let mut c = Connection::new(local(9001));
    let (msgs, err) = c.receive(b"GOSSIP a\r\nNOPE\r\nGOSSIP b\r\n");
    assert_eq!(msgs, vec![gossip("a")]);
    assert_eq!(err, Some(CodecError::UnknownMessageType));
    let (msgs, err) = c.receive(b"GOSSIP c\r\n");
    assert!(msgs.is_empty());
    assert_eq!(err, Some(CodecError::UnknownMessageType));
}

#[test]
fn connection_output_is_fifo() {
    let mut c = Connection::new(local(9001));
    c.send(&gossip("first"));
    c.send(&Message::Request(Request::PeerListRequest));
    assert_eq!(c.take_output(), b"GOSSIP first\r\nPEERS?\r\n".to_vec());
    assert!(c.take_output().is_empty());
}

/// Carries every `Send` action of `from` over a connection to `to`, as bytes,
/// and lets `to` handle what arrives. Returns the gossip texts `to` received.
fn deliver(from: &Peer, acts: Vec<Action>, to: &mut Peer) -> (Vec<String>, Vec<Action>) {
    let mut out = Connection::new(to.socket_addr);
    let mut inc = Connection::new(from.socket_addr);
    let mut texts = Vec::new();
    let mut replies = Vec::new();
    for a in acts {
        if let Action::Send(dst, m) = a {
            if dst == to.socket_addr {
                out.send(&m);
            }
        }
    }
    let (msgs, err) = inc.receive(&out.take_output());
    assert_eq!(err, None);
    for m in msgs {
        if let Message::Request(Request::RandomGossip(t)) = &m {
            texts.push(t.clone());
        }
        replies.extend(to.handle(from.socket_addr, m));
    }
    (texts, replies)
}

#[test]
fn two_nodes_discover_each_other_and_gossip() {
    let mut n1 = Peer::new(9001, 1, None);
    let mut n2 = Peer::new(9002, 1, Some(local(9001)));
    assert_eq!(n1.started(), vec![Action::Listen(local(9001))]);
    n2.started();
    let acts = n2.on_dial(local(9001), true);
    let (_, replies) = deliver(&n2, acts, &mut n1);
    assert_eq!(n1.peers, vec![local(9002)]);
    let (_, more) = deliver(&n1, replies, &mut n2);
    assert!(more.is_empty());
    assert_eq!(n2.peers, vec![local(9001)]);
    let acts1 = n1.on_gossip_tick(&"apple".to_string());
    let acts2 = n2.on_gossip_tick(&"pear".to_string());
    let (got2, _) = deliver(&n1, acts1, &mut n2);
    let (got1, _) = deliver(&n2, acts2, &mut n1);
    assert_eq!(got2, vec!["apple".to_string()]);
    assert_eq!(got1, vec!["pear".to_string()]);
}
