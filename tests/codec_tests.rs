use gossip_node::addr::PeerAddr;
use gossip_node::codec::{CodecError, Message, P2PCodec, Request, Response};

fn gossip(t: &str) -> Message {
    Message::Request(Request::RandomGossip(t.to_string()))
}

fn encode(m: &Message) -> Vec<u8> {
    let mut c = P2PCodec::new();
    let mut out = Vec::new();
    c.encode(m, &mut out);
    out
}

fn decode_one(bytes: &[u8]) -> (Result<Option<Message>, CodecError>, Vec<u8>) {
    let mut c = P2PCodec::new();
    let mut buf = bytes.to_vec();
    let r = c.decode(&mut buf);
    (r, buf)
}

fn addr(a: u8, b: u8, c: u8, d: u8, port: u16) -> PeerAddr {
    PeerAddr { ip0: a, ip1: b, ip2: c, ip3: d, port }
}

#[test]
fn encodes_gossip_frame() {
    assert_eq!(encode(&gossip("hello")), b"GOSSIP hello\r\n".to_vec());
}

#[test]
fn encodes_peer_list_request_frame() {
    let m = Message::Request(Request::PeerListRequest);
    assert_eq!(encode(&m), b"PEERS?\r\n".to_vec());
}

#[test]
fn encodes_peer_list_frame() {
    let m = Message::Response(Response::PeerListResponse(vec![
        PeerAddr::localhost(9001),
        addr(10, 0, 42, 255, 65535),
    ]));
    assert_eq!(
        encode(&m),
        b"PEERS 127.000.000.001:09001,010.000.042.255:65535,\r\n".to_vec()
    );
}

#[test]
fn encodes_empty_peer_list_frame() {
    let m = Message::Response(Response::PeerListResponse(vec![]));
    assert_eq!(encode(&m), b"PEERS \r\n".to_vec());
}

#[test]
fn round_trip_every_variant() {
    let msgs = vec![
        gossip("hello"),
        gossip(""),
        gossip("h\u{e9}llo w\u{f6}rld \u{1F600}"),
        Message::Request(Request::PeerListRequest),
        Message::Response(Response::PeerListResponse(vec![])),
        Message::Response(Response::PeerListResponse(vec![
            PeerAddr::localhost(9001),
            PeerAddr::localhost(9002),
            addr(0, 0, 0, 0, 0),
        ])),
    ];
    for m in msgs {
        assert!(m.is_well_formed());
        let (r, rest) = decode_one(&encode(&m));
        assert_eq!(r, Ok(Some(m)));
        assert!(rest.is_empty());
    }
}

#[test]
fn decodes_non_ascii_gossip_text() {
    let (r, _) = decode_one("GOSSIP caf\u{e9}\r\n".as_bytes());
    assert_eq!(r, Ok(Some(gossip("caf\u{e9}"))));
}

#[test]
fn frame_split_across_two_arrivals() {
    let frame = encode(&gossip("split me"));
    let mut c = P2PCodec::new();
    let mut buf = frame[..5].to_vec();
    assert_eq!(c.decode(&mut buf), Ok(None));
    assert_eq!(buf, frame[..5].to_vec());
    buf.extend_from_slice(&frame[5..]);
    assert_eq!(c.decode(&mut buf), Ok(Some(gossip("split me"))));
    assert!(buf.is_empty());
    assert_eq!(c.decode(&mut buf), Ok(None));
}

#[test]
fn split_between_cr_and_lf() {
    let frame = encode(&Message::Request(Request::PeerListRequest));
    let mut c = P2PCodec::new();
    let mut buf = frame[..frame.len() - 1].to_vec();
    assert_eq!(c.decode(&mut buf), Ok(None));
    buf.push(b'\n');
    assert_eq!(
        c.decode(&mut buf),
        Ok(Some(Message::Request(Request::PeerListRequest)))
    );
}

#[test]
fn two_frames_decode_one_at_a_time() {
    let mut buf = encode(&gossip("one"));
    buf.extend(encode(&gossip("two")));
    buf.extend_from_slice(b"GOSS");
    let mut c = P2PCodec::new();
    assert_eq!(c.decode(&mut buf), Ok(Some(gossip("one"))));
    assert_eq!(c.decode(&mut buf), Ok(Some(gossip("two"))));
    assert_eq!(c.decode(&mut buf), Ok(None));
    assert_eq!(buf, b"GOSS".to_vec());
}

#[test]
fn unknown_tag_fails_and_stream_stays_unusable() {
    let mut c = P2PCodec::new();
    let mut buf = b"HELLO there\r\n".to_vec();
    buf.extend(encode(&gossip("after")));
    assert_eq!(c.decode(&mut buf), Err(CodecError::UnknownMessageType));
    assert_eq!(c.failed, Some(CodecError::UnknownMessageType));
    assert_eq!(c.decode(&mut buf), Err(CodecError::UnknownMessageType));
    assert_eq!(buf, encode(&gossip("after")));
}

#[test]
fn unknown_bare_tag_fails() {
    let (r, rest) = decode_one(b"PING\r\n");
    assert_eq!(r, Err(CodecError::UnknownMessageType));
    assert!(rest.is_empty());
}

#[test]
fn newline_without_carriage_return_is_a_framing_error() {
    let (r, _) = decode_one(b"PEERS?\n");
    assert_eq!(r, Err(CodecError::FramingError));
    let (r, _) = decode_one(b"\n");
    assert_eq!(r, Err(CodecError::FramingError));
}

#[test]
fn invalid_utf8_is_a_framing_error() {
    let (r, _) = decode_one(b"GOSSIP \xff\xfe\r\n");
    assert_eq!(r, Err(CodecError::FramingError));
    let (r, _) = decode_one(b"\xc3\x28 x\r\n");
    assert_eq!(r, Err(CodecError::FramingError));
}

#[test]
fn malformed_peer_lists_are_framing_errors() {
    for bad in [
        &b"PEERS 127.000.000.001:09001\r\n"[..],
        &b"PEERS 127.000.000.001-09001,\r\n"[..],
        &b"PEERS 256.000.000.001:09001,\r\n"[..],
        &b"PEERS 127.000.000.001:65536,\r\n"[..],
        &b"PEERS 127.0x0.000.001:09001,\r\n"[..],
        &b"PEERS\r\n"[..],
        &b"GOSSIP\r\n"[..],
        &b"PEERS? x\r\n"[..],
    ] {
        let (r, _) = decode_one(bad);
        assert_eq!(r, Err(CodecError::FramingError), "{:?}", bad);
    }
}

#[test]
fn gossip_with_line_break_is_not_well_formed() {
    assert!(!gossip("a\nb").is_well_formed());
    assert!(!gossip("a\rb").is_well_formed());
    assert!(gossip("a b").is_well_formed());
}

#[test]
fn localhost_address() {
    assert_eq!(PeerAddr::localhost(9001), addr(127, 0, 0, 1, 9001));
}
