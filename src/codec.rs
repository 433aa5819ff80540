//! Frame codec and protocol messages.
//!
//! A frame is a payload followed by `\r\n`. A payload is a tag, and for the
//! messages that carry data a single space and the data:
//! `GOSSIP <text>`, `PEERS?`, `PEERS <list>`, where a list is each address in
//! its text form followed by a comma.

use vstd::prelude::*;
use vstd::utf8::valid_utf8;
use vstd::utf8::decode_utf8;
use vstd::utf8::encode_utf8;
use vstd::utf8::encode_utf8_valid_utf8;
use vstd::utf8::encode_utf8_decode_utf8;
use vstd::utf8::valid_utf8_concat;
use vstd::string::StringSliceAdditionalSpecFns;
use crate::addr::PeerAddr;
use crate::addr::addr_text;
use crate::addr::addr_of;
use crate::addr::is_digit;
use crate::addr::lemma_addr_text;
use crate::addr::write_digits;
use crate::addr::read_digits;
use crate::addr::ADDR_TEXT_LEN;

verus! {

/// Why a frame could not be decoded. Either one ends the stream.
#[derive(Clone, Copy, Debug, PartialEq, Eq, Structural)]
pub enum CodecError {
    /// The frame is not terminated by `\r\n`, is not UTF-8, or its data is malformed.
    FramingError,
    /// The frame's tag is none of the protocol's tags.
    UnknownMessageType,
}

/// A message that asks something of the receiving node.
#[derive(Clone, Debug, PartialEq, Eq)]
pub enum Request {
    RandomGossip(String),
    PeerListRequest,
}

/// A message that answers a request.
#[derive(Clone, Debug, PartialEq, Eq)]
pub enum Response {
    PeerListResponse(Vec<PeerAddr>),
}

/// Any message of the protocol.
#[derive(Clone, Debug, PartialEq, Eq)]
pub enum Message {
    Request(Request),
    Response(Response),
}

/// The mathematical value of a message.
pub enum MessageModel {
    Gossip(Seq<char>),
    PeerListRequest,
    PeerList(Seq<PeerAddr>),
}

impl View for Message {
    type V = MessageModel;

    open spec fn view(&self) -> MessageModel {
        match self {
            Message::Request(Request::RandomGossip(t)) => MessageModel::Gossip(t@),
            Message::Request(Request::PeerListRequest) => MessageModel::PeerListRequest,
            Message::Response(Response::PeerListResponse(l)) => MessageModel::PeerList(l@),
        }
    }
}

/// A message is well formed when its gossip text, as UTF-8, holds no CR or
/// LF byte, so that it cannot end its frame early.
pub open spec fn wf_message(m: MessageModel) -> bool {
    match m {
        MessageModel::Gossip(t) => !encode_utf8(t).contains(10u8) && !encode_utf8(t).contains(
            13u8,
        ),
        _ => true,
    }
}

pub open spec fn tag_gossip() -> Seq<u8> {
    seq![71u8, 79u8, 83u8, 83u8, 73u8, 80u8]
}

pub open spec fn tag_peers_request() -> Seq<u8> {
    seq![80u8, 69u8, 69u8, 82u8, 83u8, 63u8]
}

pub open spec fn tag_peers() -> Seq<u8> {
    seq![80u8, 69u8, 69u8, 82u8, 83u8]
}

/// Text form of an address list: each address followed by a comma.
pub open spec fn list_text(l: Seq<PeerAddr>) -> Seq<u8>
    decreases l.len(),
{
    if l.len() == 0 {
        seq![]
    } else {
        list_text(l.drop_last()) + addr_text(l.last()) + seq![44u8]
    }
}

/// The address list that a text spells, if it is well formed.
pub open spec fn parse_list(b: Seq<u8>) -> Option<Seq<PeerAddr>> {
    let n = b.len() / 22;
    if b.len() % 22 == 0 && forall|i: int|
        0 <= i < n ==> (#[trigger] addr_of(b.subrange(22 * i, 22 * i + 21))) is Some && b[22 * i
            + 21] == 44 {
        Some(Seq::new(n, |i: int| addr_of(b.subrange(22 * i, 22 * i + 21))->0))
    } else {
        None
    }
}

pub open spec fn payload_of(m: MessageModel) -> Seq<u8> {
    match m {
        MessageModel::Gossip(t) => tag_gossip() + seq![32u8] + encode_utf8(t),
        MessageModel::PeerListRequest => tag_peers_request(),
        MessageModel::PeerList(l) => tag_peers() + seq![32u8] + list_text(l),
    }
}

/// The bytes of the frame that carries `m`.
pub open spec fn encode_spec(m: MessageModel) -> Seq<u8> {
    payload_of(m) + seq![13u8, 10u8]
}

/// `i` is the first position of byte `b` in `s`.
pub open spec fn first_at(s: Seq<u8>, b: u8, i: int) -> bool {
    0 <= i < s.len() && s[i] == b && forall|j: int| 0 <= j < i ==> s[j] != b
}

pub open spec fn find(s: Seq<u8>, b: u8) -> Option<int> {
    if exists|i: int| first_at(s, b, i) {
        Some(choose|i: int| first_at(s, b, i))
    } else {
        None
    }
}

/// The message that a payload (a frame without its `\r\n`) carries.
pub open spec fn decode_payload(p: Seq<u8>) -> Result<MessageModel, CodecError> {
    if !valid_utf8(p) {
        Err(CodecError::FramingError)
    } else {
        match find(p, 32) {
            Some(k) => {
                let tag = p.subrange(0, k);
                let body = p.subrange(k + 1, p.len() as int);
                if tag == tag_gossip() {
                    if valid_utf8(body) {
                        Ok(MessageModel::Gossip(decode_utf8(body)))
                    } else {
                        Err(CodecError::FramingError)
                    }
                } else if tag == tag_peers() {
                    match parse_list(body) {
                        Some(l) => Ok(MessageModel::PeerList(l)),
                        None => Err(CodecError::FramingError),
                    }
                } else if tag == tag_peers_request() {
                    Err(CodecError::FramingError)
                } else {
                    Err(CodecError::UnknownMessageType)
                }
            },
            None => {
                if p == tag_peers_request() {
                    Ok(MessageModel::PeerListRequest)
                } else if p == tag_gossip() || p == tag_peers() {
                    Err(CodecError::FramingError)
                } else {
                    Err(CodecError::UnknownMessageType)
                }
            },
        }
    }
}

/// One step of decoding a buffer: the outcome and the bytes left in it.
/// Without a newline nothing is taken. Otherwise the first frame, up to and
/// including the first newline, is taken, whatever the outcome.
pub open spec fn decode_spec(s: Seq<u8>) -> (Result<Option<MessageModel>, CodecError>, Seq<u8>) {
    match find(s, 10) {
        None => (Ok(None), s),
        Some(i) => {
            let rest = s.subrange(i + 1, s.len() as int);
            if i == 0 || s[i - 1] != 13 {
                (Err(CodecError::FramingError), rest)
            } else {
                match decode_payload(s.subrange(0, i - 1)) {
                    Ok(m) => (Ok(Some(m)), rest),
                    Err(e) => (Err(e), rest),
                }
            }
        },
    }
}

proof fn lemma_find(s: Seq<u8>, b: u8, i: int)
    requires
        first_at(s, b, i),
    ensures
        find(s, b) == Some(i),
{
    let k = choose|k: int| first_at(s, b, k);
    assert(k == i) by {
        if k < i {
            assert(s[k] != b);
        } else if k > i {
            assert(s[i] != b);
        }
    }
}

proof fn lemma_find_none(s: Seq<u8>, b: u8)
    requires
        !s.contains(b),
    ensures
        find(s, b) is None,
{
    if exists|i: int| first_at(s, b, i) {
        let i = choose|i: int| first_at(s, b, i);
        assert(s.contains(b)) by {
            assert(s[i] == b);
        }
    }
}

/// Bytes below 128 always form valid UTF-8.
proof fn lemma_ascii_valid(b: Seq<u8>)
    requires
        forall|i: int| 0 <= i < b.len() ==> #[trigger] b[i] < 128,
    ensures
        valid_utf8(b),
    decreases b.len(),
{
    if b.len() > 0 {
        let b0 = b[0];
        assert((b0 & 0x7f) as u32 <= 0x7f) by (bit_vector);
        let rest = b.subrange(1, b.len() as int);
        lemma_ascii_valid(rest);
    }
}

pub open spec fn list_byte(x: u8) -> bool {
    is_digit(x) || x == 46 || x == 58 || x == 44
}

proof fn lemma_list_text(l: Seq<PeerAddr>)
    ensures
        list_text(l).len() == 22 * l.len(),
        forall|i: int| 0 <= i < list_text(l).len() ==> list_byte(#[trigger] list_text(l)[i]),
        forall|i: int|
            0 <= i < l.len() ==> #[trigger] list_text(l).subrange(22 * i, 22 * i + 21)
                == addr_text(l[i]) && list_text(l)[22 * i + 21] == 44,
    decreases l.len(),
{
    if l.len() > 0 {
        let init = l.drop_last();
        lemma_list_text(init);
        let a = l.last();
        lemma_addr_text(a);
        let t = list_text(l);
        let p = list_text(init);
        let n = init.len() as int;
        assert(t == p + addr_text(a) + seq![44u8]);
        assert forall|i: int| 0 <= i < t.len() implies list_byte(#[trigger] t[i]) by {
            if i >= 22 * n && i < 22 * n + 21 {
                assert(t[i] == addr_text(a)[i - 22 * n]);
            }
        }
        assert forall|i: int| 0 <= i < l.len() implies #[trigger] t.subrange(22 * i, 22 * i + 21)
            == addr_text(l[i]) && t[22 * i + 21] == 44 by {
            if i < n {
                assert(t.subrange(22 * i, 22 * i + 21) =~= p.subrange(22 * i, 22 * i + 21));
                assert(l[i] == init[i]);
            } else {
                assert(t.subrange(22 * i, 22 * i + 21) =~= addr_text(a));
            }
        }
    }
}

proof fn lemma_parse_list(l: Seq<PeerAddr>)
    ensures
        parse_list(list_text(l)) == Some(l),
{
    lemma_list_text(l);
    let b = list_text(l);
    let n = l.len() as int;
    assert(b.len() / 22 == n && b.len() % 22 == 0) by (nonlinear_arith)
        requires
            b.len() == 22 * n,
            n >= 0,
    ;
    assert forall|i: int| 0 <= i < n implies (#[trigger] addr_of(
        b.subrange(22 * i, 22 * i + 21),
    )) == Some(l[i]) && b[22 * i + 21] == 44 by {
        lemma_addr_text(l[i]);
    }
    assert(Seq::new(n as nat, |i: int| addr_of(b.subrange(22 * i, 22 * i + 21))->0) =~= l);
}

proof fn lemma_payload_gossip(t: Seq<char>)
    requires
        wf_message(MessageModel::Gossip(t)),
    ensures
        !payload_of(MessageModel::Gossip(t)).contains(10u8),
        decode_payload(payload_of(MessageModel::Gossip(t))) == Ok::<MessageModel, CodecError>(
            MessageModel::Gossip(t),
        ),
{
    let p = payload_of(MessageModel::Gossip(t));
    let head = tag_gossip() + seq![32u8];
    lemma_ascii_valid(head);
    encode_utf8_valid_utf8(t);
    valid_utf8_concat(head, encode_utf8(t));
    assert(first_at(p, 32, 6));
    lemma_find(p, 32, 6);
    assert(p.subrange(0, 6) =~= tag_gossip());
    assert(p.subrange(7, p.len() as int) =~= encode_utf8(t));
    encode_utf8_decode_utf8(t);
    assert(!p.contains(10u8)) by {
        if p.contains(10u8) {
            let i = choose|i: int| 0 <= i < p.len() && p[i] == 10u8;
            assert(encode_utf8(t)[i - 7] == 10u8);
        }
    }
}

proof fn lemma_payload_request()
    ensures
        !payload_of(MessageModel::PeerListRequest).contains(10u8),
        decode_payload(payload_of(MessageModel::PeerListRequest)) == Ok::<
            MessageModel,
            CodecError,
        >(MessageModel::PeerListRequest),
{
    let p = payload_of(MessageModel::PeerListRequest);
    lemma_ascii_valid(p);
    lemma_find_none(p, 32);
}

proof fn lemma_payload_list(l: Seq<PeerAddr>)
    ensures
        !payload_of(MessageModel::PeerList(l)).contains(10u8),
        decode_payload(payload_of(MessageModel::PeerList(l))) == Ok::<MessageModel, CodecError>(
            MessageModel::PeerList(l),
        ),
{
    let p = payload_of(MessageModel::PeerList(l));
    lemma_list_text(l);
    lemma_parse_list(l);
    assert(forall|i: int| 0 <= i < p.len() ==> #[trigger] p[i] < 128) by {
        assert forall|i: int| 0 <= i < p.len() implies #[trigger] p[i] < 128 by {
            if i >= 6 {
                assert(p[i] == list_text(l)[i - 6]);
            }
        }
    }
    lemma_ascii_valid(p);
    assert(first_at(p, 32, 5));
    lemma_find(p, 32, 5);
    assert(p.subrange(0, 5) =~= tag_peers());
    assert(p.subrange(6, p.len() as int) =~= list_text(l));
    assert(!p.contains(10u8)) by {
        if p.contains(10u8) {
            let i = choose|i: int| 0 <= i < p.len() && p[i] == 10u8;
            assert(list_text(l)[i - 6] == 10u8);
        }
    }
}

/// The payload of a well-formed message holds no newline and decodes back to it.
proof fn lemma_payload(m: MessageModel)
    requires
        wf_message(m),
    ensures
        !payload_of(m).contains(10u8),
        decode_payload(payload_of(m)) == Ok::<MessageModel, CodecError>(m),
{
    match m {
        MessageModel::Gossip(t) => lemma_payload_gossip(t),
        MessageModel::PeerListRequest => lemma_payload_request(),
        MessageModel::PeerList(l) => lemma_payload_list(l),
    }
}

/// Decoding a buffer that starts with the frame of a well-formed message
/// yields that message and leaves exactly the bytes after the frame.
pub proof fn lemma_round_trip(m: MessageModel, rest: Seq<u8>)
    requires
        wf_message(m),
    ensures
        decode_spec(encode_spec(m) + rest) == (Ok::<Option<MessageModel>, CodecError>(Some(m)), rest),
{
    lemma_payload(m);
    let p = payload_of(m);
    let s = encode_spec(m) + rest;
    let i: int = p.len() as int + 1;
    assert forall|j: int| 0 <= j < i implies s[j] != 10 by {
        if j < p.len() {
            assert(s[j] == p[j]);
        }
    }
    assert(first_at(s, 10, i));
    lemma_find(s, 10, i);
    assert(s.subrange(0, i - 1) =~= p);
    assert(s.subrange(i + 1, s.len() as int) =~= rest);
}

/// A frame that arrives in two pieces is decoded once, whole, after the second
/// piece: the first piece alone yields nothing and is kept, the whole frame
/// yields the message and leaves nothing, and an empty buffer yields nothing.
pub proof fn lemma_split_frame(m: MessageModel, k: int)
    requires
        wf_message(m),
        0 <= k < encode_spec(m).len(),
    ensures
        decode_spec(encode_spec(m).subrange(0, k)) == (
        Ok::<Option<MessageModel>, CodecError>(None),
        encode_spec(m).subrange(0, k),
        ),
        decode_spec(encode_spec(m)) == (
        Ok::<Option<MessageModel>, CodecError>(Some(m)),
        Seq::<u8>::empty(),
        ),
        decode_spec(Seq::<u8>::empty()) == (
        Ok::<Option<MessageModel>, CodecError>(None),
        Seq::<u8>::empty(),
        ),
{
    lemma_payload(m);
    let e = encode_spec(m);
    let pre = e.subrange(0, k);
    assert(!pre.contains(10u8)) by {
        if pre.contains(10u8) {
            let i = choose|i: int| 0 <= i < pre.len() && pre[i] == 10u8;
            if i < payload_of(m).len() {
                assert(payload_of(m)[i] == 10u8);
            }
        }
    }
    lemma_find_none(pre, 10);
    lemma_find_none(Seq::<u8>::empty(), 10);
    lemma_round_trip(m, Seq::<u8>::empty());
    assert(e + Seq::<u8>::empty() =~= e);
}

/// The tag of a payload: the bytes before its first space, or all of it.
pub open spec fn tag_of(p: Seq<u8>) -> Seq<u8> {
    match find(p, 32) {
        Some(k) => p.subrange(0, k),
        None => p,
    }
}

/// A complete frame whose UTF-8 payload has a tag outside the protocol's
/// fails with `UnknownMessageType`, and the frame is taken off the buffer.
pub proof fn lemma_unknown_tag(p: Seq<u8>, rest: Seq<u8>)
    requires
        valid_utf8(p),
        !p.contains(10u8),
        tag_of(p) != tag_gossip(),
        tag_of(p) != tag_peers(),
        tag_of(p) != tag_peers_request(),
    ensures
        decode_spec(p + seq![13u8, 10u8] + rest) == (
        Err::<Option<MessageModel>, CodecError>(CodecError::UnknownMessageType),
        rest,
        ),
{
    let s = p + seq![13u8, 10u8] + rest;
    let i: int = p.len() as int + 1;
    assert forall|j: int| 0 <= j < i implies s[j] != 10 by {
        if j < p.len() {
            assert(s[j] == p[j]);
        }
    }
    assert(first_at(s, 10, i));
    lemma_find(s, 10, i);
    assert(s.subrange(0, i - 1) =~= p);
    assert(s.subrange(i + 1, s.len() as int) =~= rest);
}

/// What a decoding step returns, over the messages' values.
pub open spec fn outcome_view(r: Result<Option<Message>, CodecError>) -> Result<
    Option<MessageModel>,
    CodecError,
> {
    match r {
        Ok(Some(m)) => Ok(Some(m@)),
        Ok(None) => Ok(None),
        Err(e) => Err(e),
    }
}

pub open spec fn payload_view(r: Result<Message, CodecError>) -> Result<MessageModel, CodecError> {
    match r {
        Ok(m) => Ok(m@),
        Err(e) => Err(e),
    }
}

/// Relies on `String::from_utf8`: it succeeds exactly on valid UTF-8, and the
/// string then holds the characters that the bytes encode.
#[verifier::external_body]
fn utf8_string(b: Vec<u8>) -> (r: Option<String>)
    ensures
        r is Some <==> valid_utf8(b@),
        r is Some ==> r->0@ == decode_utf8(b@),
{
    String::from_utf8(b).ok()
}

/// The first position of `b` in `s`.
fn find_byte(s: &Vec<u8>, b: u8) -> (r: Option<usize>)
    ensures
        r is Some <==> find(s@, b) is Some,
        r is Some ==> find(s@, b) == Some(r->0 as int) && first_at(s@, b, r->0 as int),
{
    let n = s.len();
    let mut i: usize = 0;
    while i < n
        invariant
            n == s@.len(),
            i <= n,
            forall|j: int| 0 <= j < i ==> s@[j] != b,
        decreases n - i,
    {
        if s[i] == b {
            proof {
                lemma_find(s@, b, i as int);
            }
            return Some(i);
        }
        i = i + 1;
    }
    proof {
        lemma_find_none(s@, b);
    }
    None
}

/// The bytes of `s` from `lo` up to `hi`.
fn copy_range(s: &Vec<u8>, lo: usize, hi: usize) -> (r: Vec<u8>)
    requires
        lo <= hi <= s@.len(),
    ensures
        r@ == s@.subrange(lo as int, hi as int),
{
    let mut r: Vec<u8> = Vec::new();
    let mut i: usize = lo;
    while i < hi
        invariant
            lo <= i <= hi <= s@.len(),
            r@ == s@.subrange(lo as int, i as int),
        decreases hi - i,
    {
        r.push(s[i]);
        i = i + 1;
        assert(r@ =~= s@.subrange(lo as int, i as int));
    }
    r
}

fn bytes_equal(a: &Vec<u8>, b: &Vec<u8>) -> (r: bool)
    ensures
        r == (a@ == b@),
{
    if a.len() != b.len() {
        return false;
    }
    let n = a.len();
    let mut i: usize = 0;
    while i < n
        invariant
            n == a@.len() == b@.len(),
            i <= n,
            forall|j: int| 0 <= j < i ==> a@[j] == b@[j],
        decreases n - i,
    {
        if a[i] != b[i] {
            return false;
        }
        i = i + 1;
    }
    assert(a@ =~= b@);
    true
}

fn gossip_tag() -> (r: Vec<u8>)
    ensures
        r@ == tag_gossip(),
{
    let mut r: Vec<u8> = Vec::new();
    r.push(71);
    r.push(79);
    r.push(83);
    r.push(83);
    r.push(73);
    r.push(80);
    assert(r@ =~= tag_gossip());
    r
}

fn peers_request_tag() -> (r: Vec<u8>)
    ensures
        r@ == tag_peers_request(),
{
    let mut r: Vec<u8> = Vec::new();
    r.push(80);
    r.push(69);
    r.push(69);
    r.push(82);
    r.push(83);
    r.push(63);
    assert(r@ =~= tag_peers_request());
    r
}

fn peers_tag() -> (r: Vec<u8>)
    ensures
        r@ == tag_peers(),
{
    let mut r: Vec<u8> = Vec::new();
    r.push(80);
    r.push(69);
    r.push(69);
    r.push(82);
    r.push(83);
    assert(r@ =~= tag_peers());
    r
}

/// Reads the address whose text starts at `k`.
fn read_addr(b: &Vec<u8>, k: usize) -> (r: Option<PeerAddr>)
    requires
        k + ADDR_TEXT_LEN <= b@.len(),
    ensures
        r == addr_of(b@.subrange(k as int, k + 21)),
{
    let len = b.len();
    assert(k + 21 <= len);
    let ghost t = b@.subrange(k as int, k + 21);
    assert(b@.subrange(k as int, k + 3) =~= t.subrange(0, 3));
    assert(b@.subrange(k + 4, k + 7) =~= t.subrange(4, 7));
    assert(b@.subrange(k + 8, k + 11) =~= t.subrange(8, 11));
    assert(b@.subrange(k + 12, k + 15) =~= t.subrange(12, 15));
    assert(b@.subrange(k + 16, k + 21) =~= t.subrange(16, 21));
    assert(t[3] == b@[k + 3] && t[7] == b@[k + 7] && t[11] == b@[k + 11] && t[15] == b@[k + 15]);
    if b[k + 3] != 46 || b[k + 7] != 46 || b[k + 11] != 46 || b[k + 15] != 58 {
        return None;
    }
    let f0 = read_digits(b, k, 3);
    let f1 = read_digits(b, k + 4, 3);
    let f2 = read_digits(b, k + 8, 3);
    let f3 = read_digits(b, k + 12, 3);
    let fp = read_digits(b, k + 16, 5);
    match (f0, f1, f2, f3, fp) {
        (Some(v0), Some(v1), Some(v2), Some(v3), Some(vp)) => {
            if v0 < 256 && v1 < 256 && v2 < 256 && v3 < 256 && vp < 65536 {
                Some(
                    PeerAddr {
                        ip0: v0 as u8,
                        ip1: v1 as u8,
                        ip2: v2 as u8,
                        ip3: v3 as u8,
                        port: vp as u16,
                    },
                )
            } else {
                None
            }
        },
        _ => None,
    }
}

/// Reads an address list.
fn read_list(b: &Vec<u8>) -> (r: Option<Vec<PeerAddr>>)
    ensures
        r is Some <==> parse_list(b@) is Some,
        r is Some ==> r->0@ == parse_list(b@)->0,
{
    let len = b.len();
    if len % 22 != 0 {
        return None;
    }
    let n = len / 22;
    let mut out: Vec<PeerAddr> = Vec::new();
    let mut i: usize = 0;
    while i < n
        invariant
            len == b@.len(),
            len % 22 == 0,
            n == len / 22,
            i <= n,
            out@.len() == i,
            forall|j: int|
                0 <= j < i ==> (#[trigger] addr_of(b@.subrange(22 * j, 22 * j + 21))) is Some
                    && b@[22 * j + 21] == 44 && out@[j] == addr_of(
                    b@.subrange(22 * j, 22 * j + 21),
                )->0,
        decreases n - i,
    {
        assert(22 * i + 22 <= len) by (nonlinear_arith)
            requires
                i < n,
                n == len / 22,
        ;
        let k = 22 * i;
        let a = read_addr(b, k);
        match a {
            Some(x) => {
                if b[k + 21] != 44 {
                    return None;
                }
                out.push(x);
            },
            None => {
                return None;
            },
        }
        i = i + 1;
    }
    assert(out@ =~= parse_list(b@)->0);
    Some(out)
}

/// Decodes a payload: a frame without its `\r\n`.
fn decode_payload_bytes(p: Vec<u8>) -> (r: Result<Message, CodecError>)
    ensures
        payload_view(r) == decode_payload(p@),
{
    let whole = p.clone();
    assert(whole@ == p@);
    if utf8_string(whole).is_none() {
        return Err(CodecError::FramingError);
    }
    match find_byte(&p, 32) {
        Some(k) => {
            let tag = copy_range(&p, 0, k);
            let body = copy_range(&p, k + 1, p.len());
            if bytes_equal(&tag, &gossip_tag()) {
                match utf8_string(body) {
                    Some(t) => Ok(Message::Request(Request::RandomGossip(t))),
                    None => Err(CodecError::FramingError),
                }
            } else if bytes_equal(&tag, &peers_tag()) {
                match read_list(&body) {
                    Some(l) => Ok(Message::Response(Response::PeerListResponse(l))),
                    None => Err(CodecError::FramingError),
                }
            } else if bytes_equal(&tag, &peers_request_tag()) {
                Err(CodecError::FramingError)
            } else {
                Err(CodecError::UnknownMessageType)
            }
        },
        None => {
            if bytes_equal(&p, &peers_request_tag()) {
                Ok(Message::Request(Request::PeerListRequest))
            } else if bytes_equal(&p, &gossip_tag()) || bytes_equal(&p, &peers_tag()) {
                Err(CodecError::FramingError)
            } else {
                Err(CodecError::UnknownMessageType)
            }
        },
    }
}

pub(crate) fn append_bytes(dst: &mut Vec<u8>, src: &[u8])
    ensures
        final(dst)@ == old(dst)@ + src@,
{
    let n = src.len();
    let mut i: usize = 0;
    while i < n
        invariant
            n == src@.len(),
            i <= n,
            dst@ == old(dst)@ + src@.subrange(0, i as int),
        decreases n - i,
    {
        dst.push(src[i]);
        i = i + 1;
        assert(dst@ =~= old(dst)@ + src@.subrange(0, i as int));
    }
    assert(src@.subrange(0, n as int) =~= src@);
}

/// Appends the text form of an address.
fn write_addr(dst: &mut Vec<u8>, a: PeerAddr)
    ensures
        final(dst)@ == old(dst)@ + addr_text(a),
{
    write_digits(dst, a.ip0 as u32, 3);
    dst.push(46);
    write_digits(dst, a.ip1 as u32, 3);
    dst.push(46);
    write_digits(dst, a.ip2 as u32, 3);
    dst.push(46);
    write_digits(dst, a.ip3 as u32, 3);
    dst.push(58);
    write_digits(dst, a.port as u32, 5);
    assert(final(dst)@ =~= old(dst)@ + addr_text(a));
}

/// Appends the text form of an address list.
fn write_list(dst: &mut Vec<u8>, l: &Vec<PeerAddr>)
    ensures
        final(dst)@ == old(dst)@ + list_text(l@),
{
    let n = l.len();
    let mut i: usize = 0;
    while i < n
        invariant
            n == l@.len(),
            i <= n,
            dst@ == old(dst)@ + list_text(l@.subrange(0, i as int)),
        decreases n - i,
    {
        write_addr(dst, l[i]);
        dst.push(44);
        proof {
            let s = l@.subrange(0, i + 1);
            assert(s.drop_last() =~= l@.subrange(0, i as int));
            assert(s.last() == l@[i as int]);
        }
        i = i + 1;
        assert(dst@ =~= old(dst)@ + list_text(l@.subrange(0, i as int)));
    }
    assert(l@.subrange(0, n as int) =~= l@);
}

impl Message {
    /// Whether the message is well formed: its gossip text holds no CR or LF.
    pub fn is_well_formed(&self) -> (r: bool)
        ensures
            r == wf_message(self@),
    {
        match self {
            Message::Request(Request::RandomGossip(t)) => {
                let b = t.as_str().as_bytes();
                let n = b.len();
                let mut i: usize = 0;
                while i < n
                    invariant
                        n == b@.len(),
                        b@ == encode_utf8(t@),
                        self@ == MessageModel::Gossip(t@),
                        i <= n,
                        forall|j: int| 0 <= j < i ==> b@[j] != 10 && b@[j] != 13,
                    decreases n - i,
                {
                    if b[i] == 10 || b[i] == 13 {
                        proof {
                            let e = encode_utf8(t@);
                            assert(e[i as int] == b@[i as int]);
                            if e[i as int] == 10 {
                                assert(e.contains(10u8));
                            } else {
                                assert(e.contains(13u8));
                            }
                        }
                        return false;
                    }
                    i = i + 1;
                }
                true
            },
            _ => true,
        }
    }
}

/// Codec for one stream. Once a frame fails to decode the stream is out of
/// step, and every later decode returns the same error.
pub struct P2PCodec {
    pub failed: Option<CodecError>,
}

impl P2PCodec {
    pub fn new() -> (r: P2PCodec)
        ensures
            r.failed is None,
    {
        P2PCodec { failed: None }
    }

    /// Takes at most one frame off the front of `src`.
    pub fn decode(&mut self, src: &mut Vec<u8>) -> (r: Result<Option<Message>, CodecError>)
        ensures
            old(self).failed is Some ==> r == Err::<Option<Message>, CodecError>(
                old(self).failed->0,
            ) && final(src)@ == old(src)@ && final(self).failed == old(self).failed,
            old(self).failed is None ==> outcome_view(r) == decode_spec(old(src)@).0,
            old(self).failed is None ==> final(src)@ == decode_spec(old(src)@).1,
            old(self).failed is None ==> final(self).failed == (match r {
                Err(e) => Some(e),
                Ok(_) => None,
            }),
    {
        if let Some(e) = self.failed {
            return Err(e);
        }
        let n = src.len();
        let found = find_byte(src, 10);
        let i = match found {
            None => {
                return Ok(None);
            },
            Some(i) => i,
        };
        let rest = copy_range(src, i + 1, n);
        let r = if i == 0 || src[i - 1] != 13 {
            Err(CodecError::FramingError)
        } else {
            let p = copy_range(src, 0, i - 1);
            match decode_payload_bytes(p) {
                Ok(m) => Ok(Some(m)),
                Err(e) => Err(e),
            }
        };
        *src = rest;
        if let Err(e) = r {
            self.failed = Some(e);
        }
        r
    }

    /// Appends the frame of `msg` to `dst`.
    pub fn encode(&mut self, msg: &Message, dst: &mut Vec<u8>)
        ensures
            final(dst)@ == old(dst)@ + encode_spec(msg@),
            *final(self) == *old(self),
    {
        match msg {
            Message::Request(Request::RandomGossip(t)) => {
                append_bytes(dst, gossip_tag().as_slice());
                dst.push(32);
                append_bytes(dst, t.as_str().as_bytes());
            },
            Message::Request(Request::PeerListRequest) => {
                append_bytes(dst, peers_request_tag().as_slice());
            },
            Message::Response(Response::PeerListResponse(l)) => {
                append_bytes(dst, peers_tag().as_slice());
                dst.push(32);
                write_list(dst, l);
            },
        }
        dst.push(13);
        dst.push(10);
        assert(final(dst)@ =~= old(dst)@ + encode_spec(msg@));
    }
}

} // verus!
