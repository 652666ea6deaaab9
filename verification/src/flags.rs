//! The wire format: one flag byte, a length-prefixed UTF-8 topic and, for a
//! publish, a length-prefixed payload. Lengths are 32-bit, big-endian.

use crate::buffer::{bytes_as_slice, bytes_contents, bytes_from_vec, bytes_slice, string_from_utf8};
use bytes::Bytes;
use vstd::prelude::*;
use vstd::slice::{slice_subrange, slice_to_vec};
use vstd::string::StringSliceAdditionalSpecFns;
use vstd::utf8::{
    decode_utf8, decode_utf8_encode_utf8, encode_utf8, encode_utf8_decode_utf8,
    encode_utf8_valid_utf8, valid_utf8,
};

verus! {

/// Flag byte that opens a subscribe frame.
pub const FLAG_SUBSCRIBE: u8 = 0x01;

/// Flag byte that opens an unsubscribe frame.
pub const FLAG_UNSUBSCRIBE: u8 = 0x02;

/// Flag byte that opens a publish frame.
pub const FLAG_PUBLISH: u8 = 0x03;

/// Bytes taken by the flag and the topic's length prefix.
pub const HEADER_LEN: usize = 5;

/// A message of the broker protocol.
#[allow(non_camel_case_types)]
#[derive(Debug, Clone, PartialEq, Eq)]
pub enum Msg {
    SUBSCRIBE(String),
    UNSUBSCRIBE(String),
    PUBLISH(String, Bytes),
}

/// What a message says, free of how it is held in memory.
pub enum MsgView {
    Subscribe(Seq<char>),
    Unsubscribe(Seq<char>),
    Publish(Seq<char>, Seq<u8>),
}

impl MsgView {
    /// The topic that the message is about.
    pub open spec fn topic(self) -> Seq<char> {
        match self {
            MsgView::Subscribe(t) => t,
            MsgView::Unsubscribe(t) => t,
            MsgView::Publish(t, _) => t,
        }
    }

    /// The flag byte of the message's kind.
    pub open spec fn flag(self) -> u8 {
        match self {
            MsgView::Subscribe(_) => FLAG_SUBSCRIBE,
            MsgView::Unsubscribe(_) => FLAG_UNSUBSCRIBE,
            MsgView::Publish(_, _) => FLAG_PUBLISH,
        }
    }

    /// Whether both lengths fit the 32-bit prefixes of the wire format.
    pub open spec fn encodable(self) -> bool {
        &&& encode_utf8(self.topic()).len() <= u32::MAX
        &&& self matches MsgView::Publish(_, p) ==> p.len() <= u32::MAX
    }
}

impl View for Msg {
    type V = MsgView;

    open spec fn view(&self) -> MsgView {
        match self {
            Msg::SUBSCRIBE(t) => MsgView::Subscribe(t@),
            Msg::UNSUBSCRIBE(t) => MsgView::Unsubscribe(t@),
            Msg::PUBLISH(t, p) => MsgView::Publish(t@, bytes_contents(p)),
        }
    }
}

/// The four bytes of `n`, most significant first.
pub open spec fn u32_be(n: u32) -> Seq<u8> {
    seq![(n >> 24) as u8, (n >> 16) as u8, (n >> 8) as u8, n as u8]
}

/// The number whose big-endian bytes are `b0 b1 b2 b3`.
pub open spec fn be_value(b0: u8, b1: u8, b2: u8, b3: u8) -> u32 {
    (b0 as u32) << 24 | (b1 as u32) << 16 | (b2 as u32) << 8 | (b3 as u32)
}

/// The big-endian number held in the four bytes of `b` that start at `at`.
pub open spec fn be_u32_at(b: Seq<u8>, at: int) -> u32 {
    be_value(b[at], b[at + 1], b[at + 2], b[at + 3])
}

/// A length prefix followed by the bytes it counts.
pub open spec fn prefixed(body: Seq<u8>) -> Seq<u8> {
    u32_be(body.len() as u32) + body
}

/// The frame that carries `m` on the wire.
pub open spec fn encode(m: MsgView) -> Seq<u8> {
    let head = seq![m.flag()] + prefixed(encode_utf8(m.topic()));
    match m {
        MsgView::Publish(_, payload) => head + prefixed(payload),
        _ => head,
    }
}

/// The message that the frame `b` carries, if it carries one. Bytes after
/// the end of the message are not looked at.
pub open spec fn decode(b: Seq<u8>) -> Option<MsgView> {
    if b.len() < HEADER_LEN {
        None
    } else {
        let n = be_u32_at(b, 1) as int;
        let rest = b.skip(HEADER_LEN as int);
        if rest.len() < n || !valid_utf8(rest.take(n)) {
            None
        } else {
            let topic = decode_utf8(rest.take(n));
            if b[0] == FLAG_SUBSCRIBE {
                Some(MsgView::Subscribe(topic))
            } else if b[0] == FLAG_UNSUBSCRIBE {
                Some(MsgView::Unsubscribe(topic))
            } else if b[0] == FLAG_PUBLISH {
                decode_payload(topic, rest.skip(n))
            } else {
                None
            }
        }
    }
}

/// The publish message on `topic` whose length-prefixed payload opens `tail`.
pub open spec fn decode_payload(topic: Seq<char>, tail: Seq<u8>) -> Option<MsgView> {
    if tail.len() < 4 {
        None
    } else {
        let m = be_u32_at(tail, 0) as int;
        if tail.len() - 4 < m {
            None
        } else {
            Some(MsgView::Publish(topic, tail.subrange(4, 4 + m)))
        }
    }
}

/// Splitting a number into big-endian bytes and joining them gives it back.
pub proof fn be_bytes_round_trip(n: u32)
    ensures
        be_value((n >> 24) as u8, (n >> 16) as u8, (n >> 8) as u8, n as u8) == n,
        u32_be(n).len() == 4,
        be_u32_at(u32_be(n), 0) == n,
{
    assert(((((n >> 24) as u8) as u32) << 24 | (((n >> 16) as u8) as u32) << 16 | (((n >> 8) as u8)
        as u32) << 8 | ((n as u8) as u32)) == n) by (bit_vector);
}

/// Reads the big-endian number in the four bytes of `s` that start at `at`.
fn read_u32(s: &[u8], at: usize) -> (n: u32)
    requires
        at + 4 <= s@.len(),
    ensures
        n == be_u32_at(s@, at as int),
{
    let b0: u8 = s[at];
    let b1: u8 = s[at + 1];
    let b2: u8 = s[at + 2];
    let b3: u8 = s[at + 3];
    (b0 as u32) << 24 | (b1 as u32) << 16 | (b2 as u32) << 8 | (b3 as u32)
}

/// Appends `body` to `buf` behind its length as a big-endian number.
fn put_prefixed(buf: &mut Vec<u8>, body: &[u8])
    requires
        body@.len() <= u32::MAX,
    ensures
        final(buf)@ == old(buf)@ + prefixed(body@),
{
    let n: u32 = body.len() as u32;
    buf.push((n >> 24) as u8);
    buf.push((n >> 16) as u8);
    buf.push((n >> 8) as u8);
    buf.push(n as u8);
    let ghost before = buf@;
    assert(before == old(buf)@ + u32_be(n));
    buf.extend_from_slice(body);
    assert(buf@ == before + body@);
}

impl Msg {
    /// Tells whether the topic and the payload are short enough for the
    /// 32-bit length prefixes of the wire format.
    pub fn is_encodable(&self) -> (r: bool)
        ensures
            r == self@.encodable(),
    {
        match self {
            Msg::SUBSCRIBE(topic) => topic.as_str().as_bytes().len() <= u32::MAX as usize,
            Msg::UNSUBSCRIBE(topic) => topic.as_str().as_bytes().len() <= u32::MAX as usize,
            Msg::PUBLISH(topic, payload) => topic.as_str().as_bytes().len() <= u32::MAX as usize
                && payload.len() <= u32::MAX as usize,
        }
    }

    /// The flag byte of the message's kind.
    pub fn get_flag(message: &Msg) -> (flag: u8)
        ensures
            flag == message@.flag(),
    {
        match message {
            Msg::SUBSCRIBE(_) => FLAG_SUBSCRIBE,
            Msg::UNSUBSCRIBE(_) => FLAG_UNSUBSCRIBE,
            Msg::PUBLISH(_, _) => FLAG_PUBLISH,
        }
    }
}

impl Msg {
    /// Decodes one frame. Fails on a frame that is cut short, on a flag that
    /// names no message kind and on a topic that is not UTF-8.
    pub fn parse_message(data: Bytes) -> (r: Option<Msg>)
        ensures
            r matches Some(m) ==> decode(bytes_contents(&data)) == Some(m@),
            r is None ==> decode(bytes_contents(&data)) is None,
    {
        let s = bytes_as_slice(&data);
        let len: usize = s.len();
        if len < HEADER_LEN {
            return None;
        }
        let flag: u8 = s[0];
        let n: usize = read_u32(s, 1) as usize;
        if len - HEADER_LEN < n {
            return None;
        }
        let end: usize = HEADER_LEN + n;
        let raw = slice_to_vec(slice_subrange(s, HEADER_LEN, end));
        assert(raw@ == s@.skip(HEADER_LEN as int).take(n as int));
        let topic = match string_from_utf8(raw) {
            Some(t) => t,
            None => {
                return None;
            },
        };
        if flag == FLAG_SUBSCRIBE {
            Some(Msg::SUBSCRIBE(topic))
        } else if flag == FLAG_UNSUBSCRIBE {
            Some(Msg::UNSUBSCRIBE(topic))
        } else if flag == FLAG_PUBLISH {
            let ghost tail = s@.skip(HEADER_LEN as int).skip(n as int);
            assert(tail == s@.skip(end as int));
            if len - end < 4 {
                return None;
            }
            let m: usize = read_u32(s, end) as usize;
            assert(be_u32_at(tail, 0) == be_u32_at(s@, end as int));
            if len - end - 4 < m {
                return None;
            }
            let payload = bytes_slice(&data, end + 4, end + 4 + m);
            assert(bytes_contents(&payload) == tail.subrange(4, 4 + m));
            Some(Msg::PUBLISH(topic, payload))
        } else {
            None
        }
    }

    /// Encodes one message as a frame.
    pub fn build_message(flag: Msg) -> (frame: Bytes)
        requires
            flag@.encodable(),
        ensures
            bytes_contents(&frame) == encode(flag@),
    {
        let mut buf: Vec<u8> = Vec::new();
        buf.push(Self::get_flag(&flag));
        match flag {
            Msg::SUBSCRIBE(topic) => {
                put_prefixed(&mut buf, topic.as_str().as_bytes());
            },
            Msg::UNSUBSCRIBE(topic) => {
                put_prefixed(&mut buf, topic.as_str().as_bytes());
            },
            Msg::PUBLISH(topic, payload) => {
                put_prefixed(&mut buf, topic.as_str().as_bytes());
                put_prefixed(&mut buf, bytes_as_slice(&payload));
            },
        }
        bytes_from_vec(buf)
    }
}

impl Msg {
    /// Encodes one message as a frame, if its topic and its payload are
    /// short enough for the 32-bit length prefixes; `None` if not.
    pub fn try_build_message(flag: Msg) -> (frame: Option<Bytes>)
        ensures
            frame is Some <==> flag@.encodable(),
            frame matches Some(f) ==> bytes_contents(&f) == encode(flag@),
    {
        if flag.is_encodable() {
            Some(Msg::build_message(flag))
        } else {
            None
        }
    }
}

/// Tells whether the frame `msg` opens with the bytes of `topic`.
pub fn is_topic_match(topic: &str, msg: &Bytes) -> (r: bool)
    ensures
        r == topic.spec_bytes().is_prefix_of(bytes_contents(msg)),
{
    let t = topic.as_bytes();
    let m = bytes_as_slice(msg);
    if m.len() < t.len() {
        return false;
    }
    let mut i: usize = 0;
    while i < t.len()
        invariant
            t@ == topic.spec_bytes(),
            m@ == bytes_contents(msg),
            i <= t@.len() <= m@.len(),
            t@.take(i as int) == m@.take(i as int),
        decreases t@.len() - i,
    {
        if t[i] != m[i] {
            assert(m@.subrange(0, t@.len() as int)[i as int] == m@[i as int]);
            return false;
        }
        assert(t@.take(i + 1) == t@.take(i as int).push(t@[i as int]));
        assert(m@.take(i + 1) == m@.take(i as int).push(m@[i as int]));
        i += 1;
    }
    assert(t@.take(t@.len() as int) == t@);
    assert(m@.take(t@.len() as int) == m@.subrange(0, t@.len() as int));
    true
}

/// Decoding undoes encoding: a frame built from a message carries that
/// message, topic and payload unchanged, whatever the message's kind.
pub proof fn decode_inverts_encode(m: MsgView)
    requires
        m.encodable(),
    ensures
        decode(encode(m)) == Some(m),
{
    let t = encode_utf8(m.topic());
    let b = encode(m);
    let n = t.len() as u32;
    be_bytes_round_trip(n);
    encode_utf8_valid_utf8(m.topic());
    encode_utf8_decode_utf8(m.topic());
    assert(be_u32_at(b, 1) == be_u32_at(u32_be(n), 0));
    let rest = b.skip(HEADER_LEN as int);
    assert(rest.take(n as int) == t);
    match m {
        MsgView::Publish(_, payload) => {
            let k = payload.len() as u32;
            be_bytes_round_trip(k);
            let tail = rest.skip(n as int);
            assert(tail == prefixed(payload));
            assert(be_u32_at(tail, 0) == be_u32_at(u32_be(k), 0));
            assert(tail.subrange(4, 4 + k) == payload);
        },
        _ => {},
    }
}

/// A frame that was cut short carries no message: no proper prefix of an
/// encoded message decodes.
pub proof fn truncated_frame_is_rejected(m: MsgView, k: int)
    requires
        m.encodable(),
        0 <= k < encode(m).len(),
    ensures
        decode(encode(m).take(k)) is None,
{
    let t = encode_utf8(m.topic());
    let full = encode(m);
    let b = full.take(k);
    let n = t.len() as u32;
    be_bytes_round_trip(n);
    if k >= HEADER_LEN {
        assert(be_u32_at(b, 1) == be_u32_at(u32_be(n), 0));
        let rest = b.skip(HEADER_LEN as int);
        if rest.len() >= n {
            encode_utf8_valid_utf8(m.topic());
            assert(rest.take(n as int) == t);
            match m {
                MsgView::Publish(_, payload) => {
                    let p = payload.len() as u32;
                    be_bytes_round_trip(p);
                    let tail = rest.skip(n as int);
                    if tail.len() >= 4 {
                        assert(be_u32_at(tail, 0) == be_u32_at(u32_be(p), 0));
                    }
                },
                _ => {},
            }
        }
    }
}

/// A subscribe frame made of the flag, a topic length and that many bytes
/// of UTF-8 decodes to a subscription to exactly the topic those bytes spell.
pub proof fn subscribe_frame_decodes(topic_bytes: Seq<u8>)
    requires
        valid_utf8(topic_bytes),
        topic_bytes.len() <= u32::MAX,
    ensures
        decode(seq![FLAG_SUBSCRIBE] + prefixed(topic_bytes)) == Some(
            MsgView::Subscribe(decode_utf8(topic_bytes)),
        ),
{
    let n = topic_bytes.len() as u32;
    let b = seq![FLAG_SUBSCRIBE] + prefixed(topic_bytes);
    be_bytes_round_trip(n);
    assert(be_u32_at(b, 1) == be_u32_at(u32_be(n), 0));
    assert(b.skip(HEADER_LEN as int).take(n as int) == topic_bytes);
}

/// Every message that a frame carries can be put on the wire again.
pub proof fn decoded_is_encodable(b: Seq<u8>)
    requires
        decode(b) is Some,
    ensures
        decode(b)->0.encodable(),
{
    let n = be_u32_at(b, 1) as int;
    let raw = b.skip(HEADER_LEN as int).take(n);
    decode_utf8_encode_utf8(raw);
}

} // verus!
