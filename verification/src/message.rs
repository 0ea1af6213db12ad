//! The wire codec: peer messages and their length-prefixed frames.

use vstd::prelude::*;
use bytes::{Buf, BufMut, BytesMut};
use crate::error::{BitTorrentError, ProtocolViolation};
use crate::utils::{be32, be32_bytes, lemma_be32_round_trip, spec_be32, spec_be32_at,
    spec_be32_bytes};

verus! {

/// The type of a peer message.
#[derive(Debug, Clone, Copy, PartialEq, Eq, Structural)]
pub enum MessageId {
    Choke,
    Unchoke,
    Interested,
    NotInterested,
    Have,
    Bitfield,
    Request,
    Piece,
    Cancel,
}

impl MessageId {
    /// The tag byte that stands for the type on the wire.
    pub open spec fn spec_tag(self) -> u8 {
        match self {
            MessageId::Choke => 0,
            MessageId::Unchoke => 1,
            MessageId::Interested => 2,
            MessageId::NotInterested => 3,
            MessageId::Have => 4,
            MessageId::Bitfield => 5,
            MessageId::Request => 6,
            MessageId::Piece => 7,
            MessageId::Cancel => 8,
        }
    }

    /// The type that a tag byte stands for, if it stands for one.
    pub open spec fn spec_from_tag(tag: u8) -> Option<MessageId> {
        match tag {
            0 => Some(MessageId::Choke),
            1 => Some(MessageId::Unchoke),
            2 => Some(MessageId::Interested),
            3 => Some(MessageId::NotInterested),
            4 => Some(MessageId::Have),
            5 => Some(MessageId::Bitfield),
            6 => Some(MessageId::Request),
            7 => Some(MessageId::Piece),
            8 => Some(MessageId::Cancel),
            _ => None,
        }
    }

    pub fn tag(self) -> (tag: u8)
        ensures
            tag == self.spec_tag(),
            Self::spec_from_tag(tag) == Some(self),
    {
        match self {
            MessageId::Choke => 0,
            MessageId::Unchoke => 1,
            MessageId::Interested => 2,
            MessageId::NotInterested => 3,
            MessageId::Have => 4,
            MessageId::Bitfield => 5,
            MessageId::Request => 6,
            MessageId::Piece => 7,
            MessageId::Cancel => 8,
        }
    }

    pub fn from_tag(tag: u8) -> (id: Option<MessageId>)
        ensures
            id == Self::spec_from_tag(tag),
            id matches Some(m) ==> m.spec_tag() == tag,
    {
        match tag {
            0 => Some(MessageId::Choke),
            1 => Some(MessageId::Unchoke),
            2 => Some(MessageId::Interested),
            3 => Some(MessageId::NotInterested),
            4 => Some(MessageId::Have),
            5 => Some(MessageId::Bitfield),
            6 => Some(MessageId::Request),
            7 => Some(MessageId::Piece),
            8 => Some(MessageId::Cancel),
            _ => None,
        }
    }
}

/// One peer message: its type and its payload.
#[derive(Debug, Clone)]
pub struct Message {
    pub id: MessageId,
    pub payload: Vec<u8>,
}

/// A message as a mathematical value.
pub struct MessageView {
    pub id: MessageId,
    pub payload: Seq<u8>,
}

/// The payload of a request or cancel message: piece index, offset of the
/// block in the piece and length of the block, each as four big-endian bytes.
pub open spec fn spec_request_payload(index: u32, begin: u32, length: u32) -> Seq<u8> {
    spec_be32_bytes(index) + spec_be32_bytes(begin) + spec_be32_bytes(length)
}

impl Message {
    pub open spec fn view(&self) -> MessageView {
        MessageView { id: self.id, payload: self.payload@ }
    }

    pub fn new(id: MessageId, payload: Vec<u8>) -> (message: Self)
        ensures
            message.id == id,
            message.payload == payload,
    {
        Self { id, payload }
    }

    /// The message that declares interest.
    pub fn interested() -> (message: Self)
        ensures
            message@ == (MessageView { id: MessageId::Interested, payload: Seq::empty() }),
    {
        Self { id: MessageId::Interested, payload: Vec::new() }
    }

    /// The message that asks for `length` bytes of piece `index` from offset
    /// `begin` on.
    pub fn request(index: u32, begin: u32, length: u32) -> (message: Self)
        ensures
            message@ == (MessageView {
                id: MessageId::Request,
                payload: spec_request_payload(index, begin, length),
            }),
            message.payload.len() == 12,
    {
        let mut payload: Vec<u8> = Vec::new();
        payload.extend_from_slice(&be32_bytes(index));
        payload.extend_from_slice(&be32_bytes(begin));
        payload.extend_from_slice(&be32_bytes(length));
        assert(payload@ =~= spec_request_payload(index, begin, length));
        Self { id: MessageId::Request, payload }
    }
}

/// The views of a sequence of messages.
pub open spec fn messages_view(messages: Seq<Message>) -> Seq<MessageView> {
    Seq::new(messages.len(), |i: int| messages[i]@)
}

/// The frame of a message: the length of tag and payload as four big-endian
/// bytes, the tag, the payload.
pub open spec fn spec_frame(id: MessageId, payload: Seq<u8>) -> Seq<u8> {
    spec_be32_bytes((payload.len() + 1) as u32) + seq![id.spec_tag()] + payload
}

/// What the front of a byte stream holds.
pub enum Decoded {
    /// Less than a whole frame.
    NeedMore,
    /// A frame of length zero.
    KeepAlive,
    /// A frame with an unknown tag.
    UnknownTag(u8),
    /// A whole message.
    Frame { id: MessageId, payload: Seq<u8> },
}

/// The length that the first four bytes of a stream announce.
pub open spec fn spec_frame_length(stream: Seq<u8>) -> nat {
    spec_be32_at(stream, 0) as nat
}

/// What the front of `stream` holds.
pub open spec fn spec_decode(stream: Seq<u8>) -> Decoded {
    if stream.len() < 4 || stream.len() < 4 + spec_frame_length(stream) {
        Decoded::NeedMore
    } else if spec_frame_length(stream) == 0 {
        Decoded::KeepAlive
    } else {
        match MessageId::spec_from_tag(stream[4]) {
            Some(id) => Decoded::Frame {
                id,
                payload: stream.subrange(5, 4 + spec_frame_length(stream) as int),
            },
            None => Decoded::UnknownTag(stream[4]),
        }
    }
}

/// How many bytes decoding takes from the front of `stream`: none while the
/// frame is incomplete, the four length bytes of a keep-alive, length and
/// tag of a frame with an unknown tag, and the whole frame of a message.
pub open spec fn spec_consumed(stream: Seq<u8>) -> nat {
    match spec_decode(stream) {
        Decoded::NeedMore => 0,
        Decoded::KeepAlive => 4,
        Decoded::UnknownTag(_) => 5,
        Decoded::Frame { .. } => 4 + spec_frame_length(stream),
    }
}

/// A frame followed by anything decodes to its message, and decoding takes
/// exactly the frame.
pub proof fn lemma_decode_frame(id: MessageId, payload: Seq<u8>, rest: Seq<u8>)
    requires
        payload.len() < u32::MAX,
    ensures
        spec_decode(spec_frame(id, payload) + rest) == (Decoded::Frame { id, payload }),
        spec_consumed(spec_frame(id, payload) + rest) == spec_frame(id, payload).len(),
        spec_frame(id, payload).len() == payload.len() + 5,
{
    let length = (payload.len() + 1) as u32;
    let stream = spec_frame(id, payload) + rest;
    lemma_be32_round_trip(length, 0, 0, 0, 0);
    assert(spec_be32_at(stream, 0) == spec_be32_at(spec_be32_bytes(length), 0));
    assert(stream[4] == id.spec_tag());
    assert(stream.subrange(5, 4 + length as int) =~= payload);
}

/// What decodes to a message is the frame of that message, followed by what
/// decoding leaves in the stream.
pub proof fn lemma_frame_of_decoded(stream: Seq<u8>)
    requires
        spec_decode(stream) is Frame,
    ensures
        spec_decode(stream) matches Decoded::Frame { id, payload } && payload.len() < u32::MAX
            && stream == spec_frame(id, payload) + stream.skip(spec_consumed(stream) as int),
{
    let length = spec_be32_at(stream, 0);
    lemma_be32_round_trip(length, stream[0], stream[1], stream[2], stream[3]);
    if let Decoded::Frame { id, payload } = spec_decode(stream) {
        assert(stream =~= spec_frame(id, payload) + stream.skip(spec_consumed(stream) as int));
    }
}

/// A frame cut short anywhere decodes to nothing: more bytes are needed, and
/// none are taken.
pub proof fn lemma_prefix_needs_more(id: MessageId, payload: Seq<u8>, n: int)
    requires
        payload.len() < u32::MAX,
        0 <= n < spec_frame(id, payload).len(),
    ensures
        spec_decode(spec_frame(id, payload).take(n)) == Decoded::NeedMore,
        spec_consumed(spec_frame(id, payload).take(n)) == 0,
{
    let length = (payload.len() + 1) as u32;
    let prefix = spec_frame(id, payload).take(n);
    lemma_be32_round_trip(length, 0, 0, 0, 0);
    if n >= 4 {
        assert(spec_be32_at(prefix, 0) == spec_be32_at(spec_be32_bytes(length), 0));
    }
}

/// Four zero bytes at the front of a stream are a keep-alive: decoding takes
/// them and yields no message.
pub proof fn lemma_keep_alive(rest: Seq<u8>)
    ensures
        spec_decode(seq![0u8, 0u8, 0u8, 0u8] + rest) == Decoded::KeepAlive,
        spec_consumed(seq![0u8, 0u8, 0u8, 0u8] + rest) == 4,
{
    let stream = seq![0u8, 0u8, 0u8, 0u8] + rest;
    reveal(spec_be32);
    assert(spec_be32_at(stream, 0) == 0);
}

/// `bytes::BytesMut`, the growable byte buffer of the framing layer. What
/// is inside is known only through [`buffer_bytes`].
#[verifier::external_type_specification]
#[verifier::external_body]
pub struct ExBytesMut(BytesMut);

/// The bytes that a buffer holds, the front first.
pub uninterp spec fn buffer_bytes(buf: BytesMut) -> Seq<u8>;

/// `BytesMut::len`: the number of bytes in the buffer.
#[verifier::external_body]
fn buffer_len(buf: &BytesMut) -> (len: usize)
    ensures
        len == buffer_bytes(*buf).len(),
{
    buf.len()
}

/// Indexing a `BytesMut` through its `Deref` to a byte slice: the byte at
/// position `i`, which has to lie inside the buffer.
#[verifier::external_body]
fn buffer_byte(buf: &BytesMut, i: usize) -> (byte: u8)
    requires
        i < buffer_bytes(*buf).len(),
    ensures
        byte == buffer_bytes(*buf)[i as int],
{
    buf[i]
}

/// `Buf::advance` on a `BytesMut`: drops the first `cnt` bytes, of which the
/// buffer has to hold at least that many.
#[verifier::external_body]
fn buffer_advance(buf: &mut BytesMut, cnt: usize)
    requires
        cnt <= buffer_bytes(*old(buf)).len(),
    ensures
        buffer_bytes(*final(buf)) == buffer_bytes(*old(buf)).skip(cnt as int),
{
    buf.advance(cnt)
}

/// `BytesMut::split_to`: takes the first `at` bytes out of the buffer, which
/// has to hold at least that many, and hands them back, here as a vector.
#[verifier::external_body]
fn buffer_split_to(buf: &mut BytesMut, at: usize) -> (front: Vec<u8>)
    requires
        at <= buffer_bytes(*old(buf)).len(),
    ensures
        front@ == buffer_bytes(*old(buf)).take(at as int),
        buffer_bytes(*final(buf)) == buffer_bytes(*old(buf)).skip(at as int),
{
    buf.split_to(at).to_vec()
}

/// `BytesMut::extend_from_slice`: appends the bytes of `extend`.
#[verifier::external_body]
fn buffer_extend(buf: &mut BytesMut, extend: &[u8])
    ensures
        buffer_bytes(*final(buf)) == buffer_bytes(*old(buf)) + extend@,
{
    buf.extend_from_slice(extend)
}

/// `BufMut::put_u8` on a `BytesMut`: appends one byte.
#[verifier::external_body]
fn buffer_put_u8(buf: &mut BytesMut, n: u8)
    ensures
        buffer_bytes(*final(buf)) == buffer_bytes(*old(buf)).push(n),
{
    buf.put_u8(n)
}

/// The codec that turns a byte stream into messages and messages into frames.
#[derive(Debug)]
pub struct PeerCodec {}

impl PeerCodec {
    pub fn new() -> Self {
        Self {  }
    }

    /// Takes the next message off the front of `src`.
    ///
    /// While `src` holds less than a whole frame, nothing is taken and the
    /// result is `None`. A keep-alive is taken and gives `None` as well. A
    /// frame with an unknown tag is an error. Otherwise the frame is taken
    /// and its message returned.
    pub fn decode(&mut self, src: &mut BytesMut) -> (result: Result<
        Option<Message>,
        BitTorrentError,
    >)
        ensures
            buffer_bytes(*final(src)) == buffer_bytes(*old(src)).skip(
                spec_consumed(buffer_bytes(*old(src))) as int,
            ),
            match spec_decode(buffer_bytes(*old(src))) {
                Decoded::NeedMore => result matches Ok(None),
                Decoded::KeepAlive => result matches Ok(None),
                Decoded::UnknownTag(tag) => result == Err::<Option<Message>, BitTorrentError>(
                    BitTorrentError::Protocol(ProtocolViolation::UnknownMessageType(tag)),
                ),
                Decoded::Frame { id, payload } => result matches Ok(Some(m)) && m.id == id
                    && m.payload@ == payload,
            },
    {
        let ghost stream = buffer_bytes(*src);
        let available: usize = buffer_len(src);
        if available < 4 {
            assert(stream.skip(0) =~= stream);
            return Ok(None);
        }
        let length: u32 = be32(
            buffer_byte(src, 0),
            buffer_byte(src, 1),
            buffer_byte(src, 2),
            buffer_byte(src, 3),
        );
        if ((available - 4) as u64) < (length as u64) {
            assert(stream.skip(0) =~= stream);
            return Ok(None);
        }
        let length: usize = length as usize;
        buffer_advance(src, 4);
        if length == 0 {
            return Ok(None);
        }
        let tag: u8 = buffer_byte(src, 0);
        buffer_advance(src, 1);
        assert(buffer_bytes(*src) =~= stream.skip(5));
        let id = match MessageId::from_tag(tag) {
            Some(id) => id,
            None => {
                return Err(BitTorrentError::Protocol(ProtocolViolation::UnknownMessageType(tag)));
            },
        };
        let payload: Vec<u8> = buffer_split_to(src, length - 1);
        assert(payload@ =~= stream.subrange(5, 4 + length));
        assert(buffer_bytes(*src) =~= stream.skip(4 + length));
        Ok(Some(Message::new(id, payload)))
    }

    /// Appends the frame of `item` to `dst`. A payload too long for the
    /// four-byte length field is refused, and `dst` stays as it was.
    pub fn encode(&mut self, item: Message, dst: &mut BytesMut) -> (result: Result<
        (),
        BitTorrentError,
    >)
        ensures
            item.payload.len() < u32::MAX ==> result is Ok && buffer_bytes(*final(dst))
                == buffer_bytes(*old(dst)) + spec_frame(item.id, item.payload@),
            item.payload.len() >= u32::MAX ==> result == Err::<(), BitTorrentError>(
                BitTorrentError::Protocol(ProtocolViolation::FieldTooLarge),
            ) && buffer_bytes(*final(dst)) == buffer_bytes(*old(dst)),
    {
        if item.payload.len() >= u32::MAX as usize {
            return Err(BitTorrentError::Protocol(ProtocolViolation::FieldTooLarge));
        }
        let ghost before = buffer_bytes(*dst);
        let length: u32 = (item.payload.len() + 1) as u32;
        let prefix: [u8; 4] = be32_bytes(length);
        buffer_extend(dst, &prefix);
        buffer_put_u8(dst, item.id.tag());
        buffer_extend(dst, item.payload.as_slice());
        assert(buffer_bytes(*dst) =~= before + spec_frame(item.id, item.payload@));
        Ok(())
    }
}

} // verus!
