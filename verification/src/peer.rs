//! One peer session: the handshake, the choke and interest flags, the
//! advertised bitfield, and the block-by-block transfer of a piece.

use vstd::prelude::*;
use crate::error::{BitTorrentError, PeerFailure, ProtocolViolation};
use crate::message::{messages_view, spec_request_payload, Message, MessageId, MessageView};
use crate::piece::PieceInfo;
use crate::utils::{array_of, be32, bit_set, copy_array, lemma_be32_round_trip, same_bytes,
    set_bit, spec_be32_at, spec_be32_bytes, spec_bit_set, spec_set_bit};

pub use crate::message::PeerCodec;

verus! {

/// The length of a handshake in bytes.
pub const HANDSHAKE_LEN: usize = 68;

/// The protocol literal of the handshake: the ASCII text `BitTorrent protocol`.
pub open spec fn protocol_literal() -> Seq<u8> {
    seq![
        0x42u8, 0x69u8, 0x74u8, 0x54u8, 0x6fu8, 0x72u8, 0x72u8, 0x65u8, 0x6eu8, 0x74u8,
        0x20u8, 0x70u8, 0x72u8, 0x6fu8, 0x74u8, 0x6fu8, 0x63u8, 0x6fu8, 0x6cu8,
    ]
}

fn literal() -> (pstr: [u8; 19])
    ensures
        pstr@ == protocol_literal(),
{
    let pstr: [u8; 19] = [
        0x42, 0x69, 0x74, 0x54, 0x6f, 0x72, 0x72, 0x65, 0x6e, 0x74,
        0x20, 0x70, 0x72, 0x6f, 0x74, 0x6f, 0x63, 0x6f, 0x6c,
    ];
    assert(pstr@ =~= protocol_literal());
    pstr
}

/// The greeting that opens every peer connection.
#[derive(Debug, Clone, Copy)]
pub struct Handshake {
    pub pstrlen: u8,
    pub pstr: [u8; 19],
    pub reserved: [u8; 8],
    pub info_hash: [u8; 20],
    pub peer_id: [u8; 20],
}

/// What reading a handshake from the front of `stream` gives: the fields of
/// the greeting, or the first fault met when reading it piece by piece.
pub open spec fn spec_read_handshake(stream: Seq<u8>) -> Result<Handshake, BitTorrentError> {
    if stream.len() < 1 {
        Err(BitTorrentError::Io)
    } else if stream[0] != 19 {
        Err(BitTorrentError::Protocol(ProtocolViolation::InvalidPstrlen))
    } else if stream.len() < 20 {
        Err(BitTorrentError::Io)
    } else if stream.subrange(1, 20) != protocol_literal() {
        Err(BitTorrentError::Protocol(ProtocolViolation::InvalidProtocolString))
    } else if stream.len() < 68 {
        Err(BitTorrentError::Io)
    } else {
        Ok(
            Handshake {
                pstrlen: 19,
                pstr: array_of(stream.subrange(1, 20)),
                reserved: array_of(stream.subrange(20, 28)),
                info_hash: array_of(stream.subrange(28, 48)),
                peer_id: array_of(stream.subrange(48, 68)),
            },
        )
    }
}

impl Handshake {
    /// The 68 bytes of the greeting: the length byte, the literal, the
    /// reserved bytes, the info-hash and the peer id.
    pub open spec fn spec_bytes(self) -> Seq<u8> {
        seq![self.pstrlen] + self.pstr@ + self.reserved@ + self.info_hash@ + self.peer_id@
    }

    /// The greeting of the local side for a torrent.
    pub fn new(info_hash: [u8; 20], peer_id: [u8; 20]) -> (greeting: Self)
        ensures
            greeting.pstrlen == 19,
            greeting.pstr@ == protocol_literal(),
            greeting.reserved@ == Seq::new(8, |i: int| 0u8),
            greeting.info_hash == info_hash,
            greeting.peer_id == peer_id,
    {
        let reserved: [u8; 8] = [0, 0, 0, 0, 0, 0, 0, 0];
        assert(reserved@ =~= Seq::new(8, |i: int| 0u8));
        Self { pstrlen: 19, pstr: literal(), reserved, info_hash, peer_id }
    }

    /// Appends the bytes of the greeting to `stream`.
    pub fn write_to(&self, stream: &mut Vec<u8>)
        ensures
            final(stream)@ == old(stream)@ + self.spec_bytes(),
            self.spec_bytes().len() == 68,
    {
        stream.push(self.pstrlen);
        stream.extend_from_slice(&self.pstr);
        stream.extend_from_slice(&self.reserved);
        stream.extend_from_slice(&self.info_hash);
        stream.extend_from_slice(&self.peer_id);
        assert(stream@ =~= old(stream)@ + self.spec_bytes());
    }

    /// Reads a greeting from the front of `stream`, field by field. A stream
    /// that ends before the field being read is a transport fault; a wrong
    /// length byte or literal is a protocol violation. The reserved bytes are
    /// not looked at, and bytes after the greeting are left alone.
    pub fn read_from(stream: &[u8]) -> (result: Result<Self, BitTorrentError>)
        ensures
            result == spec_read_handshake(stream@),
    {
        if stream.len() < 1 {
            return Err(BitTorrentError::Io);
        }
        let pstrlen: u8 = stream[0];
        if pstrlen != 19 {
            return Err(BitTorrentError::Protocol(ProtocolViolation::InvalidPstrlen));
        }
        if stream.len() < 20 {
            return Err(BitTorrentError::Io);
        }
        let pstr: [u8; 19] = copy_array(stream, 1);
        let expected: [u8; 19] = literal();
        if !same_bytes(&pstr, &expected) {
            return Err(BitTorrentError::Protocol(ProtocolViolation::InvalidProtocolString));
        }
        if stream.len() < 68 {
            return Err(BitTorrentError::Io);
        }
        let reserved: [u8; 8] = copy_array(stream, 20);
        let info_hash: [u8; 20] = copy_array(stream, 28);
        let peer_id: [u8; 20] = copy_array(stream, 48);
        Ok(Self { pstrlen, pstr, reserved, info_hash, peer_id })
    }
}

/// Writing a greeting and reading it back gives the greeting, when the
/// greeting starts as every greeting must.
pub proof fn lemma_handshake_round_trip(greeting: Handshake, rest: Seq<u8>)
    requires
        greeting.pstrlen == 19,
        greeting.pstr@ == protocol_literal(),
    ensures
        spec_read_handshake(greeting.spec_bytes() + rest) == Ok::<Handshake, BitTorrentError>(
            greeting,
        ),
{
    let stream = greeting.spec_bytes() + rest;
    assert(stream.subrange(1, 20) =~= greeting.pstr@);
    assert(stream.subrange(20, 28) =~= greeting.reserved@);
    assert(stream.subrange(28, 48) =~= greeting.info_hash@);
    assert(stream.subrange(48, 68) =~= greeting.peer_id@);
    let read = spec_read_handshake(stream)->Ok_0;
    assert(read.pstr@ == greeting.pstr@ && read.pstr == greeting.pstr) by {
        let a = array_of::<19>(stream.subrange(1, 20));
        assert(greeting.pstr@ == stream.subrange(1, 20));
        assert(a@ == greeting.pstr@);
    }
    assert(read.reserved == greeting.reserved) by {
        let a = array_of::<8>(stream.subrange(20, 28));
        assert(greeting.reserved@ == stream.subrange(20, 28));
        assert(a@ == greeting.reserved@);
    }
    assert(read.info_hash == greeting.info_hash) by {
        let a = array_of::<20>(stream.subrange(28, 48));
        assert(greeting.info_hash@ == stream.subrange(28, 48));
        assert(a@ == greeting.info_hash@);
    }
    assert(read.peer_id == greeting.peer_id) by {
        let a = array_of::<20>(stream.subrange(48, 68));
        assert(greeting.peer_id@ == stream.subrange(48, 68));
        assert(a@ == greeting.peer_id@);
    }
}

/// The endpoint of a peer: an IPv4 address and a port.
#[derive(Debug, Clone, Copy)]
pub struct PeerAddr {
    pub ip: [u8; 4],
    pub port: u16,
}

/// How long to wait for an unchoke before interest is declared again.
pub const UNCHOKE_NUDGE_SECS: u64 = 5;

/// After how many such waits the wait for an unchoke is given up.
pub const UNCHOKE_NUDGES: u32 = 6;

/// How long to wait for one block.
pub const BLOCK_TIMEOUT_SECS: u64 = 30;

/// After how many failures of a block in a row the piece is given up.
pub const MAX_BLOCK_RETRIES: u32 = 3;

/// What a session is doing.
#[derive(Debug, Clone, Copy, PartialEq, Eq, Structural)]
pub enum Phase {
    /// No piece is being requested.
    Idle,
    /// A piece is wanted and the remote still chokes the session.
    AwaitUnchoke,
    /// A block has been requested and is awaited.
    AwaitBlock,
}

/// What happened on the connection of a session.
#[derive(Debug)]
pub enum SessionEvent {
    /// A framed message arrived.
    Message(Message),
    /// The running deadline passed.
    Timeout,
    /// The stream ended.
    Closed,
    /// Reading or writing the stream failed.
    Failed(BitTorrentError),
}

/// What the owner of the connection is to do next.
#[derive(Debug)]
pub enum SessionAction {
    /// Send the messages in order, start a deadline of `wait_secs` seconds,
    /// and hand back the next event.
    Send { messages: Vec<Message>, wait_secs: u64 },
    /// Hand back the next event; the running deadline stays.
    Wait,
    /// Send the messages in order, if there are any; the request is done,
    /// and `data` holds the bytes of the piece.
    Done { messages: Vec<Message>, data: Vec<u8> },
    /// The request failed.
    Failed(BitTorrentError),
}

/// An event as a mathematical value.
pub enum EventView {
    Message(MessageView),
    Timeout,
    Closed,
    Failed(BitTorrentError),
}

/// An action as a mathematical value.
pub enum ActionView {
    Send { messages: Seq<MessageView>, wait_secs: u64 },
    Wait,
    Done { messages: Seq<MessageView>, data: Seq<u8> },
    Failed(BitTorrentError),
}

impl SessionEvent {
    pub open spec fn view(&self) -> EventView {
        match *self {
            SessionEvent::Message(m) => EventView::Message(m@),
            SessionEvent::Timeout => EventView::Timeout,
            SessionEvent::Closed => EventView::Closed,
            SessionEvent::Failed(e) => EventView::Failed(e),
        }
    }
}

impl SessionAction {
    pub open spec fn view(&self) -> ActionView {
        match *self {
            SessionAction::Send { messages, wait_secs } => ActionView::Send {
                messages: messages_view(messages@),
                wait_secs,
            },
            SessionAction::Wait => ActionView::Wait,
            SessionAction::Done { messages, data } => ActionView::Done {
                messages: messages_view(messages@),
                data: data@,
            },
            SessionAction::Failed(e) => ActionView::Failed(e),
        }
    }
}

/// A session as a mathematical value.
pub struct PeerView {
    pub addr: PeerAddr,
    /// The info-hash that the remote's greeting carried: that of the torrent
    /// the session was opened for.
    pub info_hash: Seq<u8>,
    /// The number of pieces of that torrent.
    pub pieces: nat,
    /// The bitfield the remote advertised, updated by its have messages.
    pub bitfield: Seq<u8>,
    pub am_choking: bool,
    pub am_interested: bool,
    pub peer_choking: bool,
    pub peer_interested: bool,
    pub phase: Phase,
    /// The piece being requested, its length, and the bytes received so far.
    pub index: u32,
    pub length: u32,
    pub data: Seq<u8>,
    /// How often in a row the awaited block has failed.
    pub retries: u32,
    /// How often interest was declared again while waiting for an unchoke.
    pub nudges: u32,
}

/// The message that declares interest.
pub open spec fn interested_message() -> MessageView {
    MessageView { id: MessageId::Interested, payload: Seq::empty() }
}

impl PeerView {
    /// A session right after the handshake.
    pub open spec fn fresh(addr: PeerAddr, info_hash: Seq<u8>, pieces: nat) -> PeerView {
        PeerView {
            addr,
            info_hash,
            pieces,
            bitfield: Seq::empty(),
            am_choking: true,
            am_interested: false,
            peer_choking: true,
            peer_interested: false,
            phase: Phase::Idle,
            index: 0,
            length: 0,
            data: Seq::empty(),
            retries: 0,
            nudges: 0,
        }
    }

    /// The invariants of a session: while a piece is being requested, the
    /// bytes received are whole blocks of it and less than the piece, and the
    /// counters are below their ceilings.
    pub open spec fn valid(self) -> bool {
        match self.phase {
            Phase::Idle => self.index == 0 && self.length == 0 && self.data.len() == 0
                && self.retries == 0 && self.nudges == 0,
            Phase::AwaitUnchoke => self.data.len() == 0 && self.retries == 0 && self.nudges
                < UNCHOKE_NUDGES && self.am_interested,
            Phase::AwaitBlock => self.data.len() < self.length && self.data.len() % (
            crate::BLOCK_SIZE as nat) == 0 && self.retries < MAX_BLOCK_RETRIES
                && self.am_interested,
        }
    }

    /// Whether the remote advertises piece `index`: the index names a piece
    /// of the torrent and its bit is set in the stored bitfield. Bits from
    /// the piece count on advertise nothing.
    pub open spec fn has_piece(self, index: int) -> bool {
        0 <= index < self.pieces && spec_bit_set(self.bitfield, index)
    }

    /// The session with no piece being requested.
    pub open spec fn idle(self) -> PeerView {
        PeerView {
            phase: Phase::Idle,
            index: 0,
            length: 0,
            data: Seq::empty(),
            retries: 0,
            nudges: 0,
            ..self
        }
    }

    /// The session after a message was handled outside a block wait, or the
    /// violation that the message is.
    pub open spec fn handle(self, message: MessageView) -> Result<PeerView, BitTorrentError> {
        match message.id {
            MessageId::Choke => Ok(PeerView { peer_choking: true, ..self }),
            MessageId::Unchoke => Ok(PeerView { peer_choking: false, ..self }),
            MessageId::Interested => Ok(PeerView { peer_interested: true, ..self }),
            MessageId::NotInterested => Ok(PeerView { peer_interested: false, ..self }),
            MessageId::Have => if message.payload.len() != 4 {
                Err(BitTorrentError::Protocol(ProtocolViolation::InvalidHave))
            } else {
                Ok(
                    PeerView {
                        bitfield: spec_set_bit(
                            self.bitfield,
                            spec_be32_at(message.payload, 0) as int,
                        ),
                        ..self
                    },
                )
            },
            MessageId::Bitfield => if self.bitfield.len() != 0 {
                Err(BitTorrentError::Protocol(ProtocolViolation::DuplicateBitfield))
            } else {
                Ok(PeerView { bitfield: message.payload, ..self })
            },
            _ => Ok(self),
        }
    }

    /// The length of the block to request next: a whole block, or what is
    /// left of the piece when that is less.
    pub open spec fn block_length(self) -> nat {
        if self.length - self.data.len() < crate::BLOCK_SIZE {
            (self.length - self.data.len()) as nat
        } else {
            crate::BLOCK_SIZE as nat
        }
    }

    /// The request for the block to fetch next.
    pub open spec fn block_request(self) -> MessageView {
        MessageView {
            id: MessageId::Request,
            payload: spec_request_payload(
                self.index,
                self.data.len() as u32,
                self.block_length() as u32,
            ),
        }
    }

    /// Whether a message is the block that is awaited: a piece message that
    /// names the piece and the offset asked for.
    pub open spec fn is_awaited_block(self, message: MessageView) -> bool {
        &&& message.id == MessageId::Piece
        &&& message.payload.len() >= 8
        &&& spec_be32_at(message.payload, 0) == self.index
        &&& spec_be32_at(message.payload, 4) == self.data.len()
    }

    /// The step that begins the block requests of a session that wants a
    /// piece and is not choked, after the messages of `first` have been
    /// sent: the first block is requested, or, where the piece has no
    /// bytes, the request is done.
    pub open spec fn begin(self, first: Seq<MessageView>) -> (PeerView, ActionView) {
        if self.length == 0 {
            (self.idle(), ActionView::Done { messages: first, data: Seq::empty() })
        } else {
            (
                PeerView { phase: Phase::AwaitBlock, nudges: 0, ..self },
                ActionView::Send {
                    messages: first.push(self.block_request()),
                    wait_secs: BLOCK_TIMEOUT_SECS,
                },
            )
        }
    }

    /// The first step of a request for the piece with the given index and
    /// length: interest is declared unless it was; while the remote chokes
    /// the session an unchoke is awaited; else the block requests begin.
    pub open spec fn request_piece(self, index: usize, length: usize) -> (PeerView, ActionView) {
        let idle = self.idle();
        if !idle.has_piece(index as int) {
            (idle, ActionView::Failed(BitTorrentError::Peer(PeerFailure::MissingPiece)))
        } else if index > u32::MAX || length > u32::MAX {
            (idle, ActionView::Failed(BitTorrentError::Protocol(ProtocolViolation::FieldTooLarge)))
        } else {
            let declare = if idle.am_interested {
                Seq::<MessageView>::empty()
            } else {
                seq![interested_message()]
            };
            let wanting = PeerView {
                am_interested: true,
                index: index as u32,
                length: length as u32,
                ..idle
            };
            if wanting.peer_choking {
                (
                    PeerView { phase: Phase::AwaitUnchoke, ..wanting },
                    ActionView::Send { messages: declare, wait_secs: UNCHOKE_NUDGE_SECS },
                )
            } else {
                wanting.begin(declare)
            }
        }
    }

    /// The step that an event causes while no piece is being requested.
    pub open spec fn step_idle(self, event: EventView) -> (PeerView, ActionView) {
        match event {
            EventView::Message(message) => match self.handle(message) {
                Ok(next) => (next, ActionView::Wait),
                Err(e) => (self, ActionView::Failed(e)),
            },
            EventView::Timeout => (self, ActionView::Wait),
            EventView::Closed => (
                self,
                ActionView::Failed(BitTorrentError::Peer(PeerFailure::Disconnected)),
            ),
            EventView::Failed(e) => (self, ActionView::Failed(e)),
        }
    }

    /// The step that an event causes while an unchoke is awaited.
    pub open spec fn step_await_unchoke(self, event: EventView) -> (PeerView, ActionView) {
        match event {
            EventView::Message(message) => match self.handle(message) {
                Ok(next) => if next.peer_choking {
                    (next, ActionView::Wait)
                } else {
                    next.begin(Seq::empty())
                },
                Err(e) => (self.idle(), ActionView::Failed(e)),
            },
            EventView::Timeout => if self.nudges + 1 >= UNCHOKE_NUDGES {
                (
                    self.idle(),
                    ActionView::Failed(BitTorrentError::Peer(PeerFailure::UnchokeTimeout)),
                )
            } else {
                (
                    PeerView { nudges: (self.nudges + 1) as u32, ..self },
                    ActionView::Send {
                        messages: seq![interested_message()],
                        wait_secs: UNCHOKE_NUDGE_SECS,
                    },
                )
            },
            EventView::Closed => (
                self.idle(),
                ActionView::Failed(BitTorrentError::Peer(PeerFailure::Disconnected)),
            ),
            EventView::Failed(e) => (self.idle(), ActionView::Failed(e)),
        }
    }

    /// The step that an event causes while a block is awaited.
    pub open spec fn step_await_block(self, event: EventView) -> (PeerView, ActionView) {
        match event {
            EventView::Message(message) => if self.is_awaited_block(message) {
                let block = message.payload.skip(8);
                if block.len() != self.block_length() {
                    (
                        self.idle(),
                        ActionView::Failed(
                            BitTorrentError::Protocol(ProtocolViolation::BlockSizeMismatch),
                        ),
                    )
                } else if self.data.len() + block.len() == self.length {
                    (
                        self.idle(),
                        ActionView::Done { messages: Seq::empty(), data: self.data + block },
                    )
                } else {
                    let next = PeerView { data: self.data + block, retries: 0, ..self };
                    (
                        next,
                        ActionView::Send {
                            messages: seq![next.block_request()],
                            wait_secs: BLOCK_TIMEOUT_SECS,
                        },
                    )
                }
            } else if message.id == MessageId::Piece {
                (self, ActionView::Wait)
            } else if message.id == MessageId::Choke {
                (
                    PeerView { peer_choking: true, ..self.idle() },
                    ActionView::Failed(BitTorrentError::Peer(PeerFailure::ChokedDuringTransfer)),
                )
            } else {
                match self.handle(message) {
                    Ok(next) => (next, ActionView::Wait),
                    Err(e) => (self.idle(), ActionView::Failed(e)),
                }
            },
            EventView::Timeout => if self.retries + 1 >= MAX_BLOCK_RETRIES {
                (
                    self.idle(),
                    ActionView::Failed(BitTorrentError::Peer(PeerFailure::RetriesExhausted)),
                )
            } else {
                (
                    PeerView { retries: (self.retries + 1) as u32, ..self },
                    ActionView::Send {
                        messages: seq![self.block_request()],
                        wait_secs: BLOCK_TIMEOUT_SECS,
                    },
                )
            },
            EventView::Closed => (
                self.idle(),
                ActionView::Failed(BitTorrentError::Peer(PeerFailure::Disconnected)),
            ),
            EventView::Failed(e) => (self.idle(), ActionView::Failed(e)),
        }
    }

    /// The step that an event causes.
    pub open spec fn step(self, event: EventView) -> (PeerView, ActionView) {
        match self.phase {
            Phase::Idle => self.step_idle(event),
            Phase::AwaitUnchoke => self.step_await_unchoke(event),
            Phase::AwaitBlock => self.step_await_block(event),
        }
    }
}

/// One peer session: the endpoint, what the remote advertises, the four
/// choke and interest flags, and the piece request in progress, if any.
#[derive(Debug)]
pub struct Peer {
    addr: PeerAddr,
    info_hash: [u8; 20],
    pieces: usize,
    bitfield: Vec<u8>,
    am_choking: bool,
    am_interested: bool,
    peer_choking: bool,
    peer_interested: bool,
    phase: Phase,
    index: u32,
    length: u32,
    data: Vec<u8>,
    retries: u32,
    nudges: u32,
}

impl Peer {
    pub closed spec fn view(&self) -> PeerView {
        PeerView {
            addr: self.addr,
            info_hash: self.info_hash@,
            pieces: self.pieces as nat,
            bitfield: self.bitfield@,
            am_choking: self.am_choking,
            am_interested: self.am_interested,
            peer_choking: self.peer_choking,
            peer_interested: self.peer_interested,
            phase: self.phase,
            index: self.index,
            length: self.length,
            data: self.data@,
            retries: self.retries,
            nudges: self.nudges,
        }
    }

    /// Whether the session meets its invariants.
    pub open spec fn wf(&self) -> bool {
        self@.valid()
    }

    /// What a connection attempt gives: the session, or the fault. The reply
    /// to the handshake has to be a greeting for the same torrent, and the
    /// stream must not end before the first framed message, which is handled
    /// as any later message is.
    pub open spec fn spec_connect(
        addr: PeerAddr,
        info_hash: Seq<u8>,
        pieces: nat,
        reply: Seq<u8>,
        first: Option<MessageView>,
    ) -> Result<PeerView, BitTorrentError> {
        match spec_read_handshake(reply) {
            Err(e) => Err(e),
            Ok(greeting) => if greeting.info_hash@ != info_hash {
                Err(BitTorrentError::Protocol(ProtocolViolation::InfoHashMismatch))
            } else {
                match first {
                    None => Err(BitTorrentError::Peer(PeerFailure::DisconnectedBeforeBitfield)),
                    Some(message) => PeerView::fresh(addr, info_hash, pieces).handle(message),
                }
            },
        }
    }

    /// Checks the reply to the local handshake: it has to be a greeting, and
    /// for the same torrent.
    pub fn check_handshake(info_hash: &[u8; 20], reply: &[u8]) -> (result: Result<
        Handshake,
        BitTorrentError,
    >)
        ensures
            result == (match spec_read_handshake(reply@) {
                Err(e) => Err(e),
                Ok(greeting) => if greeting.info_hash@ != info_hash@ {
                    Err(BitTorrentError::Protocol(ProtocolViolation::InfoHashMismatch))
                } else {
                    Ok(greeting)
                },
            }),
    {
        match Handshake::read_from(reply) {
            Err(e) => Err(e),
            Ok(greeting) => {
                if same_bytes(&greeting.info_hash, info_hash) {
                    Ok(greeting)
                } else {
                    Err(BitTorrentError::Protocol(ProtocolViolation::InfoHashMismatch))
                }
            },
        }
    }

    /// Opens a session for a torrent of `pieces` pieces from what the
    /// connection delivered: the reply to the handshake and the first framed
    /// message, `None` when the stream ended before one arrived.
    pub fn connect(
        addr: PeerAddr,
        info_hash: [u8; 20],
        pieces: usize,
        reply: &[u8],
        first: Option<Message>,
    ) -> (result: Result<Self, BitTorrentError>)
        ensures
            match Self::spec_connect(
                addr,
                info_hash@,
                pieces as nat,
                reply@,
                match first {
                    Some(m) => Some(m@),
                    None => None,
                },
            ) {
                Ok(session) => result matches Ok(peer) && peer@ == session && peer.wf(),
                Err(e) => result matches Err(f) && f == e,
            },
    {
        match Self::check_handshake(&info_hash, reply) {
            Err(e) => Err(e),
            Ok(_) => {
                let mut peer = Self {
                    addr,
                    info_hash,
                    pieces,
                    bitfield: Vec::new(),
                    am_choking: true,
                    am_interested: false,
                    peer_choking: true,
                    peer_interested: false,
                    phase: Phase::Idle,
                    index: 0,
                    length: 0,
                    data: Vec::new(),
                    retries: 0,
                    nudges: 0,
                };
                match first {
                    None => Err(BitTorrentError::Peer(PeerFailure::DisconnectedBeforeBitfield)),
                    Some(message) => match peer.handle_message(message) {
                        Ok(()) => Ok(peer),
                        Err(e) => Err(e),
                    },
                }
            },
        }
    }

    /// Whether the remote advertises piece `index`. An index that names no
    /// piece of the torrent is not advertised, whatever the bitfield holds
    /// there, nor is one beyond the bitfield.
    pub fn has_piece(&self, index: usize) -> (has: bool)
        ensures
            has == self@.has_piece(index as int),
            has == (index < self@.pieces && spec_bit_set(self@.bitfield, index as int)),
    {
        index < self.pieces && bit_set(self.bitfield.as_slice(), index)
    }

    /// The number of pieces of the torrent the session was opened for.
    pub fn pieces(&self) -> (pieces: usize)
        ensures
            pieces == self@.pieces,
    {
        self.pieces
    }

    /// The info-hash of the torrent the session was opened for, which the
    /// remote's greeting carried.
    pub fn info_hash(&self) -> (info_hash: [u8; 20])
        ensures
            info_hash@ == self@.info_hash,
    {
        self.info_hash
    }

    /// The advertised bitfield, or `None` when it is empty.
    pub fn get_bitfield(&self) -> (bitfield: Option<&[u8]>)
        ensures
            match bitfield {
                Some(b) => b@ == self@.bitfield && b@.len() > 0,
                None => self@.bitfield.len() == 0,
            },
    {
        if self.bitfield.len() == 0 {
            None
        } else {
            Some(self.bitfield.as_slice())
        }
    }

    /// The remote endpoint.
    pub fn addr(&self) -> (addr: PeerAddr)
        ensures
            addr == self@.addr,
    {
        self.addr
    }

    /// Whether the remote chokes the session.
    pub fn is_choked(&self) -> (choked: bool)
        ensures
            choked == self@.peer_choking,
    {
        self.peer_choking
    }

    /// Whether interest has been declared to the remote.
    pub fn is_interested(&self) -> (interested: bool)
        ensures
            interested == self@.am_interested,
    {
        self.am_interested
    }

    /// What the session is doing.
    pub fn phase(&self) -> (phase: Phase)
        ensures
            phase == self@.phase,
    {
        self.phase
    }

    /// Handles a message that arrived outside a block wait: the flags follow
    /// choke, unchoke, interested and not-interested; a have sets its bit
    /// when the bitfield reaches that far; a bitfield is stored unless one is
    /// stored already; the other messages are ignored. On a violation the
    /// session stays as it was.
    pub fn handle_message(&mut self, message: Message) -> (result: Result<(), BitTorrentError>)
        ensures
            match old(self)@.handle(message@) {
                Ok(next) => result is Ok && final(self)@ == next,
                Err(e) => result == Err::<(), BitTorrentError>(e) && final(self)@ == old(self)@,
            },
            old(self).wf() ==> final(self).wf(),
    {
        match message.id {
            MessageId::Choke => {
                self.peer_choking = true;
            },
            MessageId::Unchoke => {
                self.peer_choking = false;
            },
            MessageId::Interested => {
                self.peer_interested = true;
            },
            MessageId::NotInterested => {
                self.peer_interested = false;
            },
            MessageId::Have => {
                if message.payload.len() != 4 {
                    return Err(BitTorrentError::Protocol(ProtocolViolation::InvalidHave));
                }
                let piece_index: u32 = be32(
                    message.payload[0],
                    message.payload[1],
                    message.payload[2],
                    message.payload[3],
                );
                set_bit(self.bitfield.as_mut_slice(), piece_index as usize);
            },
            MessageId::Bitfield => {
                if self.bitfield.len() != 0 {
                    return Err(BitTorrentError::Protocol(ProtocolViolation::DuplicateBitfield));
                }
                self.bitfield = message.payload;
            },
            _ => {},
        }
        Ok(())
    }

    /// Forgets the piece request in progress.
    fn reset(&mut self)
        ensures
            final(self)@ == old(self)@.idle(),
    {
        self.phase = Phase::Idle;
        self.index = 0;
        self.length = 0;
        self.data = Vec::new();
        self.retries = 0;
        self.nudges = 0;
    }

    /// The request for the block to fetch next.
    fn next_request(&self) -> (request: Message)
        requires
            self@.data.len() <= self@.length,
        ensures
            request@ == self@.block_request(),
    {
        let offset: u32 = self.data.len() as u32;
        let left: u32 = self.length - offset;
        let block: u32 = if left < crate::BLOCK_SIZE as u32 {
            left
        } else {
            crate::BLOCK_SIZE as u32
        };
        Message::request(self.index, offset, block)
    }

    /// Starts a request for `piece` and says what to do first: nothing when
    /// the remote does not advertise the piece; else interest is declared
    /// unless it was, and the first block is requested, or an unchoke
    /// awaited while the remote chokes the session. A piece without bytes is
    /// done once interest is declared and the session unchoked. A request in
    /// progress is dropped.
    pub fn request_piece(&mut self, piece: &PieceInfo) -> (action: SessionAction)
        requires
            old(self).wf(),
        ensures
            final(self).wf(),
            (final(self)@, action@) == old(self)@.request_piece(piece.index(), piece.length()),
    {
        self.reset();
        if !self.has_piece(piece.index()) {
            return SessionAction::Failed(BitTorrentError::Peer(PeerFailure::MissingPiece));
        }
        if piece.index() > u32::MAX as usize || piece.length() > u32::MAX as usize {
            return SessionAction::Failed(
                BitTorrentError::Protocol(ProtocolViolation::FieldTooLarge),
            );
        }
        let mut messages: Vec<Message> = Vec::new();
        let ghost declare = if self.am_interested {
            Seq::<MessageView>::empty()
        } else {
            seq![interested_message()]
        };
        if !self.am_interested {
            messages.push(Message::interested());
            self.am_interested = true;
        }
        assert(messages_view(messages@) =~= declare);
        self.index = piece.index() as u32;
        self.length = piece.length() as u32;
        if self.peer_choking {
            self.phase = Phase::AwaitUnchoke;
            SessionAction::Send { messages, wait_secs: UNCHOKE_NUDGE_SECS }
        } else {
            self.begin(messages)
        }
    }

    /// Begins the block requests, after the messages of `first`: the first
    /// block is requested, or, where the piece has no bytes, the request is
    /// done.
    fn begin(&mut self, first: Vec<Message>) -> (action: SessionAction)
        requires
            old(self)@.data.len() == 0,
        ensures
            (final(self)@, action@) == old(self)@.begin(messages_view(first@)),
    {
        let mut messages = first;
        if self.length == 0 {
            self.reset();
            SessionAction::Done { messages, data: Vec::new() }
        } else {
            let request = self.next_request();
            messages.push(request);
            assert(messages_view(messages@) =~= messages_view(first@).push(request@));
            self.phase = Phase::AwaitBlock;
            self.nudges = 0;
            SessionAction::Send { messages, wait_secs: BLOCK_TIMEOUT_SECS }
        }
    }

    /// A single message to send.
    fn send_one(message: Message, wait_secs: u64) -> (action: SessionAction)
        ensures
            action@ == (ActionView::Send { messages: seq![message@], wait_secs }),
    {
        let mut messages: Vec<Message> = Vec::new();
        messages.push(message);
        let action = SessionAction::Send { messages, wait_secs };
        assert(action@->Send_messages =~= seq![message@]);
        action
    }

    /// Gives up the piece request in progress.
    fn fail(&mut self, error: BitTorrentError) -> (action: SessionAction)
        ensures
            final(self)@ == old(self)@.idle(),
            action@ == ActionView::Failed(error),
    {
        self.reset();
        SessionAction::Failed(error)
    }

    /// Takes an event of the connection and says what to do next.
    pub fn on_event(&mut self, event: SessionEvent) -> (action: SessionAction)
        requires
            old(self).wf(),
        ensures
            final(self).wf(),
            (final(self)@, action@) == old(self)@.step(event@),
    {
        match self.phase {
            Phase::Idle => self.on_event_idle(event),
            Phase::AwaitUnchoke => self.on_event_await_unchoke(event),
            Phase::AwaitBlock => self.on_event_await_block(event),
        }
    }

    fn on_event_idle(&mut self, event: SessionEvent) -> (action: SessionAction)
        requires
            old(self).wf(),
            old(self)@.phase == Phase::Idle,
        ensures
            final(self).wf(),
            (final(self)@, action@) == old(self)@.step_idle(event@),
    {
        match event {
            SessionEvent::Message(message) => match self.handle_message(message) {
                Ok(()) => SessionAction::Wait,
                Err(e) => SessionAction::Failed(e),
            },
            SessionEvent::Timeout => SessionAction::Wait,
            SessionEvent::Closed => SessionAction::Failed(
                BitTorrentError::Peer(PeerFailure::Disconnected),
            ),
            SessionEvent::Failed(e) => SessionAction::Failed(e),
        }
    }

    fn on_event_await_unchoke(&mut self, event: SessionEvent) -> (action: SessionAction)
        requires
            old(self).wf(),
            old(self)@.phase == Phase::AwaitUnchoke,
        ensures
            final(self).wf(),
            (final(self)@, action@) == old(self)@.step_await_unchoke(event@),
    {
        match event {
            SessionEvent::Message(message) => match self.handle_message(message) {
                Ok(()) => {
                    if self.peer_choking {
                        SessionAction::Wait
                    } else {
                        let first: Vec<Message> = Vec::new();
                        assert(messages_view(first@) =~= Seq::<MessageView>::empty());
                        self.begin(first)
                    }
                },
                Err(e) => self.fail(e),
            },
            SessionEvent::Timeout => {
                if self.nudges + 1 >= UNCHOKE_NUDGES {
                    self.fail(BitTorrentError::Peer(PeerFailure::UnchokeTimeout))
                } else {
                    self.nudges = self.nudges + 1;
                    Self::send_one(Message::interested(), UNCHOKE_NUDGE_SECS)
                }
            },
            SessionEvent::Closed => self.fail(BitTorrentError::Peer(PeerFailure::Disconnected)),
            SessionEvent::Failed(e) => self.fail(e),
        }
    }

    /// Whether a message is the block that is awaited.
    fn is_awaited_block(&self, message: &Message) -> (awaited: bool)
        ensures
            awaited == self@.is_awaited_block(message@),
    {
        if message.id != MessageId::Piece || message.payload.len() < 8 {
            return false;
        }
        let index: u32 = be32(
            message.payload[0],
            message.payload[1],
            message.payload[2],
            message.payload[3],
        );
        let begin: u32 = be32(
            message.payload[4],
            message.payload[5],
            message.payload[6],
            message.payload[7],
        );
        index == self.index && begin as usize == self.data.len()
    }

    /// Takes the block that was awaited.
    fn accept_block(&mut self, message: Message) -> (action: SessionAction)
        requires
            old(self).wf(),
            old(self)@.phase == Phase::AwaitBlock,
            old(self)@.is_awaited_block(message@),
        ensures
            final(self).wf(),
            (final(self)@, action@) == old(self)@.step_await_block(EventView::Message(message@)),
    {
        let received: usize = message.payload.len() - 8;
        let offset: usize = self.data.len();
        let left: usize = self.length as usize - offset;
        let expected: usize = if left < crate::BLOCK_SIZE {
            left
        } else {
            crate::BLOCK_SIZE
        };
        assert(expected == self@.block_length());
        if received != expected {
            return self.fail(BitTorrentError::Protocol(ProtocolViolation::BlockSizeMismatch));
        }
        let block = vstd::slice::slice_subrange(
            message.payload.as_slice(),
            8,
            message.payload.len(),
        );
        assert(block@ =~= message@.payload.skip(8));
        let ghost grown = self@.data + block@;
        self.data.extend_from_slice(block);
        assert(self.data@ == grown);
        if self.data.len() == self.length as usize {
            let mut data: Vec<u8> = Vec::new();
            std::mem::swap(&mut data, &mut self.data);
            self.reset();
            let messages: Vec<Message> = Vec::new();
            assert(messages_view(messages@) =~= Seq::<MessageView>::empty());
            SessionAction::Done { messages, data }
        } else {
            self.retries = 0;
            assert(self@.data.len() == offset + 16384);
            assert(offset % 16384 == 0);
            assert(self@.data.len() % 16384 == 0);
            let request = self.next_request();
            Self::send_one(request, BLOCK_TIMEOUT_SECS)
        }
    }

    /// Takes a message that is not the awaited block while a block is awaited.
    fn bypass_block(&mut self, message: Message) -> (action: SessionAction)
        requires
            old(self).wf(),
            old(self)@.phase == Phase::AwaitBlock,
            !old(self)@.is_awaited_block(message@),
        ensures
            final(self).wf(),
            (final(self)@, action@) == old(self)@.step_await_block(EventView::Message(message@)),
    {
        if message.id == MessageId::Piece {
            SessionAction::Wait
        } else if message.id == MessageId::Choke {
            self.reset();
            self.peer_choking = true;
            SessionAction::Failed(BitTorrentError::Peer(PeerFailure::ChokedDuringTransfer))
        } else {
            match self.handle_message(message) {
                Ok(()) => SessionAction::Wait,
                Err(e) => self.fail(e),
            }
        }
    }

    fn on_event_await_block(&mut self, event: SessionEvent) -> (action: SessionAction)
        requires
            old(self).wf(),
            old(self)@.phase == Phase::AwaitBlock,
        ensures
            final(self).wf(),
            (final(self)@, action@) == old(self)@.step_await_block(event@),
    {
        match event {
            SessionEvent::Message(message) => {
                if self.is_awaited_block(&message) {
                    self.accept_block(message)
                } else {
                    self.bypass_block(message)
                }
            },
            SessionEvent::Timeout => {
                if self.retries + 1 >= MAX_BLOCK_RETRIES {
                    self.fail(BitTorrentError::Peer(PeerFailure::RetriesExhausted))
                } else {
                    self.retries = self.retries + 1;
                    let request = self.next_request();
                    Self::send_one(request, BLOCK_TIMEOUT_SECS)
                }
            },
            SessionEvent::Closed => self.fail(BitTorrentError::Peer(PeerFailure::Disconnected)),
            SessionEvent::Failed(e) => self.fail(e),
        }
    }
}

/// Every step keeps the invariants of a session, and leaves its endpoint,
/// the info-hash it was opened for and the piece count as they were.
pub proof fn lemma_step_keeps_valid(session: PeerView, event: EventView)
    requires
        session.valid(),
    ensures
        session.step(event).0.valid(),
        session.step(event).0.addr == session.addr,
        session.step(event).0.info_hash == session.info_hash,
        session.step(event).0.pieces == session.pieces,
{
    if session.phase == Phase::AwaitBlock {
        if let EventView::Message(message) = event {
            if session.is_awaited_block(message) {
                let block = message.payload.skip(8);
                if block.len() == session.block_length() && session.data.len() + block.len()
                    != session.length {
                    assert((session.data + block).len() == session.data.len() + 16384);
                    assert(session.data.len() % 16384 == 0);
                    assert((session.data + block).len() % 16384 == 0);
                }
            }
        }
    }
}

/// The first step of a request leaves a valid session, opened for the same
/// torrent; a piece that the session does not advertise is not requested.
pub proof fn lemma_request_keeps_valid(session: PeerView, index: usize, length: usize)
    requires
        session.valid(),
    ensures
        session.request_piece(index, length).0.valid(),
        session.request_piece(index, length).0.info_hash == session.info_hash,
        session.request_piece(index, length).0.pieces == session.pieces,
        !session.has_piece(index as int) ==> session.request_piece(index, length).1
            == ActionView::Failed(BitTorrentError::Peer(PeerFailure::MissingPiece)),
{
}

/// A block request asks for a whole block, or for what is left of the piece
/// when that is less: the last block of a piece may be short.
pub proof fn lemma_block_request(session: PeerView)
    requires
        session.valid(),
        session.phase == Phase::AwaitBlock,
    ensures
        0 < session.block_length() <= crate::BLOCK_SIZE,
        session.data.len() + session.block_length() <= session.length,
        session.block_length() < crate::BLOCK_SIZE ==> session.data.len()
            + session.block_length() == session.length,
        session.block_request().payload == spec_request_payload(
            session.index,
            session.data.len() as u32,
            session.block_length() as u32,
        ),
{
}

/// A request is done only with all the bytes of the piece, and leaves the
/// session idle. While a block is awaited the bytes are what was received
/// before and the awaited block; a request is done from the wait for an
/// unchoke only where the piece has no bytes.
pub proof fn lemma_done_is_whole(session: PeerView, event: EventView)
    requires
        session.valid(),
        session.step(event).1 is Done,
    ensures
        session.step(event).1->Done_data.len() == session.length,
        session.step(event).1->Done_messages.len() == 0,
        session.step(event).0.phase == Phase::Idle,
        session.phase == Phase::AwaitBlock ==> (event matches EventView::Message(message)
            && session.is_awaited_block(message) && session.step(event).1->Done_data
            == session.data + message.payload.skip(8)),
        session.phase != Phase::AwaitBlock ==> session.phase == Phase::AwaitUnchoke
            && session.length == 0,
{
}

/// The first step of a request ends it only where the piece has no bytes
/// and the session is not choked; the messages to send are then the
/// declaration of interest, unless interest was declared before.
pub proof fn lemma_request_done_at_once(session: PeerView, index: usize, length: usize)
    requires
        session.valid(),
        session.request_piece(index, length).1 is Done,
    ensures
        length == 0,
        !session.peer_choking,
        session.has_piece(index as int),
        session.request_piece(index, length).0.am_interested,
        session.request_piece(index, length).1 == (ActionView::Done {
            messages: if session.am_interested {
                Seq::<MessageView>::empty()
            } else {
                seq![interested_message()]
            },
            data: Seq::empty(),
        }),
{
}

/// Bits of the stored bitfield from the piece count on advertise nothing,
/// whatever the remote set there; below the piece count a piece is
/// advertised exactly when its bit is set.
pub proof fn lemma_session_trailing_bits(session: PeerView, index: int)
    ensures
        index >= session.pieces ==> !session.has_piece(index),
        0 <= index < session.pieces ==> session.has_piece(index) == spec_bit_set(
            session.bitfield,
            index,
        ),
        index / 8 >= session.bitfield.len() ==> !session.has_piece(index),
{
}

/// A choke while a block is awaited fails the request at once, leaves the
/// session choked and is not a fault of the connection.
pub proof fn lemma_choke_fails_request(session: PeerView, payload: Seq<u8>)
    requires
        session.valid(),
        session.phase == Phase::AwaitBlock,
    ensures
        ({
            let choke = EventView::Message(MessageView { id: MessageId::Choke, payload });
            &&& session.step(choke).1 == ActionView::Failed(
                BitTorrentError::Peer(PeerFailure::ChokedDuringTransfer),
            )
            &&& session.step(choke).0.peer_choking
            &&& session.step(choke).0.phase == Phase::Idle
            &&& !BitTorrentError::Peer(
                PeerFailure::ChokedDuringTransfer,
            ).spec_is_connection_error()
        }),
{
}

/// A reply that greets for another torrent opens no session, whatever
/// follows it.
pub proof fn lemma_info_hash_mismatch(
    addr: PeerAddr,
    info_hash: Seq<u8>,
    pieces: nat,
    reply: Seq<u8>,
    first: Option<MessageView>,
)
    requires
        spec_read_handshake(reply) matches Ok(greeting) && greeting.info_hash@ != info_hash,
    ensures
        Peer::spec_connect(addr, info_hash, pieces, reply, first) == Err::<
            PeerView,
            BitTorrentError,
        >(BitTorrentError::Protocol(ProtocolViolation::InfoHashMismatch)),
{
}

/// A session is opened only by a reply that is a greeting for the same
/// torrent, followed by a first message. The session carries the info-hash
/// of that greeting and the piece count it was opened with, and no step
/// changes either.
pub proof fn lemma_session_from_handshake(
    addr: PeerAddr,
    info_hash: Seq<u8>,
    pieces: nat,
    reply: Seq<u8>,
    first: Option<MessageView>,
    event: EventView,
)
    requires
        Peer::spec_connect(addr, info_hash, pieces, reply, first) is Ok,
    ensures
        spec_read_handshake(reply) matches Ok(greeting) && greeting.pstrlen == 19
            && greeting.pstr@ == protocol_literal() && greeting.info_hash@ == info_hash,
        first is Some,
        ({
            let session = Peer::spec_connect(addr, info_hash, pieces, reply, first)->Ok_0;
            &&& session.valid()
            &&& session.addr == addr
            &&& session.info_hash == info_hash
            &&& session.pieces == pieces
            &&& session.step(event).0.info_hash == info_hash
            &&& session.step(event).0.pieces == pieces
        }),
{
}

impl PeerView {
    /// The piece message with which the remote answers the pending block
    /// request, when the piece has the bytes `content`.
    pub open spec fn answer(self, content: Seq<u8>) -> MessageView {
        MessageView {
            id: MessageId::Piece,
            payload: spec_be32_bytes(self.index) + spec_be32_bytes(self.data.len() as u32)
                + content.subrange(
                self.data.len() as int,
                self.data.len() + self.block_length() as int,
            ),
        }
    }

    /// Where a request ends when the remote answers every block request
    /// with the bytes asked for.
    pub open spec fn served(self, content: Seq<u8>) -> (PeerView, ActionView)
        decreases self.length - self.data.len(),
    {
        let (next, action) = self.step(EventView::Message(self.answer(content)));
        if next.phase == Phase::AwaitBlock && next.length == self.length && self.data.len()
            < next.data.len() <= next.length {
            next.served(content)
        } else {
            (next, action)
        }
    }
}

/// A remote that answers every block request with the bytes asked for
/// delivers the piece: the request ends with exactly the bytes of the
/// piece, whatever its length, and leaves the session idle.
pub proof fn lemma_served_piece(session: PeerView, content: Seq<u8>)
    requires
        session.valid(),
        session.phase == Phase::AwaitBlock,
        content.len() == session.length,
        session.data == content.take(session.data.len() as int),
    ensures
        session.served(content).1 == (ActionView::Done {
            messages: Seq::empty(),
            data: content,
        }),
        session.served(content).0.phase == Phase::Idle,
    decreases session.length - session.data.len(),
{
    let offset = session.data.len();
    let message = session.answer(content);
    let block = content.subrange(offset as int, offset + session.block_length() as int);
    lemma_be32_round_trip(session.index, 0, 0, 0, 0);
    lemma_be32_round_trip(offset as u32, 0, 0, 0, 0);
    assert(spec_be32_at(message.payload, 0) == session.index) by {
        assert(spec_be32_at(message.payload, 0) == spec_be32_at(
            spec_be32_bytes(session.index),
            0,
        ));
    }
    assert(spec_be32_at(message.payload, 4) == offset) by {
        assert(spec_be32_at(message.payload, 4) == spec_be32_at(
            spec_be32_bytes(offset as u32),
            0,
        ));
    }
    assert(session.is_awaited_block(message));
    assert(message.payload.skip(8) =~= block);
    assert(session.data + block =~= content.take(offset + block.len() as int));
    let (next, action) = session.step(EventView::Message(message));
    if offset + block.len() == session.length {
        assert(content.take(content.len() as int) =~= content);
    } else {
        lemma_step_keeps_valid(session, EventView::Message(message));
        lemma_served_piece(next, content);
    }
}

} // verus!
