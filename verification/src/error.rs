//! The error kinds the engine distinguishes.

use vstd::prelude::*;

verus! {

/// Why a single peer session failed.
#[derive(Debug, Clone, Copy, PartialEq, Eq, Structural)]
pub enum PeerFailure {
    /// The session does not advertise the requested piece.
    MissingPiece,
    /// The stream ended before the first framed message.
    DisconnectedBeforeBitfield,
    /// The stream ended while a block was awaited.
    Disconnected,
    /// No unchoke arrived within the waiting period.
    UnchokeTimeout,
    /// The remote choked the session while a block was awaited.
    ChokedDuringTransfer,
    /// A block failed as often in a row as the retry ceiling allows.
    RetriesExhausted,
    /// No session could be established with any candidate.
    NoPeers,
}

/// Which framing or format rule a peer broke.
#[derive(Debug, Clone, Copy, PartialEq, Eq, Structural)]
pub enum ProtocolViolation {
    /// The handshake does not start with the length byte 19.
    InvalidPstrlen,
    /// The handshake does not carry the protocol literal.
    InvalidProtocolString,
    /// The handshake names another torrent.
    InfoHashMismatch,
    /// A frame carries a tag outside the known set.
    UnknownMessageType(u8),
    /// A have message whose payload is not four bytes long.
    InvalidHave,
    /// A second bitfield message on one session.
    DuplicateBitfield,
    /// A block whose length differs from the requested length.
    BlockSizeMismatch,
    /// A value that does not fit the four-byte fields of the wire format.
    FieldTooLarge,
}

/// What went wrong with a piece.
#[derive(Debug, Clone, Copy, PartialEq, Eq, Structural)]
pub enum PieceFailure {
    /// The bytes do not hash to the published digest.
    VerificationFailed,
    /// No descriptor exists for the index.
    NotFound,
}

/// What went wrong with the tracker exchange.
#[derive(Debug, Clone, Copy, PartialEq, Eq, Structural)]
pub enum TrackerFailure {
    /// The announce URL does not parse.
    InvalidUrl,
    /// The response cannot be decoded.
    MalformedResponse,
    /// The tracker reported a failure reason.
    Rejected,
    /// The response lists no peer.
    NoPeers,
}

/// The errors of the engine.
#[derive(Debug, Clone, Copy, PartialEq, Eq, Structural)]
pub enum BitTorrentError {
    /// Transport-layer read, write or connect failure.
    Io,
    /// Failure inside the tracker's HTTP exchange.
    Network,
    Tracker(TrackerFailure),
    Peer(PeerFailure),
    Protocol(ProtocolViolation),
    Piece(PieceFailure),
    /// Misuse of the client, such as starting without a torrent.
    Client,
    /// Not every piece could be obtained, even after the endgame sweep.
    Download,
    /// A manifest that cannot be used.
    InvalidData,
    /// A timed operation did not complete in time.
    Timeout,
    /// A worker task could not be joined.
    Join,
}

impl BitTorrentError {
    /// Whether the error means that the session is unusable: a transport
    /// failure or the end of the stream.
    pub open spec fn spec_is_connection_error(&self) -> bool {
        match *self {
            BitTorrentError::Io => true,
            BitTorrentError::Peer(PeerFailure::DisconnectedBeforeBitfield) => true,
            BitTorrentError::Peer(PeerFailure::Disconnected) => true,
            _ => false,
        }
    }

    /// Classifies the error as connection-level or not.
    #[verifier::when_used_as_spec(spec_is_connection_error)]
    pub fn is_connection_error(&self) -> (connection: bool)
        ensures
            connection == self.spec_is_connection_error(),
    {
        match *self {
            BitTorrentError::Io => true,
            BitTorrentError::Peer(PeerFailure::DisconnectedBeforeBitfield) => true,
            BitTorrentError::Peer(PeerFailure::Disconnected) => true,
            _ => false,
        }
    }
}

/// The result type of the engine.
pub type Result<T> = std::result::Result<T, BitTorrentError>;

} // verus!
