use bittorrent::error::{
    BitTorrentError, PeerFailure, PieceFailure, ProtocolViolation, TrackerFailure,
};

#[test]
fn transport_faults_and_stream_ends_are_connection_errors() {
    assert!(BitTorrentError::Io.is_connection_error());
    assert!(BitTorrentError::Peer(PeerFailure::Disconnected).is_connection_error());
    assert!(BitTorrentError::Peer(PeerFailure::DisconnectedBeforeBitfield).is_connection_error());
}

#[test]
fn other_errors_are_not_connection_errors() {
    let others = [
        BitTorrentError::Network,
        BitTorrentError::Tracker(TrackerFailure::NoPeers),
        BitTorrentError::Peer(PeerFailure::MissingPiece),
        BitTorrentError::Peer(PeerFailure::UnchokeTimeout),
        BitTorrentError::Peer(PeerFailure::ChokedDuringTransfer),
        BitTorrentError::Peer(PeerFailure::RetriesExhausted),
        BitTorrentError::Peer(PeerFailure::NoPeers),
        BitTorrentError::Protocol(ProtocolViolation::UnknownMessageType(9)),
        BitTorrentError::Protocol(ProtocolViolation::DuplicateBitfield),
        BitTorrentError::Piece(PieceFailure::VerificationFailed),
        BitTorrentError::Client,
        BitTorrentError::Download,
        BitTorrentError::InvalidData,
        BitTorrentError::Timeout,
        BitTorrentError::Join,
    ];
    for error in others {
        assert!(!error.is_connection_error(), "{:?}", error);
    }
}
