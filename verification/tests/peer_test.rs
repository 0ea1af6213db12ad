use bittorrent::error::{BitTorrentError, PeerFailure, ProtocolViolation};
use bittorrent::message::{Message, MessageId};
use bittorrent::peer::{
    Handshake, Peer, PeerAddr, Phase, SessionAction, SessionEvent, BLOCK_TIMEOUT_SECS,
    HANDSHAKE_LEN, UNCHOKE_NUDGE_SECS,
};
use bittorrent::piece::PieceInfo;

fn addr() -> PeerAddr {
    PeerAddr { ip: [10, 0, 0, 1], port: 6881 }
}

fn greeting(info_hash: [u8; 20]) -> Vec<u8> {
    let mut bytes = Vec::new();
    Handshake::new(info_hash, [7; 20]).write_to(&mut bytes);
    bytes
}

/// A session for a torrent of `pieces` pieces whose remote sent `bitfield`.
fn session_of(pieces: usize, bitfield: Vec<u8>) -> Peer {
    Peer::connect(
        addr(),
        [3; 20],
        pieces,
        &greeting([3; 20]),
        Some(Message::new(MessageId::Bitfield, bitfield)),
    )
    .unwrap()
}

/// A session for a torrent of sixteen pieces whose remote sent `bitfield`.
fn session(bitfield: Vec<u8>) -> Peer {
    session_of(16, bitfield)
}

fn block(index: u32, begin: u32, data: &[u8]) -> SessionEvent {
    let mut payload = Vec::new();
    payload.extend_from_slice(&index.to_be_bytes());
    payload.extend_from_slice(&begin.to_be_bytes());
    payload.extend_from_slice(data);
    SessionEvent::Message(Message::new(MessageId::Piece, payload))
}

fn plain(id: MessageId) -> SessionEvent {
    SessionEvent::Message(Message::new(id, Vec::new()))
}

/// The messages and the deadline of a send action.
fn sent(action: SessionAction) -> (Vec<(MessageId, Vec<u8>)>, u64) {
    match action {
        SessionAction::Send { messages, wait_secs } => (
            messages.into_iter().map(|m| (m.id, m.payload)).collect(),
            wait_secs,
        ),
        other => panic!("expected a send, got {:?}", other),
    }
}

fn failure(action: SessionAction) -> BitTorrentError {
    match action {
        SessionAction::Failed(e) => e,
        other => panic!("expected a failure, got {:?}", other),
    }
}

fn request(index: u32, begin: u32, length: u32) -> (MessageId, Vec<u8>) {
    let mut payload = Vec::new();
    payload.extend_from_slice(&index.to_be_bytes());
    payload.extend_from_slice(&begin.to_be_bytes());
    payload.extend_from_slice(&length.to_be_bytes());
    (MessageId::Request, payload)
}

#[test]
fn handshake_has_the_fixed_layout() {
    let bytes = greeting([0xab; 20]);
    assert_eq!(bytes.len(), HANDSHAKE_LEN);
    assert_eq!(bytes[0], 0x13);
    assert_eq!(&bytes[1..20], b"BitTorrent protocol");
    assert_eq!(&bytes[20..28], &[0u8; 8]);
    assert_eq!(&bytes[28..48], &[0xab; 20]);
    assert_eq!(&bytes[48..68], &[7; 20]);
}

#[test]
fn handshake_reads_back() {
    let mut bytes = greeting([0xab; 20]);
    // Reserved bytes are not looked at, and what follows is left alone.
    bytes[25] = 0x10;
    bytes.extend_from_slice(&[1, 2, 3]);
    let read = Handshake::read_from(&bytes).unwrap();
    assert_eq!(read.pstrlen, 19);
    assert_eq!(&read.pstr, b"BitTorrent protocol");
    assert_eq!(read.reserved, [0, 0, 0, 0, 0, 0x10, 0, 0]);
    assert_eq!(read.info_hash, [0xab; 20]);
    assert_eq!(read.peer_id, [7; 20]);
}

#[test]
fn handshake_faults() {
    let good = greeting([1; 20]);
    assert_eq!(Handshake::read_from(&[]).unwrap_err(), BitTorrentError::Io);
    let mut wrong_length = good.clone();
    wrong_length[0] = 18;
    assert_eq!(
        Handshake::read_from(&wrong_length).unwrap_err(),
        BitTorrentError::Protocol(ProtocolViolation::InvalidPstrlen)
    );
    // The length byte is judged before the rest is read.
    assert_eq!(
        Handshake::read_from(&[18]).unwrap_err(),
        BitTorrentError::Protocol(ProtocolViolation::InvalidPstrlen)
    );
    assert_eq!(Handshake::read_from(&good[..10]).unwrap_err(), BitTorrentError::Io);
    let mut wrong_literal = good.clone();
    wrong_literal[5] = b'x';
    assert_eq!(
        Handshake::read_from(&wrong_literal).unwrap_err(),
        BitTorrentError::Protocol(ProtocolViolation::InvalidProtocolString)
    );
    assert_eq!(
        Handshake::read_from(&wrong_literal[..20]).unwrap_err(),
        BitTorrentError::Protocol(ProtocolViolation::InvalidProtocolString)
    );
    assert_eq!(Handshake::read_from(&good[..67]).unwrap_err(), BitTorrentError::Io);
}

#[test]
fn mismatched_info_hash_opens_no_session() {
    let result = Peer::connect(
        addr(),
        [3; 20],
        16,
        &greeting([4; 20]),
        Some(Message::new(MessageId::Bitfield, vec![0x80])),
    );
    assert_eq!(
        result.unwrap_err(),
        BitTorrentError::Protocol(ProtocolViolation::InfoHashMismatch)
    );
    assert_eq!(
        Peer::check_handshake(&[3; 20], &greeting([4; 20])).unwrap_err(),
        BitTorrentError::Protocol(ProtocolViolation::InfoHashMismatch)
    );
    assert_eq!(
        Peer::check_handshake(&[3; 20], &greeting([3; 20])).unwrap().peer_id,
        [7; 20]
    );
}

#[test]
fn stream_end_before_first_message() {
    let result = Peer::connect(addr(), [3; 20], 16, &greeting([3; 20]), None);
    assert_eq!(
        result.unwrap_err(),
        BitTorrentError::Peer(PeerFailure::DisconnectedBeforeBitfield)
    );
}

#[test]
fn fresh_session_flags_and_bitfield() {
    let peer = session(vec![0b1010_0000]);
    assert!(peer.is_choked());
    assert!(!peer.is_interested());
    assert_eq!(peer.phase(), Phase::Idle);
    assert_eq!(peer.addr().port, 6881);
    assert_eq!(peer.addr().ip, [10, 0, 0, 1]);
    assert_eq!(peer.get_bitfield(), Some(&[0b1010_0000u8][..]));
    assert!(peer.has_piece(0));
    assert!(!peer.has_piece(1));
    assert!(peer.has_piece(2));
    assert!(!peer.has_piece(8));
    assert!(!peer.has_piece(1_000_000));
}

#[test]
fn first_message_other_than_bitfield_is_handled() {
    let peer = Peer::connect(
        addr(),
        [3; 20],
        16,
        &greeting([3; 20]),
        Some(Message::new(MessageId::Unchoke, vec![])),
    )
    .unwrap();
    assert!(!peer.is_choked());
    assert_eq!(peer.get_bitfield(), None);
    assert!(!peer.has_piece(0));
    // A have for a session without bitfield is ignored.
    let peer = Peer::connect(
        addr(),
        [3; 20],
        16,
        &greeting([3; 20]),
        Some(Message::new(MessageId::Have, vec![0, 0, 0, 0])),
    )
    .unwrap();
    assert_eq!(peer.get_bitfield(), None);
    // A malformed have opens no session.
    let result = Peer::connect(
        addr(),
        [3; 20],
        16,
        &greeting([3; 20]),
        Some(Message::new(MessageId::Have, vec![0, 0, 0])),
    );
    assert_eq!(
        result.unwrap_err(),
        BitTorrentError::Protocol(ProtocolViolation::InvalidHave)
    );
}

#[test]
fn handler_updates_flags_and_bitfield() {
    let mut peer = session(vec![0, 0]);
    peer.handle_message(Message::new(MessageId::Unchoke, vec![])).unwrap();
    assert!(!peer.is_choked());
    peer.handle_message(Message::new(MessageId::Choke, vec![])).unwrap();
    assert!(peer.is_choked());
    peer.handle_message(Message::new(MessageId::Have, vec![0, 0, 0, 9])).unwrap();
    assert!(peer.has_piece(9));
    assert_eq!(peer.get_bitfield(), Some(&[0u8, 0x40][..]));
    // A have beyond the bitfield is ignored.
    peer.handle_message(Message::new(MessageId::Have, vec![0, 0, 0, 16])).unwrap();
    assert_eq!(peer.get_bitfield(), Some(&[0u8, 0x40][..]));
    assert_eq!(
        peer.handle_message(Message::new(MessageId::Have, vec![0, 0, 9])),
        Err(BitTorrentError::Protocol(ProtocolViolation::InvalidHave))
    );
    assert_eq!(
        peer.handle_message(Message::new(MessageId::Bitfield, vec![0xff])),
        Err(BitTorrentError::Protocol(ProtocolViolation::DuplicateBitfield))
    );
    assert_eq!(peer.get_bitfield(), Some(&[0u8, 0x40][..]));
    // Requests, pieces and cancels outside a block wait are ignored.
    peer.handle_message(Message::new(MessageId::Request, vec![1])).unwrap();
    peer.handle_message(Message::new(MessageId::Piece, vec![1])).unwrap();
    peer.handle_message(Message::new(MessageId::Cancel, vec![1])).unwrap();
    peer.handle_message(Message::new(MessageId::Interested, vec![])).unwrap();
    peer.handle_message(Message::new(MessageId::NotInterested, vec![])).unwrap();
    assert!(peer.is_choked());
}

#[test]
fn piece_that_is_not_advertised_is_refused() {
    let mut peer = session(vec![0x80]);
    let action = peer.request_piece(&PieceInfo::new(1, [0; 20], 100));
    assert_eq!(failure(action), BitTorrentError::Peer(PeerFailure::MissingPiece));
    assert!(!peer.is_interested());
    assert_eq!(peer.phase(), Phase::Idle);
}

#[test]
fn piece_in_three_blocks_with_short_last_block() {
    let length: usize = 2 * 16384 + 100;
    let data: Vec<u8> = (0..length).map(|i| (i % 251) as u8).collect();
    let mut peer = session(vec![0x40]);
    let (messages, wait) = sent(peer.request_piece(&PieceInfo::new(1, [0; 20], length)));
    assert_eq!(messages, vec![(MessageId::Interested, vec![])]);
    assert_eq!(wait, UNCHOKE_NUDGE_SECS);
    assert!(peer.is_interested());
    assert_eq!(peer.phase(), Phase::AwaitUnchoke);

    let (messages, wait) = sent(peer.on_event(plain(MessageId::Unchoke)));
    assert_eq!(messages, vec![request(1, 0, 16384)]);
    assert_eq!(wait, BLOCK_TIMEOUT_SECS);
    assert_eq!(peer.phase(), Phase::AwaitBlock);

    let (messages, _) = sent(peer.on_event(block(1, 0, &data[..16384])));
    assert_eq!(messages, vec![request(1, 16384, 16384)]);

    // A block for another piece or offset is dropped.
    assert!(matches!(peer.on_event(block(0, 16384, &data[..16384])), SessionAction::Wait));
    assert!(matches!(peer.on_event(block(1, 0, &data[..16384])), SessionAction::Wait));
    assert!(matches!(
        peer.on_event(SessionEvent::Message(Message::new(MessageId::Piece, vec![0, 0, 0]))),
        SessionAction::Wait
    ));
    // Other messages go to the handler.
    assert!(matches!(
        peer.on_event(SessionEvent::Message(Message::new(MessageId::Have, vec![0, 0, 0, 7]))),
        SessionAction::Wait
    ));
    assert!(peer.has_piece(7));

    let (messages, _) = sent(peer.on_event(block(1, 16384, &data[16384..32768])));
    assert_eq!(messages, vec![request(1, 32768, 100)]);

    match peer.on_event(block(1, 32768, &data[32768..])) {
        SessionAction::Done { messages, data: bytes } => {
            assert!(messages.is_empty());
            assert_eq!(bytes, data);
        }
        other => panic!("expected the piece, got {:?}", other),
    }
    assert_eq!(peer.phase(), Phase::Idle);
}

#[test]
fn unchoked_session_requests_at_once() {
    let mut peer = session(vec![0x80]);
    peer.handle_message(Message::new(MessageId::Unchoke, vec![])).unwrap();
    let (messages, wait) = sent(peer.request_piece(&PieceInfo::new(0, [0; 20], 10)));
    assert_eq!(messages, vec![(MessageId::Interested, vec![]), request(0, 0, 10)]);
    assert_eq!(wait, BLOCK_TIMEOUT_SECS);
    match peer.on_event(block(0, 0, &[1, 2, 3, 4, 5, 6, 7, 8, 9, 10])) {
        SessionAction::Done { data, .. } => {
            assert_eq!(data, vec![1, 2, 3, 4, 5, 6, 7, 8, 9, 10])
        }
        other => panic!("expected the piece, got {:?}", other),
    }
    // Interest is declared only once.
    let (messages, _) = sent(peer.request_piece(&PieceInfo::new(0, [0; 20], 10)));
    assert_eq!(messages, vec![request(0, 0, 10)]);
}

#[test]
fn unchoke_wait_nudges_and_gives_up() {
    let mut peer = session(vec![0x80]);
    let _ = sent(peer.request_piece(&PieceInfo::new(0, [0; 20], 10)));
    for _ in 0..5 {
        let (messages, wait) = sent(peer.on_event(SessionEvent::Timeout));
        assert_eq!(messages, vec![(MessageId::Interested, vec![])]);
        assert_eq!(wait, UNCHOKE_NUDGE_SECS);
        // Messages that do not unchoke keep the wait going.
        assert!(matches!(peer.on_event(plain(MessageId::Choke)), SessionAction::Wait));
    }
    let action = peer.on_event(SessionEvent::Timeout);
    assert_eq!(failure(action), BitTorrentError::Peer(PeerFailure::UnchokeTimeout));
    assert_eq!(peer.phase(), Phase::Idle);
    assert!(!BitTorrentError::Peer(PeerFailure::UnchokeTimeout).is_connection_error());
}

#[test]
fn choke_during_transfer_fails_the_piece() {
    let mut peer = session(vec![0x80]);
    let _ = sent(peer.request_piece(&PieceInfo::new(0, [0; 20], 40000)));
    let _ = sent(peer.on_event(plain(MessageId::Unchoke)));
    let _ = sent(peer.on_event(block(0, 0, &[5u8; 16384])));
    let error = failure(peer.on_event(plain(MessageId::Choke)));
    assert_eq!(error, BitTorrentError::Peer(PeerFailure::ChokedDuringTransfer));
    assert!(!error.is_connection_error());
    assert!(peer.is_choked());
    assert_eq!(peer.phase(), Phase::Idle);
}

#[test]
fn block_timeouts_are_retried_up_to_the_ceiling() {
    let mut peer = session(vec![0x80]);
    let _ = sent(peer.request_piece(&PieceInfo::new(0, [0; 20], 20000)));
    let _ = sent(peer.on_event(plain(MessageId::Unchoke)));
    let (messages, wait) = sent(peer.on_event(SessionEvent::Timeout));
    assert_eq!(messages, vec![request(0, 0, 16384)]);
    assert_eq!(wait, BLOCK_TIMEOUT_SECS);
    let _ = sent(peer.on_event(SessionEvent::Timeout));
    // A block that arrives clears the count.
    let (messages, _) = sent(peer.on_event(block(0, 0, &[1u8; 16384])));
    assert_eq!(messages, vec![request(0, 16384, 3616)]);
    let _ = sent(peer.on_event(SessionEvent::Timeout));
    let _ = sent(peer.on_event(SessionEvent::Timeout));
    let error = failure(peer.on_event(SessionEvent::Timeout));
    assert_eq!(error, BitTorrentError::Peer(PeerFailure::RetriesExhausted));
    assert!(!error.is_connection_error());
    assert_eq!(peer.phase(), Phase::Idle);
}

#[test]
fn block_of_wrong_size_is_a_protocol_violation() {
    let mut peer = session(vec![0x80]);
    let _ = sent(peer.request_piece(&PieceInfo::new(0, [0; 20], 100)));
    let _ = sent(peer.on_event(plain(MessageId::Unchoke)));
    let error = failure(peer.on_event(block(0, 0, &[1u8; 99])));
    assert_eq!(error, BitTorrentError::Protocol(ProtocolViolation::BlockSizeMismatch));
    assert_eq!(peer.phase(), Phase::Idle);
}

#[test]
fn stream_end_and_stream_faults_fail_the_piece() {
    let mut peer = session(vec![0x80]);
    let _ = sent(peer.request_piece(&PieceInfo::new(0, [0; 20], 100)));
    let error = failure(peer.on_event(SessionEvent::Closed));
    assert_eq!(error, BitTorrentError::Peer(PeerFailure::Disconnected));
    assert!(error.is_connection_error());

    let _ = sent(peer.request_piece(&PieceInfo::new(0, [0; 20], 100)));
    let _ = sent(peer.on_event(plain(MessageId::Unchoke)));
    let error = failure(peer.on_event(SessionEvent::Failed(BitTorrentError::Io)));
    assert_eq!(error, BitTorrentError::Io);
    assert!(error.is_connection_error());

    let _ = sent(peer.request_piece(&PieceInfo::new(0, [0; 20], 100)));
    let error = failure(peer.on_event(SessionEvent::Message(Message::new(
        MessageId::Bitfield,
        vec![0xff],
    ))));
    assert_eq!(error, BitTorrentError::Protocol(ProtocolViolation::DuplicateBitfield));
    assert!(!error.is_connection_error());
}

#[test]
fn idle_session_takes_events() {
    let mut peer = session(vec![0x80]);
    assert!(matches!(peer.on_event(plain(MessageId::Unchoke)), SessionAction::Wait));
    assert!(!peer.is_choked());
    assert!(matches!(peer.on_event(SessionEvent::Timeout), SessionAction::Wait));
    assert!(matches!(peer.on_event(block(0, 0, &[1])), SessionAction::Wait));
    assert_eq!(
        failure(peer.on_event(SessionEvent::Closed)),
        BitTorrentError::Peer(PeerFailure::Disconnected)
    );
    assert_eq!(
        failure(peer.on_event(SessionEvent::Failed(BitTorrentError::Timeout))),
        BitTorrentError::Timeout
    );
}

#[test]
fn piece_without_bytes_follows_the_steps() {
    // Choked: interest is declared and the unchoke awaited before the
    // request is done.
    let mut peer = session(vec![0x80]);
    let (messages, wait) = sent(peer.request_piece(&PieceInfo::new(0, [0; 20], 0)));
    assert_eq!(messages, vec![(MessageId::Interested, vec![])]);
    assert_eq!(wait, UNCHOKE_NUDGE_SECS);
    assert_eq!(peer.phase(), Phase::AwaitUnchoke);
    match peer.on_event(plain(MessageId::Unchoke)) {
        SessionAction::Done { messages, data } => {
            assert!(messages.is_empty());
            assert!(data.is_empty());
        }
        other => panic!("expected the piece, got {:?}", other),
    }
    assert_eq!(peer.phase(), Phase::Idle);
    assert!(peer.is_interested());

    // Not choked and interest not yet declared: it is declared as the
    // request is done.
    let mut peer = session(vec![0x80]);
    peer.handle_message(Message::new(MessageId::Unchoke, vec![])).unwrap();
    match peer.request_piece(&PieceInfo::new(0, [0; 20], 0)) {
        SessionAction::Done { messages, data } => {
            assert_eq!(messages.len(), 1);
            assert_eq!(messages[0].id, MessageId::Interested);
            assert!(data.is_empty());
        }
        other => panic!("expected the piece, got {:?}", other),
    }
    assert!(peer.is_interested());
    // Interest is declared only once.
    match peer.request_piece(&PieceInfo::new(0, [0; 20], 0)) {
        SessionAction::Done { messages, data } => {
            assert!(messages.is_empty());
            assert!(data.is_empty());
        }
        other => panic!("expected the piece, got {:?}", other),
    }
}

#[test]
fn piece_too_long_for_the_wire() {
    let mut peer = session(vec![0x80]);
    let action = peer.request_piece(&PieceInfo::new(0, [0; 20], 5_000_000_000));
    assert_eq!(
        failure(action),
        BitTorrentError::Protocol(ProtocolViolation::FieldTooLarge)
    );
    assert_eq!(peer.phase(), Phase::Idle);
}

#[test]
fn trailing_bits_of_the_bitfield_advertise_nothing() {
    // Three pieces, and a bitfield whose padding bits are all set.
    let mut peer = session_of(3, vec![0xff]);
    assert_eq!(peer.pieces(), 3);
    assert_eq!(peer.info_hash(), [3; 20]);
    assert!(peer.has_piece(0));
    assert!(peer.has_piece(1));
    assert!(peer.has_piece(2));
    for index in 3..8 {
        assert!(!peer.has_piece(index), "index {}", index);
    }
    for index in [8usize, 9, 64, 1_000_000, usize::MAX] {
        assert!(!peer.has_piece(index), "index {}", index);
    }
    // The bitfield is stored as it came.
    assert_eq!(peer.get_bitfield(), Some(&[0xffu8][..]));
    // A piece that only a padding bit names is not requested.
    let action = peer.request_piece(&PieceInfo::new(5, [0; 20], 10));
    assert_eq!(failure(action), BitTorrentError::Peer(PeerFailure::MissingPiece));

    // Below the piece count the bits decide, in big-endian order.
    let peer = session_of(3, vec![0b0101_1111]);
    assert!(!peer.has_piece(0));
    assert!(peer.has_piece(1));
    assert!(!peer.has_piece(2));
    assert!(!peer.has_piece(3));

    // A bitfield shorter than the piece count advertises nothing beyond
    // its end, and a have for a padding bit changes nothing that is read.
    let mut peer = session_of(12, vec![0x00]);
    assert!(!peer.has_piece(8));
    peer.handle_message(Message::new(MessageId::Have, vec![0, 0, 0, 7])).unwrap();
    assert!(peer.has_piece(7));
    let mut peer = session_of(3, vec![0x00]);
    peer.handle_message(Message::new(MessageId::Have, vec![0, 0, 0, 7])).unwrap();
    assert!(!peer.has_piece(7));
    assert_eq!(peer.get_bitfield(), Some(&[0x01u8][..]));
}
