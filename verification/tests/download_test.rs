use bittorrent::download::{
    ConnectPlan, Download, EndgameStep, TaskMessage, Worker, CONCURRENT_CONNECTS,
    MAX_FAILED_ATTEMPTS,
};
use bittorrent::error::{BitTorrentError, PeerFailure, PieceFailure, ProtocolViolation};
use bittorrent::message::{Message, MessageId};
use bittorrent::peer::{Handshake, Peer, PeerAddr, SessionAction, SessionEvent};
use bittorrent::torrent::{FileMode, Info, PieceHashes, Torrent};
use bittorrent::utils::calculate_piece_hash;
use bittorrent::MAX_PEERS;

fn torrent(piece_length: usize, pieces: &[&[u8]]) -> Torrent {
    let hashes: Vec<[u8; 20]> = pieces.iter().map(|p| calculate_piece_hash(p)).collect();
    let length: usize = pieces.iter().map(|p| p.len()).sum();
    let info = Info {
        name: String::from("resource"),
        piece_length,
        pieces: PieceHashes(hashes),
        files: FileMode::SingleFile { length },
    };
    Torrent::new(String::from("http://tracker.example/announce"), info, b"d4:name8:resourcee")
}

fn session(torrent: &Torrent, bitfield: Vec<u8>) -> Peer {
    let info_hash = torrent.info_hash();
    let mut reply = Vec::new();
    Handshake::new(info_hash, [9; 20]).write_to(&mut reply);
    Peer::connect(
        PeerAddr { ip: [127, 0, 0, 1], port: 7000 },
        info_hash,
        torrent.piece_count(),
        &reply,
        Some(Message::new(MessageId::Bitfield, bitfield)),
    )
    .unwrap()
}

/// Plays the remote side of one piece request: unchokes when asked and
/// answers every block request from `data`.
fn fetch(peer: &mut Peer, piece: &bittorrent::piece::PieceInfo, data: &[u8]) -> Vec<u8> {
    let mut action = peer.request_piece(piece);
    loop {
        let messages = match action {
            SessionAction::Send { messages, .. } => messages,
            SessionAction::Done { data, .. } => return data,
            other => panic!("unexpected action {:?}", other),
        };
        let event = match messages.last() {
            Some(m) if m.id == MessageId::Request => {
                let begin = u32::from_be_bytes([m.payload[4], m.payload[5], m.payload[6], m.payload[7]]) as usize;
                let length = u32::from_be_bytes([m.payload[8], m.payload[9], m.payload[10], m.payload[11]]) as usize;
                let mut payload = m.payload[0..8].to_vec();
                payload.extend_from_slice(&data[begin..begin + length]);
                SessionEvent::Message(Message::new(MessageId::Piece, payload))
            }
            _ => SessionEvent::Message(Message::new(MessageId::Unchoke, vec![])),
        };
        action = peer.on_event(event);
    }
}

#[test]
fn single_piece_round_trip() {
    let data: Vec<u8> = (0..16384).map(|i| (i % 2) as u8).collect();
    let torrent = torrent(16384, &[&data]);
    let mut peers = vec![session(&torrent, vec![0x80])];
    let mut download = Download::new(&torrent, &peers).unwrap();
    assert_eq!(download.get_active_peer_count(), 1);
    assert_eq!(download.progress(), (0, 1));
    assert_eq!(download.downloaded(), &vec![0u8; 16384][..]);

    let mut worker = Worker::new(0);
    let piece = download.next_piece_for(&mut worker).unwrap();
    assert_eq!(piece.index(), 0);
    assert_eq!(piece.length(), 16384);
    let bytes = fetch(&mut peers[0], &piece, &data);
    assert!(download.piece_manager().verify_piece(0, &bytes));

    let report = download.piece_result(&mut worker, piece.index(), Ok(bytes));
    match &report {
        TaskMessage::PieceCompleted { piece } => {
            assert_eq!(piece.index(), 0);
            assert_eq!(piece.data(), &data[..]);
            assert_eq!(piece.hash(), calculate_piece_hash(&data));
        }
        other => panic!("unexpected report {:?}", other),
    }
    assert!(download.handle_result(report));
    assert_eq!(download.progress(), (1, 1));
    assert!(download.piece_manager().is_complete());
    assert!(download.next_piece_for(&mut worker).is_none());
    assert!(worker.is_finished());
    assert_eq!(download.finish().unwrap(), data);
}

#[test]
fn no_sessions_no_download() {
    let torrent = torrent(4, &[b"abcd"]);
    let peers: Vec<Peer> = Vec::new();
    assert_eq!(
        Download::new(&torrent, &peers).err(),
        Some(BitTorrentError::Peer(PeerFailure::NoPeers))
    );
}

#[test]
fn manifest_with_empty_pieces_is_refused() {
    let info = Info {
        name: String::from("resource"),
        piece_length: 0,
        pieces: PieceHashes(vec![[0; 20]]),
        files: FileMode::SingleFile { length: 10 },
    };
    let torrent = Torrent::new(String::from("http://tracker.example/announce"), info, b"de");
    let peers = vec![session(&torrent, vec![0x80])];
    assert_eq!(
        Download::new(&torrent, &peers).err(),
        Some(BitTorrentError::InvalidData)
    );
}

#[test]
fn sessions_are_registered_with_their_bitfields() {
    let torrent = torrent(4, &[b"abcd", b"efgh", b"ij"]);
    let peers = vec![
        session(&torrent, vec![0b1100_0000]),
        session(&torrent, vec![]),
        session(&torrent, vec![0b0011_1111]),
    ];
    let download = Download::new(&torrent, &peers).unwrap();
    let registry = download.piece_manager();
    assert_eq!(registry.num_pieces(), 3);
    assert_eq!(registry.get_piece(2).unwrap().length(), 2);
    assert!(registry.has_piece(0, 0) && registry.has_piece(0, 1) && !registry.has_piece(0, 2));
    assert!(!registry.has_piece(1, 0) && !registry.has_piece(1, 1) && !registry.has_piece(1, 2));
    assert!(!registry.has_piece(2, 0) && !registry.has_piece(2, 1) && registry.has_piece(2, 2));
    assert!(!registry.has_piece(2, 3));
    assert!(!registry.has_piece(3, 0));
    assert_eq!(download.downloaded(), &[0u8; 10][..]);
    assert!(download.failed_pieces().is_empty());
}

#[test]
fn verification_failure_blacklists_the_piece() {
    let torrent = torrent(4, &[b"abcd", b"efgh"]);
    let peers = vec![
        session(&torrent, vec![0b1100_0000]),
        session(&torrent, vec![0b1000_0000]),
    ];
    let mut download = Download::new(&torrent, &peers).unwrap();
    let mut a = Worker::new(0);
    let mut b = Worker::new(1);

    // Piece 1 is rarer, so worker A starts there; make it fail on piece 0
    // after that.
    let first = download.next_piece_for(&mut a).unwrap();
    assert_eq!(first.index(), 1);
    let report = download.piece_result(&mut a, 1, Ok(b"efgh".to_vec()));
    assert!(!download.handle_result(report));
    let second = download.next_piece_for(&mut a).unwrap();
    assert_eq!(second.index(), 0);
    let report = download.piece_result(&mut a, 0, Ok(b"zzzz".to_vec()));
    match &report {
        TaskMessage::PieceFailed { index, error } => {
            assert_eq!(*index, 0);
            assert_eq!(*error, BitTorrentError::Piece(PieceFailure::VerificationFailed));
        }
        other => panic!("unexpected report {:?}", other),
    }
    assert!(!download.handle_result(report));
    assert_eq!(a.blacklist(), &vec![0]);
    assert_eq!(download.failed_pieces(), &vec![0]);
    assert_eq!(download.downloaded(), b"\0\0\0\0efgh");
    // Worker A has nothing left that it may try.
    assert!(download.next_piece_for(&mut a).is_none());
    assert!(a.is_finished());
    assert!(!download.piece_manager().has_piece(0, 0));

    // Peer B delivers piece 0.
    let piece = download.next_piece_for(&mut b).unwrap();
    assert_eq!(piece.index(), 0);
    let report = download.piece_result(&mut b, 0, Ok(b"abcd".to_vec()));
    assert!(download.handle_result(report));
    assert_eq!(download.progress(), (2, 2));
    assert_eq!(download.finish().unwrap(), b"abcdefgh".to_vec());
}

#[test]
fn wrong_length_does_not_verify() {
    let torrent = torrent(4, &[b"abcd"]);
    let peers = vec![session(&torrent, vec![0x80])];
    let download = Download::new(&torrent, &peers).unwrap();
    let mut worker = Worker::new(0);
    let report = download.piece_result(&mut worker, 0, Ok(b"abc".to_vec()));
    assert!(matches!(report, TaskMessage::PieceFailed { index: 0, .. }));
    let report = download.piece_result(&mut worker, 5, Ok(b"abcd".to_vec()));
    assert!(matches!(report, TaskMessage::PieceFailed { index: 5, .. }));
    assert_eq!(worker.blacklist(), &vec![0, 5]);
}

#[test]
fn duplicate_completion_is_not_written_again() {
    let torrent = torrent(4, &[b"abcd", b"efgh"]);
    let peers = vec![
        session(&torrent, vec![0b1100_0000]),
        session(&torrent, vec![0b1100_0000]),
    ];
    let mut download = Download::new(&torrent, &peers).unwrap();
    let mut a = Worker::new(0);
    let mut b = Worker::new(1);
    let first = download.piece_result(&mut a, 0, Ok(b"abcd".to_vec()));
    let second = download.piece_result(&mut b, 0, Ok(b"abcd".to_vec()));
    assert!(!download.handle_result(first));
    assert_eq!(download.progress(), (1, 2));
    assert!(!download.handle_result(second));
    assert_eq!(download.progress(), (1, 2));
    assert_eq!(download.downloaded(), b"abcd\0\0\0\0");
    assert!(download.failed_pieces().is_empty());
    assert_eq!(download.finish().err(), Some(BitTorrentError::Download));
}

#[test]
fn choke_surfaces_as_piece_failed() {
    let torrent = torrent(4, &[b"abcd", b"efgh"]);
    let peers = vec![session(&torrent, vec![0b1100_0000])];
    let mut download = Download::new(&torrent, &peers).unwrap();
    let mut worker = Worker::new(0);
    let piece = download.next_piece_for(&mut worker).unwrap();
    let report = download.piece_result(
        &mut worker,
        piece.index(),
        Err(BitTorrentError::Peer(PeerFailure::ChokedDuringTransfer)),
    );
    match &report {
        TaskMessage::PieceFailed { index, error } => {
            assert_eq!(*index, 0);
            assert_eq!(*error, BitTorrentError::Peer(PeerFailure::ChokedDuringTransfer));
        }
        other => panic!("unexpected report {:?}", other),
    }
    download.handle_result(report);
    assert_eq!(worker.blacklist(), &vec![0]);
    assert!(!worker.is_finished());
    assert_eq!(download.next_piece_for(&mut worker).unwrap().index(), 1);
}

#[test]
fn three_failures_in_a_row_end_the_worker() {
    let torrent = torrent(1, &[b"a", b"b", b"c", b"d", b"e"]);
    let peers = vec![session(&torrent, vec![0b1111_1000])];
    let mut download = Download::new(&torrent, &peers).unwrap();
    let mut worker = Worker::new(0);
    for expected in 0..3usize {
        let piece = download.next_piece_for(&mut worker).unwrap();
        assert_eq!(piece.index(), expected);
        let report = download.piece_result(
            &mut worker,
            piece.index(),
            Err(BitTorrentError::Protocol(ProtocolViolation::BlockSizeMismatch)),
        );
        download.handle_result(report);
    }
    assert!(download.next_piece_for(&mut worker).is_none());
    assert!(worker.is_finished());
    assert!(!download.piece_manager().has_piece(0, 3));
    assert_eq!(download.failed_pieces(), &vec![0, 1, 2]);
}

#[test]
fn success_clears_the_failure_count() {
    let torrent = torrent(1, &[b"a", b"b", b"c", b"d", b"e"]);
    let peers = vec![session(&torrent, vec![0b1111_1000])];
    let mut download = Download::new(&torrent, &peers).unwrap();
    let mut worker = Worker::new(0);
    for index in 0..2usize {
        let report = download.piece_result(&mut worker, index, Err(BitTorrentError::Timeout));
        download.handle_result(report);
    }
    let report = download.piece_result(&mut worker, 2, Ok(b"c".to_vec()));
    download.handle_result(report);
    for index in 3..5usize {
        let report = download.piece_result(&mut worker, index, Err(BitTorrentError::Timeout));
        download.handle_result(report);
    }
    // Two failures, a success, two failures: the worker goes on, but has
    // nothing left that is not on its blacklist.
    assert!(!worker.is_finished());
    assert_eq!(worker.blacklist(), &vec![0, 1, 3, 4]);
    assert!(download.next_piece_for(&mut worker).is_none());
}

#[test]
fn all_peers_drop_before_completion() {
    let torrent = torrent(4, &[b"abcd", b"efgh"]);
    let peers = vec![
        session(&torrent, vec![0b1100_0000]),
        session(&torrent, vec![0b1100_0000]),
    ];
    let mut download = Download::new(&torrent, &peers).unwrap();
    for slot in 0..2usize {
        let mut worker = Worker::new(slot);
        assert_eq!(worker.slot(), slot);
        let piece = download.next_piece_for(&mut worker).unwrap();
        let report = download.piece_result(
            &mut worker,
            piece.index(),
            Err(BitTorrentError::Peer(PeerFailure::Disconnected)),
        );
        assert!(matches!(report, TaskMessage::PeerDisconnected { peer_id } if peer_id == slot));
        assert!(!download.handle_result(report));
        assert!(worker.is_finished());
        assert!(download.next_piece_for(&mut worker).is_none());
    }
    assert_eq!(download.progress(), (0, 2));
    // No session is left for the endgame.
    let remaining: Vec<Peer> = Vec::new();
    let mut sweep = download.endgame();
    assert_eq!(sweep.missing(), &vec![0, 1]);
    match download.endgame_next(&mut sweep, &remaining) {
        EndgameStep::Failed(e) => assert_eq!(e, BitTorrentError::Download),
        other => panic!("unexpected step {:?}", other),
    }
    assert_eq!(download.finish().err(), Some(BitTorrentError::Download));
}

#[test]
fn endgame_fetches_what_is_missing() {
    let torrent = torrent(4, &[b"abcd", b"efgh", b"ij"]);
    let mut peers = vec![
        session(&torrent, vec![0b1000_0000]),
        session(&torrent, vec![0b0110_0000]),
        session(&torrent, vec![0b0010_0000]),
    ];
    let mut download = Download::new(&torrent, &peers).unwrap();
    let mut worker = Worker::new(0);
    let report = download.piece_result(&mut worker, 0, Ok(b"abcd".to_vec()));
    download.handle_result(report);

    let mut sweep = download.endgame();
    assert_eq!(sweep.missing(), &vec![1, 2]);
    // Piece 1: only session 1 advertises it.
    match download.endgame_next(&mut sweep, &peers) {
        EndgameStep::Request { session, piece } => {
            assert_eq!((session, piece.index()), (1, 1));
            let bytes = fetch(&mut peers[session], &piece, b"efgh");
            download.endgame_result(&mut sweep, Ok(bytes));
        }
        other => panic!("unexpected step {:?}", other),
    }
    // Piece 2: session 1 fails, session 2 delivers.
    match download.endgame_next(&mut sweep, &peers) {
        EndgameStep::Request { session, piece } => {
            assert_eq!((session, piece.index()), (1, 2));
            download.endgame_result(&mut sweep, Err(BitTorrentError::Timeout));
        }
        other => panic!("unexpected step {:?}", other),
    }
    match download.endgame_next(&mut sweep, &peers) {
        EndgameStep::Request { session, piece } => {
            assert_eq!((session, piece.index()), (2, 2));
            download.endgame_result(&mut sweep, Ok(b"zz".to_vec()));
        }
        other => panic!("unexpected step {:?}", other),
    }
    // Nobody else has piece 2.
    assert!(matches!(
        download.endgame_next(&mut sweep, &peers),
        EndgameStep::Failed(BitTorrentError::Download)
    ));
    assert_eq!(download.progress(), (2, 3));
    assert_eq!(download.downloaded(), b"abcdefgh\0\0");
}

#[test]
fn endgame_finishes_when_everything_arrived() {
    let torrent = torrent(4, &[b"abcd", b"ef"]);
    let peers = vec![session(&torrent, vec![0b1100_0000])];
    let mut download = Download::new(&torrent, &peers).unwrap();
    let mut sweep = download.endgame();
    for data in [&b"abcd"[..], &b"ef"[..]] {
        assert!(matches!(
            download.endgame_next(&mut sweep, &peers),
            EndgameStep::Request { session: 0, .. }
        ));
        download.endgame_result(&mut sweep, Ok(data.to_vec()));
    }
    assert!(matches!(download.endgame_next(&mut sweep, &peers), EndgameStep::Finished));
    // A result with nothing asked for changes nothing.
    download.endgame_result(&mut sweep, Ok(b"zz".to_vec()));
    assert_eq!(download.finish().unwrap(), b"abcdef".to_vec());
}

#[test]
fn connection_plan_dials_in_batches() {
    let (mut plan, batch) = ConnectPlan::new(120);
    assert_eq!(batch, CONCURRENT_CONNECTS);
    assert!(!plan.is_done());
    // Each outcome frees a place for the next candidate.
    assert_eq!(plan.attempt_finished(true), Some(50));
    assert_eq!(plan.attempt_finished(false), Some(51));
    for next in 52..120 {
        assert_eq!(plan.attempt_finished(true), Some(next));
    }
    // The candidates are used up: the open attempts run out.
    for _ in 0..29 {
        assert_eq!(plan.attempt_finished(true), None);
    }
    // The hundredth session ends the dialling with attempts still open.
    assert_eq!(plan.connected(), 98);
    assert_eq!(plan.attempt_finished(true), None);
    assert!(!plan.is_done());
    assert_eq!(plan.attempt_finished(true), None);
    assert_eq!(plan.connected(), MAX_PEERS);
    assert!(plan.is_done());
    // Later outcomes are not counted.
    assert_eq!(plan.attempt_finished(true), None);
    assert_eq!(plan.connected(), MAX_PEERS);
    assert_eq!(plan.failed(), 1);
}

#[test]
fn connection_plan_stops_after_too_many_failures() {
    let (mut plan, batch) = ConnectPlan::new(1000);
    assert_eq!(batch, 50);
    for n in 0..(MAX_FAILED_ATTEMPTS - 1) {
        assert_eq!(plan.attempt_finished(false), Some(50 + n));
    }
    assert!(!plan.is_done());
    assert_eq!(plan.attempt_finished(false), None);
    assert!(plan.is_done());
    assert_eq!(plan.failed(), MAX_FAILED_ATTEMPTS);
    assert_eq!(plan.connected(), 0);
}

#[test]
fn connection_plan_with_few_candidates() {
    let (plan, batch) = ConnectPlan::new(0);
    assert_eq!(batch, 0);
    assert!(plan.is_done());
    let (mut plan, batch) = ConnectPlan::new(2);
    assert_eq!(batch, 2);
    assert_eq!(plan.attempt_finished(false), None);
    assert!(!plan.is_done());
    assert_eq!(plan.attempt_finished(true), None);
    assert!(plan.is_done());
    assert_eq!((plan.connected(), plan.failed()), (1, 1));
}

#[test]
fn sweep_of_another_download_finds_no_descriptor() {
    let large = torrent(4, &[b"abcd", b"efgh", b"ij"]);
    let small = torrent(4, &[b"abcd"]);
    let large_peers = vec![session(&large, vec![0b1110_0000])];
    let peers = vec![session(&small, vec![0b1000_0000])];
    let large = Download::new(&large, &large_peers).unwrap();
    let mut small = Download::new(&small, &peers).unwrap();
    let mut worker = Worker::new(0);
    let report = small.piece_result(&mut worker, 0, Ok(b"abcd".to_vec()));
    assert!(small.handle_result(report));
    let mut sweep = large.endgame();
    assert_eq!(sweep.missing(), &vec![0, 1, 2]);
    // Piece 0 is complete in the small download: a verified answer is
    // taken for what it is and changes nothing.
    small.endgame_result(&mut sweep, Ok(b"abcd".to_vec()));
    assert_eq!(small.downloaded(), b"abcd");
    match small.endgame_next(&mut sweep, &peers) {
        EndgameStep::Failed(e) => assert_eq!(e, BitTorrentError::Piece(PieceFailure::NotFound)),
        other => panic!("unexpected step {:?}", other),
    }
}

#[test]
fn completed_pieces_hash_to_their_digests() {
    let pieces: [&[u8]; 3] = [b"abcd", b"efgh", b"ij"];
    let torrent = torrent(4, &pieces);
    let peers = vec![session(&torrent, vec![0b1110_0000])];
    let mut download = Download::new(&torrent, &peers).unwrap();
    let mut worker = Worker::new(0);
    let mut last = (0, 3);
    for index in [2usize, 0, 1] {
        let report = download.piece_result(&mut worker, index, Ok(pieces[index].to_vec()));
        download.handle_result(report);
        // The progress never falls.
        let now = download.progress();
        assert!(now.0 >= last.0 && now.1 == last.1);
        last = now;
        let buffer = download.downloaded();
        assert_eq!(buffer.len(), 10);
        let registry = download.piece_manager();
        for i in 0..3usize {
            if registry.is_completed(i) {
                let piece = registry.get_piece(i).unwrap();
                let at = i * registry.piece_length();
                assert_eq!(
                    calculate_piece_hash(&buffer[at..at + piece.length()]),
                    piece.hash()
                );
            }
        }
    }
    assert_eq!(last, (3, 3));
    assert_eq!(download.finish().unwrap(), b"abcdefghij".to_vec());
}

fn other_torrent() -> Torrent {
    let info = Info {
        name: String::from("other"),
        piece_length: 4,
        pieces: PieceHashes(vec![calculate_piece_hash(b"abcd")]),
        files: FileMode::SingleFile { length: 4 },
    };
    Torrent::new(String::from("http://tracker.example/announce"), info, b"d4:name5:othere")
}

#[test]
fn session_of_another_torrent_is_refused() {
    let torrent = torrent(4, &[b"abcd"]);
    let other = other_torrent();
    assert_ne!(torrent.info_hash(), other.info_hash());
    let peers = vec![
        session(&torrent, vec![0x80]),
        session(&other, vec![0x80]),
    ];
    assert_eq!(
        Download::new(&torrent, &peers).err(),
        Some(BitTorrentError::Protocol(ProtocolViolation::InfoHashMismatch))
    );
    let own = vec![session(&torrent, vec![0x80])];
    assert!(Download::new(&torrent, &own).is_ok());
}

#[test]
fn session_with_another_piece_count_is_refused() {
    let one = torrent(4, &[b"abcd"]);
    // The same info dictionary bytes, so the same info-hash, but two pieces.
    let two = torrent(4, &[b"abcd", b"efgh"]);
    assert_eq!(one.info_hash(), two.info_hash());
    let peers = vec![session(&two, vec![0xc0])];
    assert_eq!(Download::new(&one, &peers).err(), Some(BitTorrentError::Client));
}

#[test]
fn a_download_has_at_most_a_hundred_sessions() {
    let torrent = torrent(4, &[b"abcd"]);
    let mut peers: Vec<Peer> = (0..MAX_PEERS).map(|_| session(&torrent, vec![0x80])).collect();
    let download = Download::new(&torrent, &peers).unwrap();
    assert_eq!(download.get_active_peer_count(), 100);
    assert_eq!(download.piece_manager().availability(0), 100);
    peers.push(session(&torrent, vec![0x80]));
    assert_eq!(Download::new(&torrent, &peers).err(), Some(BitTorrentError::Client));
}

#[test]
fn sessions_and_registry_agree_on_what_is_advertised() {
    let torrent = torrent(4, &[b"abcd", b"efgh", b"ij"]);
    // All bits set, the padding bits too.
    let peers = vec![session(&torrent, vec![0xff]), session(&torrent, vec![0x5f])];
    let download = Download::new(&torrent, &peers).unwrap();
    for (slot, peer) in peers.iter().enumerate() {
        for index in 0..16 {
            assert_eq!(
                peer.has_piece(index),
                download.piece_manager().has_piece(slot, index),
                "slot {} index {}",
                slot,
                index
            );
        }
        assert!(!peer.has_piece(3));
    }
}

#[test]
fn connection_plan_takes_outcomes() {
    let torrent = torrent(4, &[b"abcd"]);
    let other = other_torrent();
    let (mut plan, batch) = ConnectPlan::new(3);
    assert_eq!(batch, 3);
    let mut sessions: Vec<Peer> = Vec::new();

    // A reply that greets for another torrent opens no session and counts
    // as a failed attempt.
    let mut reply = Vec::new();
    Handshake::new(other.info_hash(), [9; 20]).write_to(&mut reply);
    let outcome = Peer::connect(
        PeerAddr { ip: [127, 0, 0, 1], port: 7000 },
        torrent.info_hash(),
        torrent.piece_count(),
        &reply,
        Some(Message::new(MessageId::Bitfield, vec![0x80])),
    );
    assert_eq!(
        outcome.as_ref().err(),
        Some(&BitTorrentError::Protocol(ProtocolViolation::InfoHashMismatch))
    );
    assert_eq!(plan.take_outcome(outcome, &mut sessions), (false, None));
    assert_eq!((plan.connected(), plan.failed(), sessions.len()), (0, 1, 0));

    assert_eq!(
        plan.take_outcome(Ok(session(&torrent, vec![0x80])), &mut sessions),
        (true, None)
    );
    assert_eq!(
        plan.take_outcome(Err(BitTorrentError::Timeout), &mut sessions),
        (false, None)
    );
    assert!(plan.is_done());
    assert_eq!((plan.connected(), plan.failed(), sessions.len()), (1, 2, 1));
    // Once the dialling has ended a session is not kept.
    assert_eq!(
        plan.take_outcome(Ok(session(&torrent, vec![0x80])), &mut sessions),
        (false, None)
    );
    assert_eq!(sessions.len(), 1);
    let download = Download::new(&torrent, &sessions).unwrap();
    assert_eq!(download.get_active_peer_count(), 1);
}
