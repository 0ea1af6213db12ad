use bittorrent::error::{BitTorrentError, TrackerFailure};
use bittorrent::peer::PeerAddr;
use bittorrent::torrent::{FileMode, Info, PieceHashes, Torrent};
use bittorrent::tracker::{check_response, parse_compact_peers, urlencode, Tracker};
use bittorrent::utils::calculate_piece_hash;

fn manifest(announce: &str, length: usize) -> Torrent {
    let info = Info {
        name: String::from("file"),
        piece_length: 4,
        pieces: PieceHashes(vec![[0; 20]]),
        files: FileMode::SingleFile { length },
    };
    Torrent::new(String::from(announce), info, b"de")
}

#[test]
fn urlencode_writes_every_byte_as_percent_and_two_digits() {
    assert_eq!(urlencode(&[]), "");
    assert_eq!(urlencode(&[0x00, 0x0f, 0xa5, 0xff, b'a']), "%00%0f%a5%ff%61");
}

#[test]
fn query_of_the_first_announce() {
    let tracker = Tracker::new(&manifest("http://tracker.example/announce", 673_185_792)).unwrap();
    let id = tracker.peer_id();
    assert_eq!(&id[..8], b"-RS0001-");
    let expected = format!(
        "?info_hash={}&peer_id={}&port=6881&uploaded=0&downloaded=0&left=673185792&compact=1&event=started",
        urlencode(&calculate_piece_hash(b"de")),
        urlencode(&id),
    );
    assert_eq!(tracker.query(), expected);
    assert!(expected.starts_with("?info_hash=%60%0c%cd%1b%71%56%92%32%d0%1d%11%0b%c6%3e%90%6b%ea%b0%4d%8c&peer_id=%2d%52%53%30%30%30%31%2d%"));
}

#[test]
fn tracker_url_is_the_announce_url_with_the_query() {
    let tracker = Tracker::new(&manifest("http://bttracker.debian.org:6969/announce", 10)).unwrap();
    let url = tracker.build_tracker_url().unwrap();
    assert_eq!(
        url,
        format!("http://bttracker.debian.org:6969/announce{}", tracker.query())
    );
    // The parser writes the announce URL in its own way first.
    let tracker = Tracker::new(&manifest("HTTP://Example.COM", 10)).unwrap();
    let url = tracker.build_tracker_url().unwrap();
    assert_eq!(url, format!("http://example.com/{}", tracker.query()));
}

#[test]
fn announce_url_that_does_not_parse() {
    let tracker = Tracker::new(&manifest("not a url", 10)).unwrap();
    assert_eq!(
        tracker.build_tracker_url().err(),
        Some(BitTorrentError::Tracker(TrackerFailure::InvalidUrl))
    );
}

#[test]
fn compact_peer_list() {
    let peers = parse_compact_peers(&[10, 0, 0, 1, 0x1a, 0xe1, 192, 168, 1, 20, 0, 80]).unwrap();
    assert_eq!(peers.len(), 2);
    assert_eq!((peers[0].ip, peers[0].port), ([10, 0, 0, 1], 6881));
    assert_eq!((peers[1].ip, peers[1].port), ([192, 168, 1, 20], 80));
    assert!(parse_compact_peers(&[]).unwrap().is_empty());
    assert_eq!(
        parse_compact_peers(&[1, 2, 3, 4, 5]).err(),
        Some(BitTorrentError::Tracker(TrackerFailure::MalformedResponse))
    );
}

#[test]
fn tracker_answers() {
    let peer = PeerAddr { ip: [1, 2, 3, 4], port: 5 };
    assert_eq!(check_response(false, vec![peer]).unwrap().len(), 1);
    assert_eq!(
        check_response(false, Vec::new()).err(),
        Some(BitTorrentError::Tracker(TrackerFailure::NoPeers))
    );
    assert_eq!(
        check_response(true, vec![peer]).err(),
        Some(BitTorrentError::Tracker(TrackerFailure::Rejected))
    );
}

#[test]
fn resource_too_long_to_count() {
    let info = Info {
        name: String::from("file"),
        piece_length: 4,
        pieces: PieceHashes(vec![[0; 20]]),
        files: FileMode::MultiFile {
            files: vec![
                bittorrent::torrent::FileInfo { length: usize::MAX, path: Vec::new() },
                bittorrent::torrent::FileInfo { length: 1, path: Vec::new() },
            ],
        },
    };
    let torrent = Torrent::new(String::from("http://tracker.example/"), info, b"de");
    assert_eq!(Tracker::new(&torrent).err(), Some(BitTorrentError::InvalidData));
}
