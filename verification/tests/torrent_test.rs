use bittorrent::error::BitTorrentError;
use bittorrent::torrent::{FileInfo, FileMode, Info, PieceHashes, Torrent};
use bittorrent::utils::calculate_piece_hash;

fn manifest(piece_length: usize, pieces: usize, files: FileMode) -> Torrent {
    let info = Info {
        name: String::from("debian-12.1.0-amd64-netinst.iso"),
        piece_length,
        pieces: PieceHashes(vec![[0; 20]; pieces]),
        files,
    };
    Torrent::new(
        String::from("http://bttracker.debian.org:6969/announce"),
        info,
        b"d6:lengthi1e4:name1:ae",
    )
}

#[test]
fn test_piece_hashes_serde() {
    // Create sample piece hashes
    let hashes = vec![[1u8; 20], [2u8; 20]];
    let piece_hashes = PieceHashes(hashes.clone());

    // Serialize
    let encoded = piece_hashes.to_bytes();
    assert_eq!(encoded.len(), 40);
    assert_eq!(&encoded[..20], &[1u8; 20]);
    assert_eq!(&encoded[20..], &[2u8; 20]);

    // Deserialize
    let decoded: PieceHashes = PieceHashes::from_bytes(&encoded).unwrap();

    // Verify
    assert_eq!(decoded.0, hashes);
}

#[test]
fn test_invalid_piece_hashes() {
    // Create invalid data (not multiple of 20 bytes)
    let invalid_data = vec![1u8; 30];
    let result: Result<PieceHashes, _> = PieceHashes::from_bytes(&invalid_data);
    assert!(result.is_err());
    assert_eq!(result.err(), Some(BitTorrentError::InvalidData));
}

#[test]
fn test_piece_length_calculation() {
    let torrent = manifest(262144, 2568, FileMode::SingleFile { length: 673_185_792 });

    // Test normal piece length
    assert_eq!(torrent.piece_length(0), 262144);

    // Test last piece length: the resource ends on a piece boundary, so the
    // last piece is a full piece.
    let last_piece = torrent.piece_count() - 1;
    assert_eq!(673_185_792 % 262144, 0);
    assert_eq!(torrent.piece_length(last_piece), 262144);
    assert_eq!(torrent.piece_length(last_piece + 1), 0);
}

#[test]
fn last_piece_holds_the_remainder() {
    let torrent = manifest(1024, 3, FileMode::SingleFile { length: 2500 });
    assert_eq!(torrent.piece_count(), 3);
    assert_eq!(torrent.piece_length(0), 1024);
    assert_eq!(torrent.piece_length(1), 1024);
    assert_eq!(torrent.piece_length(2), 452);
}

#[test]
fn info_hash_is_the_digest_of_the_encoded_info() {
    let torrent = manifest(4, 1, FileMode::SingleFile { length: 4 });
    assert_eq!(torrent.info_hash(), calculate_piece_hash(b"d6:lengthi1e4:name1:ae"));
    assert_eq!(torrent.announce(), "http://bttracker.debian.org:6969/announce");
    assert_eq!(torrent.info().name, "debian-12.1.0-amd64-netinst.iso");
    assert_eq!(torrent.info().piece_length, 4);
}

#[test]
fn total_length_of_one_file_and_of_many() {
    let single = manifest(4, 1, FileMode::SingleFile { length: 673_185_792 });
    assert_eq!(single.total_length(), 673_185_792);
    assert_eq!(single.checked_total_length(), Some(673_185_792));
    let files = vec![
        FileInfo { length: 10, path: vec![String::from("a")] },
        FileInfo { length: 0, path: vec![String::from("b")] },
        FileInfo { length: 32, path: vec![String::from("dir"), String::from("c")] },
    ];
    let multi = manifest(4, 1, FileMode::MultiFile { files });
    assert_eq!(multi.total_length(), 42);
    let empty = manifest(4, 1, FileMode::MultiFile { files: Vec::new() });
    assert_eq!(empty.total_length(), 0);
    let huge = manifest(
        4,
        1,
        FileMode::MultiFile {
            files: vec![
                FileInfo { length: usize::MAX, path: Vec::new() },
                FileInfo { length: 1, path: Vec::new() },
            ],
        },
    );
    assert_eq!(huge.checked_total_length(), None);
}

#[test]
fn piece_hashes_of_nothing() {
    let decoded = PieceHashes::from_bytes(&[]).unwrap();
    assert!(decoded.0.is_empty());
    assert!(PieceHashes(Vec::new()).to_bytes().is_empty());
    assert!(PieceHashes::from_bytes(&[0u8; 19]).is_err());
    let bytes: Vec<u8> = (0..60).collect();
    let decoded = PieceHashes::from_bytes(&bytes).unwrap();
    assert_eq!(decoded.0.len(), 3);
    assert_eq!(decoded.0[1][0], 20);
    assert_eq!(decoded.to_bytes(), bytes);
}
