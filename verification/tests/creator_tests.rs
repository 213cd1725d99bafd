use torrent::creator::{create_torrent, PieceHasher, DEFAULT_PIECE_LENGTH};
use torrent::meta::{FileMode, TorrentFile, TorrentMeta};
use torrent::piece::verify_piece;

#[test]
fn a_small_file_makes_one_piece() {
    let mut hasher = PieceHasher::new();
    hasher.update(b"a");
    hasher.update(b"");
    hasher.update(b"bc");
    let bytes = create_torrent(
        "f".to_string(),
        FileMode::Single { length: 3 },
        hasher,
        &vec![],
    );
    let mut expected = b"d8:announce42:udp://tracker.opentrackr.org:1337/announce4:infod6:lengthi3e4:name1:f12:piece lengthi524288e6:pieces20:".to_vec();
    expected.extend_from_slice(&[
        0xa9, 0x99, 0x3e, 0x36, 0x47, 0x06, 0x81, 0x6a, 0xba, 0x3e, 0x25, 0x71, 0x78, 0x50, 0xc2,
        0x6c, 0x9c, 0xd0, 0xd8, 0x9d,
    ]);
    expected.extend_from_slice(b"ee");
    assert_eq!(bytes, expected);
}

#[test]
fn data_is_divided_into_pieces() {
    let size = DEFAULT_PIECE_LENGTH as usize;
    let data: Vec<u8> = (0..2 * size + 10).map(|i| (i % 251) as u8).collect();
    let mut hasher = PieceHasher::new();
    hasher.update(&data[..100]);
    hasher.update(&data[100..size + 7]);
    hasher.update(&data[size + 7..]);
    let pieces = hasher.finish();
    assert_eq!(pieces.len(), 3);
    assert!(verify_piece(&data[..size], &pieces[0]));
    assert!(verify_piece(&data[size..2 * size], &pieces[1]));
    assert!(verify_piece(&data[2 * size..], &pieces[2]));
}

#[test]
fn no_data_makes_no_piece() {
    assert!(PieceHasher::new().finish().is_empty());
    let mut full = PieceHasher::new();
    full.update(&vec![0u8; DEFAULT_PIECE_LENGTH as usize]);
    assert_eq!(full.finish().len(), 1);
}

#[test]
fn a_created_torrent_reads_back() {
    let mut hasher = PieceHasher::new();
    hasher.update(b"abcdef");
    let mode = FileMode::Multi {
        files: vec![
            TorrentFile { length: 3, path: vec!["a".to_string()] },
            TorrentFile { length: 3, path: vec!["b".to_string(), "c".to_string()] },
        ],
    };
    let trackers = vec!["udp://one".to_string(), "udp://two".to_string()];
    let bytes = create_torrent("dir".to_string(), mode.clone(), hasher, &trackers);
    let meta = TorrentMeta::from_bytes(&bytes).unwrap();
    assert_eq!(meta.announce, "udp://one");
    assert_eq!(
        meta.announce_list,
        Some(vec![vec!["udp://one".to_string()], vec!["udp://two".to_string()]])
    );
    assert_eq!(meta.info.name, "dir");
    assert_eq!(meta.info.mode, mode);
    assert!(verify_piece(b"abcdef", &meta.info.pieces[0]));
    assert!(verify_piece(&meta.info.to_bencode().encode(), &meta.info_hash.0));
}

#[test]
fn one_tracker_makes_no_tiers() {
    let bytes = create_torrent(
        "f".to_string(),
        FileMode::Single { length: 0 },
        PieceHasher::new(),
        &vec!["udp://one".to_string()],
    );
    let meta = TorrentMeta::from_bytes(&bytes).unwrap();
    assert_eq!(meta.announce, "udp://one");
    assert_eq!(meta.announce_list, None);
}

#[test]
fn created_pieces_divide_the_data() {
    let size = DEFAULT_PIECE_LENGTH as usize;
    let mut hasher = PieceHasher::new();
    hasher.update(&vec![7u8; 2 * size + 10]);
    let bytes = create_torrent(
        "f".to_string(),
        FileMode::Single { length: (2 * size + 10) as u64 },
        hasher,
        &vec![],
    );
    let layout = TorrentMeta::from_bytes(&bytes).unwrap().info.layout();
    assert_eq!(layout.total_pieces, 3);
    assert_eq!(layout.piece_length, DEFAULT_PIECE_LENGTH);
    assert_eq!(layout.total_size, (2 * size + 10) as u64);
}
