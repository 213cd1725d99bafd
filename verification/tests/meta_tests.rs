use torrent::bencode::BencodeError;
use torrent::ids::InfoHash;
use torrent::meta::{FileMode, InfoDict, MetaError, TorrentFile, TorrentMeta};

#[test]
fn test_parse_single_file_torrent() {
    // d
    //   8:announce 39:http://torrent.ubuntu.com:6969/announce
    //   4:info d
    //     6:length i42e
    //     4:name 10:ubuntu.iso
    //     12:piece length i16384e
    //     6:pieces 20:abcdefghijklmnopqrst
    //   e
    // e
    let data = b"d8:announce39:http://torrent.ubuntu.com:6969/announce4:infod6:lengthi42e4:name10:ubuntu.iso12:piece lengthi16384e6:pieces20:abcdefghijklmnopqrstee";

    let meta = TorrentMeta::from_bytes(data).unwrap();
    assert_eq!(meta.announce, "http://torrent.ubuntu.com:6969/announce");
    assert_eq!(meta.info.name, "ubuntu.iso");
    assert_eq!(meta.info.piece_length, 16384);
    assert_eq!(meta.info.pieces.len(), 1);
    assert_eq!(&meta.info.pieces[0], b"abcdefghijklmnopqrst");

    if let FileMode::Single { length } = meta.info.mode {
        assert_eq!(length, 42);
    } else {
        panic!("Expected single file mode");
    }

    // Infohash check
    assert_eq!(meta.info_hash.0.len(), 20);
}

#[test]
fn a_length_beyond_the_announce_url_is_an_error() {
    let data = b"d8:announce43:http://torrent.ubuntu.com:6969/announce4:infod6:lengthi42e4:name10:ubuntu.iso12:piece lengthi16384e6:pieces20:abcdefghijklmnopqrstee";
    assert_eq!(
        TorrentMeta::from_bytes(data).unwrap_err(),
        MetaError::BencodeError(BencodeError::InvalidChar('f'))
    );
}

#[test]
fn the_hash_is_that_of_the_info_dictionary() {
    let data = b"d8:announce1:u4:infod6:lengthi3e4:name1:f12:piece lengthi4e6:pieces0:ee";
    let meta = TorrentMeta::from_bytes(data).unwrap();
    assert!(torrent::piece::verify_piece(
        b"d6:lengthi3e4:name1:f12:piece lengthi4e6:pieces0:e",
        &meta.info_hash.0
    ));
}

#[test]
fn a_directory_has_files_and_tiers() {
    let data = b"d8:announce1:u13:announce-listll1:u1:vel1:weli1eee4:infod5:filesld6:lengthi3e4:pathl1:a1:beed6:lengthi4e4:pathl1:ceee4:name1:d12:piece lengthi4e6:pieces40:abcdefghijklmnopqrstabcdefghijklmnopqrsuee";
    let meta = TorrentMeta::from_bytes(data).unwrap();
    assert_eq!(
        meta.announce_list,
        Some(vec![
            vec!["u".to_string(), "v".to_string()],
            vec!["w".to_string()]
        ])
    );
    assert_eq!(
        meta.info.mode,
        FileMode::Multi {
            files: vec![
                TorrentFile { length: 3, path: vec!["a".to_string(), "b".to_string()] },
                TorrentFile { length: 4, path: vec!["c".to_string()] },
            ]
        }
    );
    assert_eq!(meta.info.pieces.len(), 2);
    assert_eq!(&meta.info.pieces[1], b"abcdefghijklmnopqrsu");
}

#[test]
fn names_that_are_not_utf8_are_shown_with_replacements() {
    let data = b"d8:announce1:u4:infod6:lengthi3e4:name2:a\xff12:piece lengthi4e6:pieces0:ee";
    let meta = TorrentMeta::from_bytes(data).unwrap();
    assert_eq!(meta.info.name, "a\u{fffd}");
}

#[test]
fn every_metainfo_error_occurs() {
    let err = |data: &[u8]| TorrentMeta::from_bytes(data).unwrap_err();
    assert_eq!(
        err(b"i"),
        MetaError::BencodeError(BencodeError::UnexpectedEOF)
    );
    assert_eq!(err(b"le"), MetaError::InvalidType("root".to_string()));
    assert_eq!(err(b"de"), MetaError::MissingField("announce".to_string()));
    assert_eq!(
        err(b"d8:announcei1ee"),
        MetaError::InvalidType("announce".to_string())
    );
    assert_eq!(
        err(b"d8:announce1:ue"),
        MetaError::MissingField("info".to_string())
    );
    assert_eq!(
        err(b"d8:announce1:u4:infod6:lengthi3e4:name1:f12:piece lengthi4e6:pieces3:abcee"),
        MetaError::InvalidPiecesLength(3)
    );
}

#[test]
fn metainfo_errors_in_words() {
    assert_eq!(
        MetaError::BencodeError(BencodeError::InvalidInteger).message(),
        "Bencode decoding error: Invalid integer format"
    );
    assert_eq!(
        MetaError::MissingField("name".to_string()).message(),
        "Missing dictionary field: 'name'"
    );
    assert_eq!(
        MetaError::InvalidType("info".to_string()).message(),
        "Invalid field type for 'info'"
    );
    assert_eq!(
        MetaError::MissingInfoSlice.message(),
        "Missing info dictionary slice in bencode"
    );
    assert_eq!(
        MetaError::InvalidPiecesLength(21).message(),
        "Invalid pieces field length: expected multiple of 20, got 21"
    );
}

#[test]
fn metainfo_is_read_back_from_its_file() {
    let info = InfoDict {
        name: "päck".to_string(),
        piece_length: 16384,
        pieces: vec![[7; 20], [9; 20]],
        mode: FileMode::Multi {
            files: vec![TorrentFile { length: 20000, path: vec!["x".to_string(), "y".to_string()] }],
        },
    };
    let bytes = info.to_bencode().encode();
    let hasher_input = bytes.clone();
    let meta = TorrentMeta {
        announce: "udp://t:1".to_string(),
        announce_list: Some(vec![vec!["udp://t:1".to_string()], vec!["http://u".to_string()]]),
        info,
        info_hash: InfoHash([0; 20]),
    };
    let read = TorrentMeta::from_bytes(&meta.clone().into_bytes()).unwrap();
    assert_eq!(read.announce, meta.announce);
    assert_eq!(read.announce_list, meta.announce_list);
    assert_eq!(read.info, meta.info);
    assert!(torrent::piece::verify_piece(&hasher_input, &read.info_hash.0));
}

#[test]
fn hashes_in_hexadecimal() {
    let mut hash = [0u8; 20];
    hash[0] = 0xa9;
    hash[19] = 0x1f;
    assert_eq!(
        InfoHash(hash).to_hex(),
        "a90000000000000000000000000000000000001f"
    );
}
