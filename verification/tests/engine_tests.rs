use torrent::engine::TorrentDownloader;
use torrent::ids::{InfoHash, TorrentId};
use torrent::meta::{FileMode, InfoDict, TorrentMeta};
use torrent::protocol::Handshake;
use torrent::state::TorrentState;

const ABC: [u8; 20] = [
    0xa9, 0x99, 0x3e, 0x36, 0x47, 0x06, 0x81, 0x6a, 0xba, 0x3e, 0x25, 0x71, 0x78, 0x50, 0xc2, 0x6c,
    0x9c, 0xd0, 0xd8, 0x9d,
];

fn meta(length: u64, pieces: usize) -> TorrentMeta {
    TorrentMeta {
        announce: "udp://t:1".to_string(),
        announce_list: None,
        info: InfoDict {
            name: "n".to_string(),
            piece_length: 3,
            pieces: vec![ABC; pieces],
            mode: FileMode::Single { length },
        },
        info_hash: InfoHash([5; 20]),
    }
}

fn state(size: u64) -> TorrentState {
    TorrentState {
        id: TorrentId(1),
        name: "n".to_string(),
        info_hash: "h".to_string(),
        size,
        downloaded: 0,
        uploaded: 0,
        status: "Checking".to_string(),
        peers_connected: 0,
    }
}

fn downloader(length: u64, pieces: usize) -> TorrentDownloader {
    TorrentDownloader::new(TorrentId(1), meta(length, pieces), "d".to_string(), [6; 20])
}

#[test]
fn a_new_downloader_has_nothing() {
    let d = downloader(7, 3);
    assert_eq!(d.have_pieces, vec![false; 3]);
    assert!(d.missing_pieces.is_empty());
    assert_eq!(d.download_dir, "d");
}

#[test]
fn a_check_marks_the_intact_pieces() {
    let mut d = downloader(7, 3);
    let mut check = d.verify_pieces();
    assert!(check.range_fits(&d.meta.info));
    assert_eq!(check.next_range(&d.meta.info), Some((0, 3)));
    check.record(&d.meta.info, Some(&b"abc".to_vec()));
    assert_eq!(check.next_range(&d.meta.info), Some((3, 3)));
    check.record(&d.meta.info, None);
    assert_eq!(check.next_range(&d.meta.info), Some((6, 1)));
    check.record(&d.meta.info, Some(&b"x".to_vec()));
    assert_eq!(check.next_range(&d.meta.info), None);
    let completed = check.finish();
    assert_eq!(completed, vec![true, false, false]);

    let mut s = state(7);
    assert_eq!(d.verify_and_resume(completed.clone(), &mut s), (1, 3));
    assert_eq!(d.missing_pieces, vec![1, 2]);
    assert_eq!(d.have_pieces, completed);
    assert_eq!(s.downloaded, 3);
    assert_eq!(s.status, "Downloading");
}

#[test]
fn pieces_behind_the_data_are_not_looked_at() {
    let d = downloader(3, 3);
    let mut check = d.verify_pieces();
    check.record(&d.meta.info, Some(&b"abc".to_vec()));
    assert_eq!(check.next_range(&d.meta.info), None);
}

#[test]
fn a_complete_torrent_counts_as_a_whole() {
    let mut d = downloader(7, 3);
    let mut s = state(7);
    assert_eq!(d.verify_and_resume(vec![true; 3], &mut s), (3, 3));
    assert_eq!(s.downloaded, 7);
    assert_eq!(s.status, "Completed");
    assert!(d.missing_pieces.is_empty());
}

#[test]
fn what_was_verified_is_at_most_the_size() {
    let mut d = downloader(7, 3);
    let mut s = state(4);
    d.verify_and_resume(vec![true, true, false], &mut s);
    assert_eq!(s.downloaded, 4);
    assert_eq!(s.status, "Downloading");
}

#[test]
fn ranges_that_leave_the_number_range_are_noticed() {
    let mut d = downloader(7, 3);
    d.meta.info.piece_length = u64::MAX;
    let mut check = d.verify_pieces();
    assert!(check.range_fits(&d.meta.info));
    assert_eq!(check.next_range(&d.meta.info), Some((0, 7)));
    check.record(&d.meta.info, None);
    assert!(!check.range_fits(&d.meta.info));
}

#[test]
fn a_peer_must_have_the_same_torrent() {
    let d = downloader(7, 3);
    assert!(d.accepts(&Handshake::new([5; 20], [0; 20])));
    assert!(!d.accepts(&Handshake::new([4; 20], [0; 20])));
    assert_eq!(d.handshake(), Handshake::new([5; 20], [6; 20]));
}

#[test]
fn blocks_count_up_to_the_size() {
    let mut s = state(10);
    s.block_received(4);
    assert_eq!((s.downloaded, s.status.as_str()), (4, "Downloading"));
    s.block_received(20);
    assert_eq!((s.downloaded, s.status.as_str()), (10, "Completed"));
    s.piece_given_up(3);
    assert_eq!((s.downloaded, s.status.as_str()), (7, "Downloading"));
    s.piece_given_up(30);
    assert_eq!(s.downloaded, 0);
}

#[test]
fn a_piece_that_is_given_up_is_taken_back() {
    let mut s = state(10);
    s.block_received(2);
    s.block_received(5);
    s.piece_given_up(5);
    assert_eq!(s.downloaded, 2);
}

#[test]
fn an_empty_torrent_keeps_its_status_when_a_piece_is_given_up() {
    let mut s = state(0);
    s.piece_given_up(3);
    assert_eq!(s.status, "Checking");
}

#[test]
fn peers_are_counted() {
    let mut s = state(1);
    s.peer_left();
    assert_eq!(s.peers_connected, 0);
    s.peer_joined();
    s.peer_joined();
    s.peer_left();
    assert_eq!(s.peers_connected, 1);
}

#[test]
fn what_is_left_is_a_signed_number() {
    let mut s = state(10);
    s.block_received(4);
    assert_eq!(s.left(), 6);
    assert_eq!(state(u64::MAX).left(), -1);
    s.block_served(7);
    assert_eq!(s.uploaded, 7);
    assert_eq!(s.clone(), s);
}
