use torrent::announce::{AnnounceAction, AnnounceAnswer, AnnounceRound, LISTEN_PORT};
use torrent::ids::InfoHash;
use torrent::meta::{FileMode, InfoDict, TorrentMeta};

fn strings(list: &[&str]) -> Vec<String> {
    list.iter().map(|s| s.to_string()).collect()
}

#[test]
fn every_tracker_is_listed_once() {
    let meta = TorrentMeta {
        announce: "udp://a".to_string(),
        announce_list: Some(vec![
            strings(&["udp://b", "udp://a"]),
            strings(&["udp://b", "http://c"]),
        ]),
        info: InfoDict {
            name: String::new(),
            piece_length: 1,
            pieces: vec![],
            mode: FileMode::Single { length: 0 },
        },
        info_hash: InfoHash([0; 20]),
    };
    assert_eq!(meta.trackers(), strings(&["udp://a", "udp://b", "http://c"]));
    let alone = TorrentMeta { announce_list: None, ..meta };
    assert_eq!(alone.trackers(), strings(&["udp://a"]));
    assert_eq!(LISTEN_PORT, 6881);
}

#[test]
fn a_udp_tracker_that_fails_is_asked_over_http() {
    let mut round = AnnounceRound::new(strings(&["udp://h:1/a", "http://i"]));
    assert_eq!(
        round.action(),
        AnnounceAction::Udp { host_port: "h:1/a".to_string() }
    );
    round.answered(AnnounceAnswer::Failed);
    assert_eq!(
        round.action(),
        AnnounceAction::Http { url: "http://h:1/a".to_string() }
    );
    round.answered(AnnounceAnswer::Failed);
    assert_eq!(
        round.action(),
        AnnounceAction::Http { url: "http://i".to_string() }
    );
    round.answered(AnnounceAnswer::Failed);
    assert_eq!(round.action(), AnnounceAction::Finished);
}

#[test]
fn the_first_tracker_with_peers_ends_the_round() {
    let mut round = AnnounceRound::new(strings(&["udp://h", "udp://i", "udp://j"]));
    round.answered(AnnounceAnswer::NoPeers);
    assert_eq!(
        round.action(),
        AnnounceAction::Udp { host_port: "i".to_string() }
    );
    round.answered(AnnounceAnswer::Peers);
    assert_eq!(round.action(), AnnounceAction::Finished);
}

#[test]
fn trackers_of_other_kinds_are_passed_over() {
    let mut round = AnnounceRound::new(strings(&["https://x", "wss://y", "http://z", "ftp://w"]));
    assert_eq!(
        round.action(),
        AnnounceAction::Http { url: "http://z".to_string() }
    );
    round.answered(AnnounceAnswer::NoPeers);
    assert_eq!(round.action(), AnnounceAction::Finished);
}
