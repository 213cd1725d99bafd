use torrent::ids::TorrentId;
use torrent::meta::{FileMode, InfoDict};
use torrent::protocol::PeerMessage;
use torrent::session::{have_bytes, opening_messages, PeerSession, PieceLayout, Reaction};
use torrent::state::TorrentState;

fn layout() -> PieceLayout {
    PieceLayout { piece_length: 20000, total_pieces: 3, total_size: 45000 }
}

fn state() -> TorrentState {
    TorrentState {
        id: TorrentId(1),
        name: "n".to_string(),
        info_hash: "h".to_string(),
        size: 45000,
        downloaded: 0,
        uploaded: 0,
        status: "Downloading".to_string(),
        peers_connected: 1,
    }
}

#[test]
fn the_layout_of_a_torrent() {
    let info = InfoDict {
        name: "n".to_string(),
        piece_length: 0x1_0000_0005,
        pieces: vec![[0; 20]; 2],
        mode: FileMode::Single { length: 9 },
    };
    assert_eq!(
        info.layout(),
        PieceLayout { piece_length: 0x1_0000_0005, total_pieces: 2, total_size: 9 }
    );
}

#[test]
fn a_peer_is_told_what_is_here() {
    let have = vec![true, false, false, false, false, false, false, false, true];
    assert_eq!(have_bytes(&have), [0x80, 0x80]);
    assert_eq!(have_bytes(&vec![]), [0u8; 0]);
    assert_eq!(
        opening_messages(&have),
        vec![
            PeerMessage::Bitfield(vec![0x80, 0x80]),
            PeerMessage::Interested,
            PeerMessage::Unchoke,
        ]
    );
}

#[test]
fn the_first_missing_piece_is_taken_up() {
    let mut session = PeerSession::new();
    let mut missing = vec![2, 0];
    session.claim(&mut missing);
    assert_eq!(
        session,
        PeerSession { piece_index: 2, block_offset: 0, is_complete: false }
    );
    assert_eq!(missing, vec![0]);
    let mut none: Vec<u32> = vec![];
    let mut idle = PeerSession::new();
    idle.claim(&mut none);
    assert_eq!(idle, PeerSession::new());
    assert_eq!(idle.next_request(&layout()), None);
}

#[test]
fn a_piece_is_fetched_block_by_block() {
    let l = layout();
    let mut s = state();
    let mut have = vec![false; 3];
    let mut missing = vec![1, 2];
    let mut session = PeerSession::new();
    session.claim(&mut missing);
    let first = PeerMessage::Request { index: 1, begin: 0, length: 16384 };
    assert!(session.can_react(&l, &PeerMessage::Unchoke));
    assert_eq!(
        session.react(&l, &have, &PeerMessage::Unchoke),
        Reaction::Send(first)
    );

    assert!(session.can_store(&l, 16384, &s, &missing));
    let stored = session.block_stored(&l, 16384, &mut s, &mut have, &mut missing);
    assert_eq!(stored.finished, None);
    assert_eq!(
        stored.request,
        Some(PeerMessage::Request { index: 1, begin: 16384, length: 3616 })
    );
    assert_eq!(s.downloaded, 16384);

    let stored = session.block_stored(&l, 3616, &mut s, &mut have, &mut missing);
    assert_eq!(stored.finished, Some(1));
    assert_eq!(have, vec![false, true, false]);
    assert_eq!(
        stored.request,
        Some(PeerMessage::Request { index: 2, begin: 0, length: 5000 })
    );
    assert!(missing.is_empty());

    let stored = session.block_stored(&l, 5000, &mut s, &mut have, &mut missing);
    assert_eq!(stored.finished, Some(2));
    assert_eq!(stored.request, None);
    assert!(session.is_complete);
    assert_eq!(have, vec![false, true, true]);
    assert_eq!(s.downloaded, 25000);
}

#[test]
fn an_unfinished_piece_is_missing_again() {
    let l = layout();
    let mut s = state();
    let mut have = vec![false; 3];
    let mut missing = vec![1, 2];
    let mut session = PeerSession::new();
    session.claim(&mut missing);
    session.block_stored(&l, 100, &mut s, &mut have, &mut missing);
    session.give_up(&mut s, &mut missing);
    assert_eq!(missing, vec![2, 1]);
    assert_eq!(s.downloaded, 0);
    PeerSession::new().give_up(&mut s, &mut missing);
    assert_eq!(missing, vec![2, 1]);
}

#[test]
fn what_is_done_about_messages() {
    let l = layout();
    let have = vec![false, true, false];
    let session = PeerSession::new();
    assert_eq!(session.react(&l, &have, &PeerMessage::KeepAlive), Reaction::Nothing);
    assert_eq!(session.react(&l, &have, &PeerMessage::Choke), Reaction::Nothing);
    assert_eq!(session.react(&l, &have, &PeerMessage::Unchoke), Reaction::Nothing);
    assert_eq!(
        session.react(&l, &have, &PeerMessage::Interested),
        Reaction::Send(PeerMessage::Unchoke)
    );
    assert_eq!(session.react(&l, &have, &PeerMessage::Have { index: 1 }), Reaction::Nothing);
    assert_eq!(
        session.react(&l, &have, &PeerMessage::Piece { index: 2, begin: 7, block: vec![] }),
        Reaction::Store { offset: 40007 }
    );
    assert_eq!(
        session.react(&l, &have, &PeerMessage::Request { index: 1, begin: 5, length: 9 }),
        Reaction::Serve { offset: 20005, length: 9 }
    );
    for index in [0, 2, 3] {
        assert_eq!(
            session.react(&l, &have, &PeerMessage::Request { index, begin: 5, length: 9 }),
            Reaction::Nothing
        );
    }
}

#[test]
fn numbers_that_cannot_be_held_are_noticed() {
    let wide = PieceLayout { piece_length: u64::MAX, total_pieces: 3, total_size: 5 };
    let session = PeerSession { piece_index: 0, block_offset: 5, is_complete: false };
    assert!(!session.can_react(&wide, &PeerMessage::Piece { index: 2, begin: 0, block: vec![] }));
    assert!(session.can_react(&wide, &PeerMessage::Piece { index: 1, begin: 0, block: vec![] }));
    let tiny = PieceLayout { piece_length: 4, total_pieces: 1, total_size: 50 };
    assert!(!session.can_react(&tiny, &PeerMessage::Unchoke));
    assert!(!session.can_store(&tiny, 1, &state(), &vec![]));
    assert!(!session.can_store(
        &PieceLayout { piece_length: 4, total_pieces: 0, total_size: 0 },
        1,
        &state(),
        &vec![]
    ));
}

#[test]
fn a_block_goes_out_with_the_index_and_beginning_of_its_request() {
    let request = PeerMessage::Request { index: 1, begin: 5, length: 3 };
    assert_eq!(
        PeerSession::serve(&request, b"abc".to_vec()),
        Some(PeerMessage::Piece { index: 1, begin: 5, block: b"abc".to_vec() })
    );
    assert_eq!(PeerSession::serve(&PeerMessage::Interested, b"abc".to_vec()), None);
}
