use torrent::protocol::{Handshake, HandshakeStep, PeerMessage, ReadStep};

#[test]
fn a_handshake_is_read_back() {
    let h = Handshake::new([1; 20], [2; 20]);
    let bytes = h.serialize();
    assert_eq!(bytes.len(), 68);
    assert_eq!(bytes[0], 19);
    assert_eq!(&bytes[1..20], b"BitTorrent protocol");
    assert_eq!(&bytes[20..28], &[0u8; 8]);
    assert_eq!(&bytes[28..48], &[1u8; 20]);
    assert_eq!(Handshake::read(&bytes), HandshakeStep::Done(h));
}

#[test]
fn a_handshake_is_read_in_parts() {
    let bytes = Handshake::new([1; 20], [2; 20]).serialize();
    assert_eq!(Handshake::read(&bytes[..0]), HandshakeStep::More(20));
    assert_eq!(Handshake::read(&bytes[..5]), HandshakeStep::More(15));
    assert_eq!(Handshake::read(&bytes[..20]), HandshakeStep::More(48));
    assert_eq!(Handshake::read(&bytes[..67]), HandshakeStep::More(1));
    assert_eq!(Handshake::read(b"\x13BitTorrent protocom"), HandshakeStep::InvalidPrefix);
}

#[test]
fn messages_on_the_wire() {
    assert_eq!(PeerMessage::KeepAlive.serialize(), [0, 0, 0, 0]);
    assert_eq!(PeerMessage::Choke.serialize(), [0, 0, 0, 1, 0]);
    assert_eq!(PeerMessage::Unchoke.serialize(), [0, 0, 0, 1, 1]);
    assert_eq!(PeerMessage::Interested.serialize(), [0, 0, 0, 1, 2]);
    assert_eq!(PeerMessage::NotInterested.serialize(), [0, 0, 0, 1, 3]);
    assert_eq!(
        PeerMessage::Have { index: 258 }.serialize(),
        [0, 0, 0, 5, 4, 0, 0, 1, 2]
    );
    assert_eq!(
        PeerMessage::Bitfield(vec![0xf0, 1]).serialize(),
        [0, 0, 0, 3, 5, 0xf0, 1]
    );
    assert_eq!(
        PeerMessage::Request { index: 1, begin: 2, length: 16384 }.serialize(),
        [0, 0, 0, 13, 6, 0, 0, 0, 1, 0, 0, 0, 2, 0, 0, 64, 0]
    );
    assert_eq!(
        PeerMessage::Piece { index: 1, begin: 2, block: vec![9, 8] }.serialize(),
        [0, 0, 0, 11, 7, 0, 0, 0, 1, 0, 0, 0, 2, 9, 8]
    );
    assert_eq!(
        PeerMessage::Cancel { index: 1, begin: 2, length: 3 }.serialize(),
        [0, 0, 0, 13, 8, 0, 0, 0, 1, 0, 0, 0, 2, 0, 0, 0, 3]
    );
}

#[test]
fn messages_are_read_back_whole_and_in_parts() {
    let messages = vec![
        PeerMessage::KeepAlive,
        PeerMessage::Choke,
        PeerMessage::Unchoke,
        PeerMessage::Interested,
        PeerMessage::NotInterested,
        PeerMessage::Have { index: 7 },
        PeerMessage::Bitfield(vec![1, 2, 3]),
        PeerMessage::Request { index: 1, begin: 2, length: 3 },
        PeerMessage::Piece { index: 1, begin: 2, block: vec![4, 5, 6] },
        PeerMessage::Cancel { index: 1, begin: 2, length: 3 },
    ];
    for message in messages {
        let bytes = message.serialize();
        assert!(!PeerMessage::piece_too_short(&bytes));
        assert_eq!(PeerMessage::read(&bytes), ReadStep::Done(message));
        let mut received: Vec<u8> = Vec::new();
        loop {
            match PeerMessage::read(&received) {
                ReadStep::More(n) => {
                    let upto = received.len() + n as usize;
                    received = bytes[..upto].to_vec();
                }
                ReadStep::Done(_) => break,
                ReadStep::UnknownId(id) => panic!("{}", id),
            }
        }
        assert_eq!(received, bytes);
    }
}

#[test]
fn unknown_and_impossible_messages() {
    assert_eq!(PeerMessage::read(&[0, 0, 0, 1, 9]), ReadStep::UnknownId(9));
    assert_eq!(PeerMessage::read(&[0, 0]), ReadStep::More(2));
    assert!(PeerMessage::piece_too_short(&[
        0, 0, 0, 8, 7, 0, 0, 0, 1, 0, 0, 0, 2
    ]));
}
