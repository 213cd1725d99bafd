use torrent::tracker::{rand_u32, Announce, PeerAddr, TrackerClient, TrackerError};

#[test]
fn a_connection_is_requested_and_granted() {
    let client = TrackerClient::new();
    assert_eq!(
        client.connect_request(0x01020304),
        [0, 0, 0x04, 0x17, 0x27, 0x10, 0x19, 0x80, 0, 0, 0, 0, 1, 2, 3, 4]
    );
    let response = [0, 0, 0, 0, 1, 2, 3, 4, 8, 7, 6, 5, 4, 3, 2, 1];
    assert_eq!(
        client.connection_id(&response, 0x01020304),
        Ok([8, 7, 6, 5, 4, 3, 2, 1])
    );
    assert_eq!(
        client.connection_id(&response, 5),
        Err(TrackerError::InvalidConnectResponse)
    );
    let mut wrong = response;
    wrong[3] = 1;
    assert_eq!(
        client.connection_id(&wrong, 0x01020304),
        Err(TrackerError::InvalidConnectResponse)
    );
}

#[test]
fn an_announce_request_on_the_wire() {
    let request = TrackerClient::default().announce_request(&Announce {
        connection_id: [1, 2, 3, 4, 5, 6, 7, 8],
        transaction_id: 9,
        info_hash: [10; 20],
        peer_id: [11; 20],
        key: 12,
        port: 6881,
    });
    assert_eq!(request.len(), 100);
    assert_eq!(&request[0..16], &[1, 2, 3, 4, 5, 6, 7, 8, 0, 0, 0, 1, 0, 0, 0, 9]);
    assert_eq!(&request[16..36], &[10u8; 20]);
    assert_eq!(&request[36..56], &[11u8; 20]);
    assert_eq!(&request[56..88], &[0u8; 32]);
    assert_eq!(&request[88..100], &[0, 0, 0, 12, 255, 255, 255, 255, 0, 0, 0x1a, 0xe1]);
}

#[test]
fn peers_are_read_from_an_answer() {
    let client = TrackerClient::new();
    let mut response = vec![0, 0, 0, 1, 0, 0, 0, 9];
    response.extend_from_slice(&[0; 12]);
    response.extend_from_slice(&[127, 0, 0, 1, 0x1a, 0xe1, 10, 0, 0, 2, 0, 80, 99, 99]);
    assert_eq!(
        client.announced(&response, 9),
        Ok(vec![
            PeerAddr { ip: [127, 0, 0, 1], port: 6881 },
            PeerAddr { ip: [10, 0, 0, 2], port: 80 },
        ])
    );
    assert_eq!(
        client.announced(&response, 8),
        Err(TrackerError::InvalidAnnounceResponse)
    );
    assert_eq!(
        client.announced(&response[..19], 9),
        Err(TrackerError::AnnounceTooShort)
    );
    assert_eq!(client.announced(&response[..20], 9), Ok(vec![]));
}

#[test]
fn tracker_errors_in_words() {
    assert_eq!(
        TrackerError::InvalidConnectResponse.message(),
        "Invalid tracker connect response"
    );
    assert_eq!(
        TrackerError::AnnounceTooShort.message(),
        "Tracker announce response too short"
    );
    assert_eq!(
        TrackerError::InvalidAnnounceResponse.message(),
        "Invalid tracker announce response match"
    );
}

#[test]
fn the_low_bits_of_the_clock_are_taken() {
    assert_eq!(rand_u32(0x1_0000_0005), 5);
    assert_eq!(rand_u32(u128::MAX), u32::MAX);
}
