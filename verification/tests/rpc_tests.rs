use torrent::rpc::{
    get_ipc_path, read_packet, receive_request, receive_response, send_request, send_response,
    write_packet, MessagePacket, PacketStep, VersionMismatch, PROTOCOL_VERSION,
};

#[test]
fn a_packet_on_the_wire() {
    assert_eq!(
        write_packet(1, 0x01020304, b"hi"),
        [1, 1, 2, 3, 4, 0, 0, 0, 2, b'h', b'i']
    );
}

#[test]
fn framed_requests_and_responses_come_through() {
    let framed = send_request(b"request");
    match read_packet(&framed) {
        PacketStep::Done(packet, command) => {
            assert_eq!(command, 0);
            assert_eq!(packet.version, PROTOCOL_VERSION);
            assert_eq!(receive_request(packet), Ok(b"request".to_vec()));
        }
        PacketStep::More(n) => panic!("{}", n),
    }
    let framed = send_response(b"0.1.0");
    match read_packet(&framed) {
        PacketStep::Done(packet, command) => {
            assert_eq!(command, 1);
            assert_eq!(receive_response(packet), Ok(b"0.1.0".to_vec()));
        }
        PacketStep::More(n) => panic!("{}", n),
    }
}

#[test]
fn a_packet_is_read_in_parts() {
    let framed = send_request(b"request");
    assert!(matches!(read_packet(&framed[..0]), PacketStep::More(9)));
    assert!(matches!(read_packet(&framed[..9]), PacketStep::More(7)));
    assert!(matches!(read_packet(&framed[..15]), PacketStep::More(1)));
}

#[test]
fn another_protocol_version_is_refused() {
    let packet = MessagePacket { version: 2, payload: vec![] };
    let mismatch = receive_request(packet.clone()).unwrap_err();
    assert_eq!(mismatch, VersionMismatch { got: 2 });
    assert_eq!(receive_response(packet), Err(VersionMismatch { got: 2 }));
    assert_eq!(
        mismatch.message(),
        "Protocol version mismatch: expected 1, got 2"
    );
}

#[test]
fn where_the_daemon_listens() {
    assert_eq!(get_ipc_path(false), "/tmp/torrentd.sock");
    assert_eq!(get_ipc_path(true), r"\\.\pipe\torrentd");
}
