//! Where everything stands in what is sent and received.
use vstd::prelude::*;
use vstd::string::*;
use crate::protocol::{
    handshake_bytes, handshake_prefix, is_handshake_step, length_fits, message_bytes, reading, HandshakeStep,
    HandshakeView, Message, Reading,
};
use crate::rpc::{is_packet_step, opened, packet_bytes, MessagePacket, PacketStep, VersionMismatch};
use crate::tracker::{
    announce_request_bytes, announced_peers, connect_request_bytes, granted_connection, Announce, PeerAddrView,
    TrackerError,
};
use crate::wire::{be32, be32_value, be64};

verus! {

/// The number that the four bytes at `at` denote, most significant first.
pub open spec fn number_at(b: Seq<u8>, at: int) -> int {
    b[at] * 16777216 + b[at + 1] * 65536 + b[at + 2] * 256 + b[at + 3]
}

/// Whether the bytes of `part` stand in `b` from `at` on.
pub open spec fn has_at(b: Seq<u8>, at: int, part: Seq<u8>) -> bool {
    &&& 0 <= at
    &&& at + part.len() <= b.len()
    &&& forall|k: int| 0 <= k < part.len() ==> b[at + k] == #[trigger] part[k]
}

/// A number takes four bytes, the most significant one first.
pub proof fn four_bytes_of_a_number(n: u32)
    ensures
        be32(n as int).len() == 4,
        number_at(be32(n as int), 0) == n,
{
    reveal(be32);
}

/// A long number takes eight bytes, the most significant one first.
pub proof fn eight_bytes_of_a_number(n: u64)
    ensures
        be64(n as int).len() == 8,
        number_at(be64(n as int), 0) * 4294967296 + number_at(be64(n as int), 4) == n,
{
    four_bytes_of_a_number((n / 0x1_0000_0000) as u32);
    four_bytes_of_a_number((n % 0x1_0000_0000) as u32);
}

/// The value of four bytes is the sum of what they are worth.
pub proof fn the_value_of_four_bytes(b: Seq<u8>, at: int)
    requires
        0 <= at,
        at + 4 <= b.len(),
    ensures
        be32_value(b.subrange(at, at + 4)) == number_at(b, at),
        0 <= number_at(b, at) < 4294967296,
{
    reveal(be32_value);
}

/// A handshake is 68 bytes: the number 19, the name of the protocol, eight zeros, the
/// hash and the peer.
pub proof fn what_stands_in_a_handshake(h: HandshakeView)
    requires
        h.info_hash.len() == 20,
        h.peer_id.len() == 20,
    ensures
        handshake_bytes(h).len() == 68,
        handshake_bytes(h)[0] == 19,
        has_at(handshake_bytes(h), 1, "BitTorrent protocol".spec_bytes()),
        "BitTorrent protocol".spec_bytes().len() == 19,
        forall|k: int| 20 <= k < 28 ==> #[trigger] handshake_bytes(h)[k] == 0,
        has_at(handshake_bytes(h), 28, h.info_hash),
        has_at(handshake_bytes(h), 48, h.peer_id),
{
    crate::protocol::handshake_prefix_length();
}

/// A handshake is taken from any 68 bytes that begin as they should, whatever the
/// eight bytes behind the prefix are: what stands there is the hash and the peer.
/// Anything else is refused as soon as the first twenty bytes are there.
pub proof fn how_a_handshake_is_read(received: Seq<u8>, step: HandshakeStep)
    requires
        is_handshake_step(received, step),
    ensures
        received.len() < 20 ==> (step matches HandshakeStep::More(n) && n == 20 - received.len()),
        received.len() >= 20 ==> (step is InvalidPrefix <==> !(received[0] == 19 && has_at(
            received,
            1,
            "BitTorrent protocol".spec_bytes(),
        ))),
        20 <= received.len() < 68 && !(step is InvalidPrefix) ==> (step matches HandshakeStep::More(n) && n == 68
            - received.len()),
        received.len() >= 68 && !(step is InvalidPrefix) ==> (step matches HandshakeStep::Done(h) && has_at(
            received,
            28,
            h.info_hash@,
        ) && has_at(received, 48, h.peer_id@)),
{
    crate::protocol::handshake_prefix_length();
    let prefix = handshake_prefix();
    let name = "BitTorrent protocol".spec_bytes();
    if received.len() >= 20 {
        let first = received.subrange(0, 20);
        if first == prefix {
            assert forall|k: int| 0 <= k < name.len() implies received[1 + k] == #[trigger] name[k] by {
                assert(first[1 + k] == prefix[1 + k]);
            }
            assert(first[0] == prefix[0]);
        } else if received[0] == 19 && has_at(received, 1, name) {
            assert forall|k: int| 0 <= k < 20 implies first[k] == prefix[k] by {
                if k > 0 {
                    assert(prefix[k] == name[k - 1]);
                }
            }
            assert(first =~= prefix);
        }
    }
}

/// The number of each kind of message.
pub open spec fn message_id(m: Message) -> int {
    match m {
        Message::KeepAlive => -1,
        Message::Choke => 0,
        Message::Unchoke => 1,
        Message::Interested => 2,
        Message::NotInterested => 3,
        Message::Have { .. } => 4,
        Message::Bitfield(_) => 5,
        Message::Request { .. } => 6,
        Message::Piece { .. } => 7,
        Message::Cancel { .. } => 8,
    }
}

/// A message starts with the number of bytes that follow; then comes its number, and
/// behind it its fields, four bytes for each number.
pub proof fn what_stands_in_a_message(m: Message)
    requires
        length_fits(m),
    ensures
        ({
            let b = message_bytes(m);
            &&& b.len() == 4 + number_at(b, 0)
            &&& m is KeepAlive ==> b.len() == 4
            &&& !(m is KeepAlive) ==> b.len() >= 5 && b[4] == message_id(m)
            &&& m is Choke || m is Unchoke || m is Interested || m is NotInterested ==> b.len() == 5
            &&& m matches Message::Have { index } ==> b.len() == 9 && number_at(b, 5) == index
            &&& m matches Message::Bitfield(bits) ==> b.len() == 5 + bits.len() && has_at(b, 5, bits)
            &&& m matches Message::Request { index, begin, length } ==> b.len() == 17 && number_at(b, 5) == index
                && number_at(b, 9) == begin && number_at(b, 13) == length
            &&& m matches Message::Piece { index, begin, block } ==> b.len() == 13 + block.len() && number_at(b, 5)
                == index && number_at(b, 9) == begin && has_at(b, 13, block)
            &&& m matches Message::Cancel { index, begin, length } ==> b.len() == 17 && number_at(b, 5) == index
                && number_at(b, 9) == begin && number_at(b, 13) == length
        }),
{
    four_bytes_of_a_number(0);
    four_bytes_of_a_number(1);
    four_bytes_of_a_number(5);
    four_bytes_of_a_number(13);
    match m {
        Message::Have { index } => {
            four_bytes_of_a_number(index);
        },
        Message::Bitfield(bits) => {
            four_bytes_of_a_number((1 + bits.len()) as u32);
        },
        Message::Request { index, begin, length } => {
            four_bytes_of_a_number(index);
            four_bytes_of_a_number(begin);
            four_bytes_of_a_number(length);
        },
        Message::Cancel { index, begin, length } => {
            four_bytes_of_a_number(index);
            four_bytes_of_a_number(begin);
            four_bytes_of_a_number(length);
        },
        Message::Piece { index, begin, block } => {
            four_bytes_of_a_number((9 + block.len()) as u32);
            four_bytes_of_a_number(index);
            four_bytes_of_a_number(begin);
        },
        _ => {},
    }
}

/// Which message bytes hold is told by their number, and every field is taken from
/// its place; a bitfield and the block of a piece reach as far as the length says.
pub proof fn how_a_message_is_read(b: Seq<u8>)
    ensures
        reading(b) matches Reading::Done(m, n) ==> {
            &&& 4 <= n <= b.len()
            &&& m is KeepAlive <==> number_at(b, 0) == 0
            &&& m is KeepAlive ==> n == 4
            &&& !(m is KeepAlive) ==> n >= 5 && b[4] == message_id(m)
            &&& m is Choke || m is Unchoke || m is Interested || m is NotInterested ==> n == 5
            &&& m matches Message::Have { index } ==> n == 9 && number_at(b, 5) == index
            &&& m matches Message::Bitfield(bits) ==> n == 4 + number_at(b, 0) && n == 5 + bits.len() && has_at(
                b,
                5,
                bits,
            )
            &&& m matches Message::Request { index, begin, length } ==> n == 17 && number_at(b, 5) == index && number_at(
                b,
                9,
            ) == begin && number_at(b, 13) == length
            &&& m matches Message::Piece { index, begin, block } ==> n == 4 + number_at(b, 0) && n == 13 + block.len()
                && number_at(b, 5) == index && number_at(b, 9) == begin && has_at(b, 13, block)
            &&& m matches Message::Cancel { index, begin, length } ==> n == 17 && number_at(b, 5) == index && number_at(
                b,
                9,
            ) == begin && number_at(b, 13) == length
        },
        reading(b) matches Reading::Needs(n) ==> b.len() < n,
        reading(b) matches Reading::UnknownId(id) ==> b.len() >= 5 && b[4] == id && id > 8 && number_at(b, 0) != 0,
        reading(b) is Fault <==> b.len() >= 13 && b[4] == 7 && 0 < number_at(b, 0) < 9,
        b.len() >= 5 && number_at(b, 0) != 0 && b[4] > 8 ==> reading(b) is UnknownId,
        b.len() >= 4 && number_at(b, 0) == 0 ==> reading(b) is Done,
        b.len() >= 17 && b.len() >= 4 + number_at(b, 0) ==> !(reading(b) is Needs),
{
    if b.len() >= 4 {
        the_value_of_four_bytes(b, 0);
    }
    if b.len() >= 9 {
        the_value_of_four_bytes(b, 5);
    }
    if b.len() >= 13 {
        the_value_of_four_bytes(b, 9);
    }
    if b.len() >= 17 {
        the_value_of_four_bytes(b, 13);
    }
}

/// How many bytes of a message are asked for while it comes in: its length first, its
/// number next, and then what its kind needs.
pub proof fn what_a_message_needs(b: Seq<u8>)
    ensures
        b.len() < 4 ==> reading(b) == Reading::Needs(4),
        b.len() == 4 && number_at(b, 0) != 0 ==> reading(b) == Reading::Needs(5),
        5 <= b.len() && number_at(b, 0) != 0 ==> {
            &&& b[4] == 4 && b.len() < 9 ==> reading(b) == Reading::Needs(9)
            &&& (b[4] == 6 || b[4] == 8) && b.len() < 17 ==> reading(b) == Reading::Needs(17)
            &&& b[4] == 7 && b.len() < 13 ==> reading(b) == Reading::Needs(13)
            &&& b[4] == 5 && b.len() < 4 + number_at(b, 0) ==> reading(b) == Reading::Needs(4 + number_at(b, 0))
            &&& b[4] == 7 && 13 <= b.len() < 4 + number_at(b, 0) ==> reading(b) == Reading::Needs(4 + number_at(b, 0))
        },
{
    if b.len() >= 4 {
        the_value_of_four_bytes(b, 0);
    }
}

/// A request for a connection is sixteen bytes: the number of the protocol, zero for
/// what is wanted, and the number of the transaction.
pub proof fn what_stands_in_a_connection_request(transaction_id: u32)
    ensures
        ({
            let b = connect_request_bytes(transaction_id);
            &&& b.len() == 16
            &&& number_at(b, 0) == 0x417
            &&& number_at(b, 4) == 0x2710_1980
            &&& number_at(b, 8) == 0
            &&& number_at(b, 12) == transaction_id
        }),
{
    eight_bytes_of_a_number(0x0000_0417_2710_1980);
    four_bytes_of_a_number(0x417);
    four_bytes_of_a_number(0x2710_1980);
    four_bytes_of_a_number(0);
    four_bytes_of_a_number(transaction_id);
}

/// A connection is granted exactly by an answer to the same transaction that says
/// so, and is what stands behind.
pub proof fn how_a_connection_is_granted(response: Seq<u8>, transaction_id: u32)
    requires
        response.len() == 16,
    ensures
        granted_connection(response, transaction_id) is Ok <==> number_at(response, 0) == 0 && number_at(response, 4)
            == transaction_id,
        granted_connection(response, transaction_id) matches Ok(id) ==> id.len() == 8 && has_at(response, 8, id),
        granted_connection(response, transaction_id) matches Err(e) ==> e == TrackerError::InvalidConnectResponse,
{
    the_value_of_four_bytes(response, 0);
    the_value_of_four_bytes(response, 4);
}

/// An announcement is a hundred bytes, with everything that is told in its place.
pub proof fn what_stands_in_an_announcement(a: Announce)
    ensures
        ({
            let b = announce_request_bytes(a);
            &&& b.len() == 100
            &&& has_at(b, 0, a.connection_id@)
            &&& number_at(b, 8) == 1
            &&& number_at(b, 12) == a.transaction_id
            &&& has_at(b, 16, a.info_hash@)
            &&& has_at(b, 36, a.peer_id@)
            &&& forall|k: int| 56 <= k < 88 ==> #[trigger] b[k] == 0
            &&& number_at(b, 88) == a.key
            &&& number_at(b, 92) == 0xffff_ffff
            &&& number_at(b, 96) == a.port
        }),
{
    assert(a.connection_id@.len() == 8);
    assert(a.info_hash@.len() == 20);
    assert(a.peer_id@.len() == 20);
    four_bytes_of_a_number(1);
    four_bytes_of_a_number(a.transaction_id);
    four_bytes_of_a_number(0);
    eight_bytes_of_a_number(0);
    four_bytes_of_a_number(a.key);
    four_bytes_of_a_number(0xffff_ffff);
    four_bytes_of_a_number(a.port as u32);
    assert(forall|k: int| 0 <= k < 4 ==> #[trigger] be32(0)[k] == 0) by {
        reveal(be32);
    }
}

/// Peers are named exactly by an answer to the same transaction that announces
/// them; each takes six bytes behind the first twenty, the address first and then the
/// port, and as many are named as there is room for.
pub proof fn how_peers_are_named(response: Seq<u8>, transaction_id: u32)
    ensures
        response.len() < 20 <==> announced_peers(response, transaction_id) == Err::<Seq<PeerAddrView>, TrackerError>(
            TrackerError::AnnounceTooShort,
        ),
        announced_peers(response, transaction_id) is Ok <==> response.len() >= 20 && number_at(response, 0) == 1
            && number_at(response, 4) == transaction_id,
        announced_peers(response, transaction_id) matches Err(e) ==> response.len() >= 20 ==> e
            == TrackerError::InvalidAnnounceResponse,
        announced_peers(response, transaction_id) matches Ok(peers) ==> {
            &&& 20 + 6 * peers.len() <= response.len() < 26 + 6 * peers.len()
            &&& forall|i: int|
                0 <= i < peers.len() ==> (#[trigger] peers[i]).ip.len() == 4 && has_at(response, 20 + 6 * i, peers[i].ip)
                    && peers[i].port == response[24 + 6 * i] * 256 + response[25 + 6 * i]
        },
{
    if response.len() >= 20 {
        the_value_of_four_bytes(response, 0);
        the_value_of_four_bytes(response, 4);
    }
}

/// A packet is a byte for the version, four for the command, four for the length of
/// the payload, and the payload.
pub proof fn what_stands_in_a_packet(version: u8, command: u32, payload: Seq<u8>)
    requires
        payload.len() < 0x1_0000_0000,
    ensures
        ({
            let b = packet_bytes(version, command, payload);
            &&& b.len() == 9 + payload.len()
            &&& b[0] == version
            &&& number_at(b, 1) == command
            &&& number_at(b, 5) == payload.len()
            &&& has_at(b, 9, payload)
        }),
{
    four_bytes_of_a_number(command);
    four_bytes_of_a_number(payload.len() as u32);
}

/// A packet is read from nine bytes and as many as they announce, and everything is
/// taken from its place.
pub proof fn how_a_packet_is_read(received: Seq<u8>, step: PacketStep)
    requires
        is_packet_step(received, step),
        received.len() <= usize::MAX,
    ensures
        received.len() < 9 ==> (step matches PacketStep::More(n) && n == 9 - received.len()),
        9 <= received.len() < 9 + number_at(received, 5) ==> (step matches PacketStep::More(n) && n == 9 + number_at(
            received,
            5,
        ) - received.len()),
        received.len() >= 9 && received.len() >= 9 + number_at(received, 5) ==> (step matches PacketStep::Done(
            packet,
            command,
        ) && packet.version == received[0] && command == number_at(received, 1) && packet.payload@.len() == number_at(
            received,
            5,
        ) && has_at(received, 9, packet.payload@)),
{
    if received.len() >= 9 {
        the_value_of_four_bytes(received, 1);
        the_value_of_four_bytes(received, 5);
    }
}

/// A packet is opened exactly where it is of the first version of the protocol.
pub proof fn which_packets_are_opened(packet: MessagePacket)
    ensures
        packet.version == 1 ==> opened(packet) == Ok::<Vec<u8>, VersionMismatch>(packet.payload),
        packet.version != 1 ==> opened(packet) == Err::<Vec<u8>, VersionMismatch>(
            VersionMismatch { got: packet.version },
        ),
{
}

} // verus!
