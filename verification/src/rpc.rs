//! What the command line and the daemon tell each other, and how it is framed.
use vstd::prelude::*;
use vstd::slice::{slice_subrange, slice_to_vec};
use vstd::string::*;
use crate::ids::TorrentId;
use crate::text::{append_decimal, decimal_text};
use crate::wire::{be32, be32_reads_back, be32_value, push_u32, read_u32};

verus! {

/// The protocol version.
pub const PROTOCOL_VERSION: u8 = 1;

/// RPC request commands sent from CLI to Daemon.
#[derive(Debug, Clone, PartialEq, Eq)]
pub enum Request {
    Create { path: String, trackers: Option<Vec<String>> },
    CreateAdd { path: String, trackers: Option<Vec<String>> },
    Add { path_or_magnet: String },
    Remove { id: TorrentId, delete_data: bool },
    Pause { id: TorrentId },
    Resume { id: TorrentId },
    List,
    Status { id: Option<TorrentId> },
    Stats,
    Info { id: TorrentId },
    Verify { id: TorrentId },
    GetConfig,
    Version,
}

/// A summary of a single torrent's status.
#[derive(Debug, Clone, PartialEq, Eq)]
pub struct TorrentStatus {
    pub id: TorrentId,
    pub name: String,
    pub info_hash: String,
    pub size: u64,
    pub downloaded: u64,
    pub uploaded: u64,
    /// "Downloading", "Completed", "Paused", "Checking" and the like.
    pub status: String,
    pub download_rate: usize,
    pub upload_rate: usize,
    pub peers_connected: usize,
}

/// Global system stats.
#[derive(Debug, Clone, Copy, PartialEq, Eq, Structural)]
pub struct SystemStats {
    pub download_rate: usize,
    pub upload_rate: usize,
    pub total_downloaded: u64,
    pub total_uploaded: u64,
    pub num_torrents: usize,
}

/// What is shown of a torrent on request.
#[derive(Debug, Clone, PartialEq, Eq)]
pub struct TorrentDetails {
    pub name: String,
    pub info_hash: String,
    pub size: u64,
    pub status: String,
}

/// RPC responses sent from Daemon to CLI.
#[derive(Debug, Clone, PartialEq, Eq)]
pub enum Response {
    /// The request was carried out, and there is nothing else to say.
    Success,
    Error(String),
    TorrentAdded { id: TorrentId },
    TorrentRemoved,
    TorrentList(Vec<TorrentStatus>),
    TorrentStatus(TorrentStatus),
    Stats(SystemStats),
    Info(TorrentDetails),
    Config(String),
    Version { version: String },
}

/// Standard Packet header structure.
/// Binary Layout:
/// - Version: 1 byte
/// - Command/Response discriminant: 4 bytes
/// - Length: 4 bytes
/// - Payload: `length` bytes
#[derive(Debug, Clone, PartialEq, Eq)]
pub struct MessagePacket {
    pub version: u8,
    pub payload: Vec<u8>,
}

/// A packet on the wire: version, command, length (what does not fit in four
/// bytes falls away), payload.
pub open spec fn packet_bytes(version: u8, command: u32, payload: Seq<u8>) -> Seq<u8> {
    seq![version] + be32(command as int) + be32(payload.len() as int % 0x1_0000_0000) + payload
}

/// How far reading a packet has come.
#[derive(Debug, Clone, PartialEq, Eq)]
pub enum PacketStep {
    /// So many more bytes have to be read.
    More(u64),
    /// The packet is complete; besides its contents, its command.
    Done(MessagePacket, u32),
}

/// Whether `step` is what reading a packet from the bytes received so far comes to.
pub open spec fn is_packet_step(received: Seq<u8>, step: PacketStep) -> bool {
    if received.len() < 9 {
        step == PacketStep::More((9 - received.len()) as u64)
    } else {
        let length = be32_value(received.subrange(5, 9));
        if received.len() < 9 + length {
            step == PacketStep::More((9 + length - received.len()) as u64)
        } else {
            &&& step matches PacketStep::Done(packet, command)
            &&& packet.version == received[0]
            &&& command == be32_value(received.subrange(1, 5))
            &&& packet.payload@ == received.subrange(9, 9 + length)
        }
    }
}

/// Writes a packet.
pub fn write_packet(version: u8, command: u32, payload: &[u8]) -> (r: Vec<u8>)
    ensures
        r@ == packet_bytes(version, command, payload@),
{
    let mut buf: Vec<u8> = Vec::new();
    buf.push(version);
    push_u32(&mut buf, command);
    let length: u128 = payload.len() as u128 % 0x1_0000_0000;
    push_u32(&mut buf, length as u32);
    buf.extend_from_slice(payload);
    assert(buf@ =~= packet_bytes(version, command, payload@));
    buf
}

/// Reads a packet from the bytes received so far, or tells how many bytes to
/// read next.
pub fn read_packet(received: &[u8]) -> (r: PacketStep)
    ensures
        is_packet_step(received@, r),
{
    let total: usize = received.len();
    if total < 9 {
        return PacketStep::More(9 - total as u64);
    }
    let length: u32 = read_u32(received, 5);
    let needed: u64 = 9 + length as u64;
    if (total as u64) < needed {
        return PacketStep::More(needed - total as u64);
    }
    let packet = MessagePacket {
        version: received[0],
        payload: slice_to_vec(slice_subrange(received, 9, needed as usize)),
    };
    PacketStep::Done(packet, read_u32(received, 1))
}

/// A packet is read back from what was written, whatever follows it, where its
/// length fits in the four bytes that it has.
pub proof fn packet_reads_back(version: u8, command: u32, payload: Seq<u8>, rest: Seq<u8>, step: PacketStep)
    requires
        payload.len() < 0x1_0000_0000,
        is_packet_step(packet_bytes(version, command, payload) + rest, step),
    ensures
        step matches PacketStep::Done(packet, got) && packet.version == version && got == command
            && packet.payload@ == payload,
{
    let b = packet_bytes(version, command, payload) + rest;
    be32_reads_back(command);
    be32_reads_back(payload.len() as u32);
    assert(b.subrange(1, 5) =~= be32(command as int));
    assert(b.subrange(5, 9) =~= be32(payload.len() as int));
    assert(b.subrange(9, 9 + payload.len() as int) =~= payload);
}

/// While a packet comes in, what is asked for next never goes beyond it.
pub proof fn packet_reads_in_parts(version: u8, command: u32, payload: Seq<u8>, upto: int, step: PacketStep)
    requires
        payload.len() < 0x1_0000_0000,
        0 <= upto < packet_bytes(version, command, payload).len(),
        is_packet_step(packet_bytes(version, command, payload).take(upto), step),
    ensures
        step matches PacketStep::More(n) && 0 < n && upto + n <= packet_bytes(version, command, payload).len(),
{
    let b = packet_bytes(version, command, payload);
    be32_reads_back(command);
    be32_reads_back(payload.len() as u32);
    if upto >= 9 {
        assert(b.take(upto).subrange(5, 9) =~= be32(payload.len() as int));
    }
}

/// The command of a packet that carries a request.
pub const REQUEST_COMMAND: u32 = 0;

/// The command of a packet that carries a response.
pub const RESPONSE_COMMAND: u32 = 1;

/// Frames a serialized request.
pub fn send_request(payload: &[u8]) -> (r: Vec<u8>)
    ensures
        r@ == packet_bytes(PROTOCOL_VERSION, REQUEST_COMMAND, payload@),
{
    write_packet(PROTOCOL_VERSION, REQUEST_COMMAND, payload)
}

/// Frames a serialized response.
pub fn send_response(payload: &[u8]) -> (r: Vec<u8>)
    ensures
        r@ == packet_bytes(PROTOCOL_VERSION, RESPONSE_COMMAND, payload@),
{
    write_packet(PROTOCOL_VERSION, RESPONSE_COMMAND, payload)
}

/// A packet of another protocol version.
#[derive(Debug, Clone, Copy, PartialEq, Eq, Structural)]
pub struct VersionMismatch {
    pub got: u8,
}

impl VersionMismatch {
    /// The error in words.
    pub fn message(&self) -> (r: String)
        ensures
            r@ == "Protocol version mismatch: expected "@ + decimal_text(PROTOCOL_VERSION as nat)
                + ", got "@ + decimal_text(self.got as nat),
    {
        let mut text = String::from_str("Protocol version mismatch: expected ");
        append_decimal(&mut text, PROTOCOL_VERSION as u64);
        text.append(", got ");
        append_decimal(&mut text, self.got as u64);
        text
    }
}

/// The payload of a packet that carries a request; the command is not looked at.
pub fn receive_request(packet: MessagePacket) -> (r: Result<Vec<u8>, VersionMismatch>)
    ensures
        r == opened(packet),
{
    open_packet(packet)
}

/// The payload of a packet that carries a response; the command is not looked at.
pub fn receive_response(packet: MessagePacket) -> (r: Result<Vec<u8>, VersionMismatch>)
    ensures
        r == opened(packet),
{
    open_packet(packet)
}

/// The payload of a packet of this protocol version.
pub open spec fn opened(packet: MessagePacket) -> Result<Vec<u8>, VersionMismatch> {
    if packet.version == PROTOCOL_VERSION {
        Ok(packet.payload)
    } else {
        Err(VersionMismatch { got: packet.version })
    }
}

fn open_packet(packet: MessagePacket) -> (r: Result<Vec<u8>, VersionMismatch>)
    ensures
        r == opened(packet),
{
    if packet.version == PROTOCOL_VERSION {
        Ok(packet.payload)
    } else {
        Err(VersionMismatch { got: packet.version })
    }
}

/// Get the platform IPC address.
pub fn get_ipc_path(windows: bool) -> (r: &'static str)
    ensures
        r@ == if windows { r"\\.\pipe\torrentd"@ } else { "/tmp/torrentd.sock"@ },
{
    if windows {
        r"\\.\pipe\torrentd"
    } else {
        "/tmp/torrentd.sock"
    }
}

} // verus!
