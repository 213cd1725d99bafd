//! The UDP tracker protocol: what is sent and what is read.
use vstd::prelude::*;
use vstd::string::*;
use crate::wire::{be32, be32_reads_back, be32_value, be64, push_u32, push_u64, read_u32};

verus! {

/// The number that opens a conversation with a tracker.
pub const PROTOCOL_ID: u64 = 0x0000_0417_2710_1980;

/// A client of UDP trackers.
#[derive(Debug, Clone, Copy, PartialEq, Eq, Structural)]
pub struct TrackerClient;

impl Default for TrackerClient {
    fn default() -> (r: Self)
        ensures
            r == TrackerClient,
    {
        TrackerClient
    }
}

/// Where a peer listens.
#[derive(Debug, Clone, Copy, PartialEq, Eq)]
pub struct PeerAddr {
    pub ip: [u8; 4],
    pub port: u16,
}

/// What a peer address says: the four bytes of the address, and the port.
pub struct PeerAddrView {
    pub ip: Seq<u8>,
    pub port: int,
}

impl PeerAddr {
    pub open spec fn view(&self) -> PeerAddrView {
        PeerAddrView { ip: self.ip@, port: self.port as int }
    }
}

/// Why an answer of a tracker was not accepted.
#[derive(Debug, Clone, Copy, PartialEq, Eq, Structural)]
pub enum TrackerError {
    InvalidConnectResponse,
    AnnounceTooShort,
    InvalidAnnounceResponse,
}

impl TrackerError {
    /// The error in words.
    pub fn message(&self) -> (r: String)
        ensures
            r@ == match self {
                TrackerError::InvalidConnectResponse => "Invalid tracker connect response"@,
                TrackerError::AnnounceTooShort => "Tracker announce response too short"@,
                TrackerError::InvalidAnnounceResponse => "Invalid tracker announce response match"@,
            },
    {
        match self {
            TrackerError::InvalidConnectResponse => String::from_str("Invalid tracker connect response"),
            TrackerError::AnnounceTooShort => String::from_str("Tracker announce response too short"),
            TrackerError::InvalidAnnounceResponse => String::from_str(
                "Invalid tracker announce response match",
            ),
        }
    }
}

/// What a client tells a tracker about itself.
pub struct Announce {
    pub connection_id: [u8; 8],
    pub transaction_id: u32,
    pub info_hash: [u8; 20],
    pub peer_id: [u8; 20],
    /// A number by which the tracker can know the client again.
    pub key: u32,
    pub port: u16,
}

/// A connection request on the wire.
pub open spec fn connect_request_bytes(transaction_id: u32) -> Seq<u8> {
    be64(PROTOCOL_ID as int) + be32(0) + be32(transaction_id as int)
}

/// An announce request on the wire: what was downloaded, what is left and what
/// was uploaded are reported as zero, the event is none, the address is the
/// sender's, the number of peers wanted is up to the tracker, and the port takes
/// four bytes.
pub open spec fn announce_request_bytes(a: Announce) -> Seq<u8> {
    a.connection_id@ + be32(1) + be32(a.transaction_id as int) + a.info_hash@ + a.peer_id@ + be64(0)
        + be64(0) + be64(0) + be32(0) + be32(0) + be32(a.key as int)
        + be32(0xffff_ffff) + be32(a.port as int)
}

/// The connection that a tracker granted.
pub open spec fn granted_connection(response: Seq<u8>, transaction_id: u32) -> Result<
    Seq<u8>,
    TrackerError,
> {
    if be32_value(response.subrange(0, 4)) != 0 || be32_value(response.subrange(4, 8))
        != transaction_id {
        Err(TrackerError::InvalidConnectResponse)
    } else {
        Ok(response.subrange(8, 16))
    }
}

/// The peers in an answer: six bytes each behind twenty; a shorter rest is ignored.
pub open spec fn listed_peers(response: Seq<u8>) -> Seq<PeerAddrView> {
    Seq::new(
        ((response.len() - 20) / 6) as nat,
        |i: int|
            PeerAddrView {
                ip: response.subrange(20 + 6 * i, 24 + 6 * i),
                port: response[24 + 6 * i] * 256 + response[25 + 6 * i],
            },
    )
}

/// The peers that a tracker named.
pub open spec fn announced_peers(response: Seq<u8>, transaction_id: u32) -> Result<
    Seq<PeerAddrView>,
    TrackerError,
> {
    if response.len() < 20 {
        Err(TrackerError::AnnounceTooShort)
    } else if be32_value(response.subrange(0, 4)) != 1 || be32_value(response.subrange(4, 8))
        != transaction_id {
        Err(TrackerError::InvalidAnnounceResponse)
    } else {
        Ok(listed_peers(response))
    }
}

/// What peer addresses say.
pub open spec fn peer_views(peers: Seq<PeerAddr>) -> Seq<PeerAddrView> {
    peers.map_values(|p: PeerAddr| p@)
}

impl TrackerClient {
    pub fn new() -> (r: Self)
        ensures
            r == TrackerClient,
    {
        TrackerClient
    }

    /// What is sent to open a conversation.
    pub fn connect_request(&self, transaction_id: u32) -> (r: Vec<u8>)
        ensures
            r@ == connect_request_bytes(transaction_id),
            r@.len() == 16,
    {
        let mut buf: Vec<u8> = Vec::with_capacity(16);
        push_u64(&mut buf, PROTOCOL_ID);
        push_u32(&mut buf, 0);
        push_u32(&mut buf, transaction_id);
        assert(buf@ =~= connect_request_bytes(transaction_id));
        proof {
            lemma_widths(PROTOCOL_ID as int);
            reveal(be32);
        }
        buf
    }

    /// Reads the answer to a connection request.
    pub fn connection_id(&self, response: &[u8; 16], transaction_id: u32) -> (r: Result<
        [u8; 8],
        TrackerError,
    >)
        ensures
            match granted_connection(response@, transaction_id) {
                Ok(id) => r matches Ok(got) && got@ == id,
                Err(e) => r == Err::<[u8; 8], TrackerError>(e),
            },
    {
        let b = response.as_slice();
        if read_u32(b, 0) != 0 || read_u32(b, 4) != transaction_id {
            return Err(TrackerError::InvalidConnectResponse);
        }
        let mut id: [u8; 8] = [0; 8];
        let mut i: usize = 0;
        while i < 8
            invariant
                i <= 8,
                forall|k: int| 0 <= k < i ==> #[trigger] id@[k] == response@[8 + k],
            decreases 8 - i,
        {
            id[i] = response[8 + i];
            i += 1;
        }
        assert(id@ =~= response@.subrange(8, 16));
        Ok(id)
    }

    /// What is sent to announce a torrent.
    pub fn announce_request(&self, a: &Announce) -> (r: Vec<u8>)
        ensures
            r@ == announce_request_bytes(*a),
            r@.len() == 100,
    {
        let mut buf: Vec<u8> = Vec::with_capacity(100);
        buf.extend_from_slice(a.connection_id.as_slice());
        push_u32(&mut buf, 1);
        push_u32(&mut buf, a.transaction_id);
        buf.extend_from_slice(a.info_hash.as_slice());
        buf.extend_from_slice(a.peer_id.as_slice());
        push_u64(&mut buf, 0);
        push_u64(&mut buf, 0);
        push_u64(&mut buf, 0);
        push_u32(&mut buf, 0);
        push_u32(&mut buf, 0);
        push_u32(&mut buf, a.key);
        push_u32(&mut buf, 0xffff_ffff);
        push_u32(&mut buf, a.port as u32);
        assert(buf@ =~= announce_request_bytes(*a));
        proof {
            lemma_widths(0);
            reveal(be32);
        }
        buf
    }

    /// Reads the answer to an announce request.
    pub fn announced(&self, response: &[u8], transaction_id: u32) -> (r: Result<
        Vec<PeerAddr>,
        TrackerError,
    >)
        ensures
            match announced_peers(response@, transaction_id) {
                Ok(peers) => r matches Ok(got) && peer_views(got@) == peers,
                Err(e) => r == Err::<Vec<PeerAddr>, TrackerError>(e),
            },
    {
        let total: usize = response.len();
        if total < 20 {
            return Err(TrackerError::AnnounceTooShort);
        }
        if read_u32(response, 0) != 1 || read_u32(response, 4) != transaction_id {
            return Err(TrackerError::InvalidAnnounceResponse);
        }
        let count: usize = (total - 20) / 6;
        let mut peers: Vec<PeerAddr> = Vec::new();
        let mut i: usize = 0;
        while i < count
            invariant
                i <= count,
                count == (total - 20) / 6,
                20 <= total == response@.len(),
                peers@.len() == i,
                forall|k: int| 0 <= k < i ==> (#[trigger] peers@[k])@ == listed_peers(response@)[k],
            decreases count - i,
        {
            let at: usize = 20 + 6 * i;
            let peer = PeerAddr {
                ip: [response[at], response[at + 1], response[at + 2], response[at + 3]],
                port: response[at + 4] as u16 * 256 + response[at + 5] as u16,
            };
            assert(peer.ip@ =~= response@.subrange(at as int, at + 4));
            peers.push(peer);
            i += 1;
        }
        assert(peer_views(peers@) =~= listed_peers(response@));
        Ok(peers)
    }
}

/// Some peers on the wire: four bytes of address and two of port each.
pub open spec fn peer_bytes(peers: Seq<PeerAddrView>) -> Seq<u8> {
    Seq::new(
        6 * peers.len(),
        |i: int|
            if i % 6 < 4 {
                peers[i / 6].ip[i % 6]
            } else if i % 6 == 4 {
                (peers[i / 6].port / 256) as u8
            } else {
                (peers[i / 6].port % 256) as u8
            },
    )
}

/// The answer of a tracker that names some peers; what stands before them is not
/// looked at.
pub open spec fn announce_answer(transaction_id: u32, before: Seq<u8>, peers: Seq<PeerAddrView>) -> Seq<u8> {
    be32(1) + be32(transaction_id as int) + before + peer_bytes(peers)
}

/// Where the bytes of peer `i` stand.
proof fn lemma_peer_bytes(peers: Seq<PeerAddrView>, i: int)
    requires
        0 <= i < peers.len(),
    ensures
        forall|k: int| 0 <= k < 4 ==> #[trigger] peer_bytes(peers)[6 * i + k] == peers[i].ip[k],
        peer_bytes(peers)[6 * i + 4] == (peers[i].port / 256) as u8,
        peer_bytes(peers)[6 * i + 5] == (peers[i].port % 256) as u8,
{
    assert forall|k: int| 0 <= k < 4 implies #[trigger] peer_bytes(peers)[6 * i + k] == peers[i].ip[k] by {
        assert((6 * i + k) / 6 == i && (6 * i + k) % 6 == k);
    }
    assert((6 * i + 4) / 6 == i && (6 * i + 4) % 6 == 4);
    assert((6 * i + 5) / 6 == i && (6 * i + 5) % 6 == 5);
}

/// A peer is read back from the bytes behind the first twenty.
proof fn lemma_peer_reads_back(b: Seq<u8>, peers: Seq<PeerAddrView>, i: int)
    requires
        b.len() == 20 + 6 * peers.len(),
        forall|k: int| 0 <= k < 6 * peers.len() ==> b[20 + k] == #[trigger] peer_bytes(peers)[k],
        0 <= i < peers.len(),
        peers[i].ip.len() == 4,
        0 <= peers[i].port < 0x1_0000,
    ensures
        listed_peers(b)[i] == peers[i],
{
    let read = listed_peers(b)[i];
    let port = peers[i].port;
    lemma_peer_bytes(peers, i);
    assert forall|k: int| 0 <= k < 4 implies read.ip[k] == peers[i].ip[k] by {
        assert(b[20 + (6 * i + k)] == peer_bytes(peers)[6 * i + k]);
    }
    assert(read.ip =~= peers[i].ip);
    assert(b[20 + (6 * i + 4)] == peer_bytes(peers)[6 * i + 4]);
    assert(b[20 + (6 * i + 5)] == peer_bytes(peers)[6 * i + 5]);
    assert((port / 256) as u8 == port / 256 && (port % 256) as u8 == port % 256);
}

/// The words that an answer starts with, and what stands behind them.
proof fn lemma_answer_layout(transaction_id: u32, before: Seq<u8>, peers: Seq<PeerAddrView>)
    requires
        before.len() == 12,
    ensures
        ({
            let b = announce_answer(transaction_id, before, peers);
            &&& b.len() == 20 + 6 * peers.len()
            &&& be32_value(b.subrange(0, 4)) == 1
            &&& be32_value(b.subrange(4, 8)) == transaction_id
            &&& forall|k: int| 0 <= k < 6 * peers.len() ==> b[20 + k] == #[trigger] peer_bytes(peers)[k]
        }),
{
    let b = announce_answer(transaction_id, before, peers);
    be32_reads_back(1);
    be32_reads_back(transaction_id);
    assert(b.subrange(0, 4) =~= be32(1));
    assert(b.subrange(4, 8) =~= be32(transaction_id as int));
}

/// The peers that a tracker names are read back from its answer, and an answer
/// to another question is not accepted.
pub proof fn named_peers_are_read_back(
    transaction_id: u32,
    before: Seq<u8>,
    peers: Seq<PeerAddrView>,
    other: u32,
)
    requires
        before.len() == 12,
        forall|i: int| 0 <= i < peers.len() ==> (#[trigger] peers[i]).ip.len() == 4 && 0 <= peers[i].port < 0x1_0000,
        other != transaction_id,
    ensures
        announced_peers(announce_answer(transaction_id, before, peers), transaction_id) == Ok::<
            Seq<PeerAddrView>,
            TrackerError,
        >(peers),
        announced_peers(announce_answer(transaction_id, before, peers), other) == Err::<
            Seq<PeerAddrView>,
            TrackerError,
        >(TrackerError::InvalidAnnounceResponse),
{
    let b = announce_answer(transaction_id, before, peers);
    lemma_answer_layout(transaction_id, before, peers);
    assert forall|i: int| 0 <= i < peers.len() implies listed_peers(b)[i] == peers[i] by {
        assert(peers[i].ip.len() == 4);
        lemma_peer_reads_back(b, peers, i);
    }
    assert(listed_peers(b) =~= peers);
}

proof fn lemma_widths(n: int)
    ensures
        be32(n).len() == 4,
        be64(n).len() == 8,
{
    reveal(be32);
}

/// A number that is hard to guess, from the nanoseconds since some point in
/// time: their lowest 32 bits.
pub fn rand_u32(nanos: u128) -> (r: u32)
    ensures
        r == nanos % 0x1_0000_0000,
{
    (nanos % 0x1_0000_0000) as u32
}

} // verus!
