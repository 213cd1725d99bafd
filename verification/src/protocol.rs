//! The peer wire protocol: handshakes and messages.
use vstd::prelude::*;
use vstd::slice::{slice_subrange, slice_to_vec};
use vstd::string::*;
use crate::bencode::same_bytes;
use crate::wire::{be32, be32_reads_back, be32_value, push_u32, read_20, read_u32};

verus! {

/// The bytes that every handshake starts with: a length and the protocol's name.
pub open spec fn handshake_prefix() -> Seq<u8> {
    seq![19u8] + "BitTorrent protocol".spec_bytes()
}

/// The handshake prefix has twenty bytes.
pub proof fn handshake_prefix_length()
    ensures
        handshake_prefix().len() == 20,
{
    reveal_strlit("BitTorrent protocol");
    is_ascii_spec_bytes("BitTorrent protocol");
}

fn prefix_bytes() -> (r: Vec<u8>)
    ensures
        r@ == handshake_prefix(),
{
    let mut out: Vec<u8> = Vec::with_capacity(20);
    out.push(19);
    out.extend_from_slice("BitTorrent protocol".as_bytes());
    assert(out@ =~= handshake_prefix());
    out
}

/// The first thing that two peers tell each other.
#[derive(Debug, Clone, PartialEq, Eq)]
pub struct Handshake {
    pub info_hash: [u8; 20],
    pub peer_id: [u8; 20],
}

/// What a handshake says.
pub struct HandshakeView {
    pub info_hash: Seq<u8>,
    pub peer_id: Seq<u8>,
}

/// A handshake on the wire: prefix, eight reserved bytes, hash, peer.
pub open spec fn handshake_bytes(h: HandshakeView) -> Seq<u8> {
    handshake_prefix() + seq![0u8, 0, 0, 0, 0, 0, 0, 0] + h.info_hash + h.peer_id
}

/// How far reading a handshake has come.
#[derive(Debug, Clone, PartialEq, Eq)]
pub enum HandshakeStep {
    /// So many more bytes have to be read.
    More(usize),
    /// The handshake is complete.
    Done(Handshake),
    /// The peer speaks another protocol.
    InvalidPrefix,
}

/// Reads a handshake from the bytes received so far. The prefix is judged as
/// soon as it is there.
pub open spec fn is_handshake_step(received: Seq<u8>, step: HandshakeStep) -> bool {
    if received.len() < 20 {
        step == HandshakeStep::More((20 - received.len()) as usize)
    } else if received.subrange(0, 20) != handshake_prefix() {
        step == HandshakeStep::InvalidPrefix
    } else if received.len() < 68 {
        step == HandshakeStep::More((68 - received.len()) as usize)
    } else {
        &&& step matches HandshakeStep::Done(h)
        &&& h@ == (HandshakeView {
            info_hash: received.subrange(28, 48),
            peer_id: received.subrange(48, 68),
        })
    }
}

impl Handshake {
    pub open spec fn view(&self) -> HandshakeView {
        HandshakeView { info_hash: self.info_hash@, peer_id: self.peer_id@ }
    }

    pub fn new(info_hash: [u8; 20], peer_id: [u8; 20]) -> (r: Self)
        ensures
            r.info_hash == info_hash,
            r.peer_id == peer_id,
    {
        Self { info_hash, peer_id }
    }

    /// Writes the handshake.
    pub fn serialize(&self) -> (r: Vec<u8>)
        ensures
            r@ == handshake_bytes(self@),
            r@.len() == 68,
    {
        let mut buf: Vec<u8> = prefix_bytes();
        let reserved: [u8; 8] = [0; 8];
        buf.extend_from_slice(reserved.as_slice());
        buf.extend_from_slice(self.info_hash.as_slice());
        buf.extend_from_slice(self.peer_id.as_slice());
        proof {
            handshake_prefix_length();
        }
        assert(buf@ =~= handshake_bytes(self@));
        buf
    }

    /// Reads a handshake from the bytes received so far, or tells how many
    /// bytes to read next.
    pub fn read(received: &[u8]) -> (r: HandshakeStep)
        ensures
            is_handshake_step(received@, r),
    {
        let total: usize = received.len();
        if total < 20 {
            return HandshakeStep::More(20 - total);
        }
        let prefix = prefix_bytes();
        if !same_bytes(slice_subrange(received, 0, 20), prefix.as_slice()) {
            return HandshakeStep::InvalidPrefix;
        }
        if total < 68 {
            return HandshakeStep::More(68 - total);
        }
        HandshakeStep::Done(
            Handshake { info_hash: read_20(received, 28), peer_id: read_20(received, 48) },
        )
    }
}

/// A handshake is read back from what was written, and from nothing shorter.
pub proof fn handshake_reads_back(h: HandshakeView, step: HandshakeStep, n: int)
    requires
        h.info_hash.len() == 20,
        h.peer_id.len() == 20,
        0 <= n <= 68,
        is_handshake_step(handshake_bytes(h).take(n), step),
    ensures
        handshake_bytes(h).len() == 68,
        n == 68 ==> (step matches HandshakeStep::Done(g) && g@ == h),
        n < 68 ==> (step matches HandshakeStep::More(k) && 0 < k <= 68 - n),
{
    handshake_prefix_length();
    let all = handshake_bytes(h);
    let got = all.take(n);
    if n >= 20 {
        assert(got.subrange(0, 20) =~= handshake_prefix());
    }
    if n == 68 {
        assert(got.subrange(28, 48) =~= h.info_hash);
        assert(got.subrange(48, 68) =~= h.peer_id);
    }
}

/// While a handshake comes in, what is asked for next never goes beyond it.
pub proof fn handshake_reads_in_parts(h: HandshakeView, upto: int, step: HandshakeStep)
    requires
        h.info_hash.len() == 20,
        h.peer_id.len() == 20,
        0 <= upto < handshake_bytes(h).len(),
        is_handshake_step(handshake_bytes(h).take(upto), step),
    ensures
        step matches HandshakeStep::More(n) && 0 < n && upto + n <= handshake_bytes(h).len(),
{
    handshake_prefix_length();
    if upto >= 20 {
        assert(handshake_bytes(h).take(upto).subrange(0, 20) =~= handshake_prefix());
    }
}

/// A message from one peer to another.
#[derive(Debug, Clone, PartialEq, Eq)]
pub enum PeerMessage {
    KeepAlive,
    Choke,
    Unchoke,
    Interested,
    NotInterested,
    Have { index: u32 },
    Bitfield(Vec<u8>),
    Request { index: u32, begin: u32, length: u32 },
    Piece { index: u32, begin: u32, block: Vec<u8> },
    Cancel { index: u32, begin: u32, length: u32 },
}

/// What a message says.
pub enum Message {
    KeepAlive,
    Choke,
    Unchoke,
    Interested,
    NotInterested,
    Have { index: u32 },
    Bitfield(Seq<u8>),
    Request { index: u32, begin: u32, length: u32 },
    Piece { index: u32, begin: u32, block: Seq<u8> },
    Cancel { index: u32, begin: u32, length: u32 },
}

/// A message on the wire: its length in four bytes (what does not fit there
/// falls away), its number, its fields.
pub open spec fn message_bytes(m: Message) -> Seq<u8> {
    match m {
        Message::KeepAlive => be32(0),
        Message::Choke => be32(1).push(0),
        Message::Unchoke => be32(1).push(1),
        Message::Interested => be32(1).push(2),
        Message::NotInterested => be32(1).push(3),
        Message::Have { index } => be32(5).push(4) + be32(index as int),
        Message::Bitfield(bits) => be32((1 + bits.len() as int) % 0x1_0000_0000).push(5) + bits,
        Message::Request { index, begin, length } => be32(13).push(6) + be32(index as int) + be32(
            begin as int,
        ) + be32(length as int),
        Message::Piece { index, begin, block } => be32((9 + block.len() as int) % 0x1_0000_0000).push(7)
            + be32(index as int) + be32(begin as int) + block,
        Message::Cancel { index, begin, length } => be32(13).push(8) + be32(index as int) + be32(
            begin as int,
        ) + be32(length as int),
    }
}

/// How far reading a message has come.
#[derive(Debug, Clone, PartialEq, Eq)]
pub enum ReadStep {
    /// So many more bytes have to be read.
    More(u64),
    /// The message is complete.
    Done(PeerMessage),
    /// No message has this number.
    UnknownId(u8),
}

/// What reading a message from some bytes comes to.
pub enum Reading {
    /// The message takes at least this many bytes in all.
    Needs(int),
    /// The message takes up this many bytes.
    Done(Message, int),
    UnknownId(u8),
    /// The length of a piece leaves no room for its index and offset.
    Fault,
}

/// Reads a message from the bytes received so far. Only a bitfield and a piece
/// go by the length; the others have the length that their number implies.
pub open spec fn reading(b: Seq<u8>) -> Reading {
    if b.len() < 4 {
        Reading::Needs(4)
    } else {
        let len = be32_value(b.subrange(0, 4));
        if len == 0 {
            Reading::Done(Message::KeepAlive, 4)
        } else if b.len() < 5 {
            Reading::Needs(5)
        } else if b[4] == 0 {
            Reading::Done(Message::Choke, 5)
        } else if b[4] == 1 {
            Reading::Done(Message::Unchoke, 5)
        } else if b[4] == 2 {
            Reading::Done(Message::Interested, 5)
        } else if b[4] == 3 {
            Reading::Done(Message::NotInterested, 5)
        } else if b[4] == 4 {
            if b.len() < 9 {
                Reading::Needs(9)
            } else {
                Reading::Done(
                    Message::Have { index: be32_value(b.subrange(5, 9)) as u32 },
                    9,
                )
            }
        } else if b[4] == 5 {
            if b.len() < 4 + len {
                Reading::Needs(4 + len)
            } else {
                Reading::Done(Message::Bitfield(b.subrange(5, 4 + len)), 4 + len)
            }
        } else if b[4] == 6 || b[4] == 8 {
            if b.len() < 17 {
                Reading::Needs(17)
            } else {
                let index = be32_value(b.subrange(5, 9)) as u32;
                let begin = be32_value(b.subrange(9, 13)) as u32;
                let length = be32_value(b.subrange(13, 17)) as u32;
                if b[4] == 6 {
                    Reading::Done(Message::Request { index, begin, length }, 17)
                } else {
                    Reading::Done(Message::Cancel { index, begin, length }, 17)
                }
            }
        } else if b[4] == 7 {
            if b.len() < 13 {
                Reading::Needs(13)
            } else if len < 9 {
                Reading::Fault
            } else if b.len() < 4 + len {
                Reading::Needs(4 + len)
            } else {
                Reading::Done(
                    Message::Piece {
                        index: be32_value(b.subrange(5, 9)) as u32,
                        begin: be32_value(b.subrange(9, 13)) as u32,
                        block: b.subrange(13, 4 + len),
                    },
                    4 + len,
                )
            }
        } else {
            Reading::UnknownId(b[4])
        }
    }
}

impl PeerMessage {
    pub open spec fn view(&self) -> Message {
        match self {
            PeerMessage::KeepAlive => Message::KeepAlive,
            PeerMessage::Choke => Message::Choke,
            PeerMessage::Unchoke => Message::Unchoke,
            PeerMessage::Interested => Message::Interested,
            PeerMessage::NotInterested => Message::NotInterested,
            PeerMessage::Have { index } => Message::Have { index: *index },
            PeerMessage::Bitfield(bits) => Message::Bitfield(bits@),
            PeerMessage::Request { index, begin, length } => Message::Request {
                index: *index,
                begin: *begin,
                length: *length,
            },
            PeerMessage::Piece { index, begin, block } => Message::Piece {
                index: *index,
                begin: *begin,
                block: block@,
            },
            PeerMessage::Cancel { index, begin, length } => Message::Cancel {
                index: *index,
                begin: *begin,
                length: *length,
            },
        }
    }

    /// Writes the message.
    pub fn serialize(&self) -> (r: Vec<u8>)
        ensures
            r@ == message_bytes(self@),
    {
        let mut buf: Vec<u8> = Vec::new();
        match self {
            PeerMessage::KeepAlive => {
                push_u32(&mut buf, 0);
            },
            PeerMessage::Choke => {
                push_u32(&mut buf, 1);
                buf.push(0);
            },
            PeerMessage::Unchoke => {
                push_u32(&mut buf, 1);
                buf.push(1);
            },
            PeerMessage::Interested => {
                push_u32(&mut buf, 1);
                buf.push(2);
            },
            PeerMessage::NotInterested => {
                push_u32(&mut buf, 1);
                buf.push(3);
            },
            PeerMessage::Have { index } => {
                push_u32(&mut buf, 5);
                buf.push(4);
                push_u32(&mut buf, *index);
            },
            PeerMessage::Bitfield(bits) => {
                push_u32(&mut buf, frame_length(1, bits.len()));
                buf.push(5);
                buf.extend_from_slice(bits.as_slice());
            },
            PeerMessage::Request { index, begin, length } => {
                push_u32(&mut buf, 13);
                buf.push(6);
                push_u32(&mut buf, *index);
                push_u32(&mut buf, *begin);
                push_u32(&mut buf, *length);
            },
            PeerMessage::Piece { index, begin, block } => {
                push_u32(&mut buf, frame_length(9, block.len()));
                buf.push(7);
                push_u32(&mut buf, *index);
                push_u32(&mut buf, *begin);
                buf.extend_from_slice(block.as_slice());
            },
            PeerMessage::Cancel { index, begin, length } => {
                push_u32(&mut buf, 13);
                buf.push(8);
                push_u32(&mut buf, *index);
                push_u32(&mut buf, *begin);
                push_u32(&mut buf, *length);
            },
        }
        assert(buf@ =~= message_bytes(self@));
        buf
    }

    /// Whether the bytes received so far announce a piece that is too short
    /// to hold its own index and offset: `read` is not defined on them.
    pub fn piece_too_short(received: &[u8]) -> (r: bool)
        ensures
            r == (reading(received@) is Fault),
    {
        received.len() >= 13 && received[4] == 7 && {
            let len: u32 = read_u32(received, 0);
            len != 0 && len < 9
        }
    }

    /// Reads a message from the bytes received so far, or tells how many bytes
    /// to read next.
    pub fn read(received: &[u8]) -> (r: ReadStep)
        requires
            !(reading(received@) is Fault),
        ensures
            match reading(received@) {
                Reading::Needs(n) => r == ReadStep::More((n - received@.len()) as u64),
                Reading::Done(m, _) => r matches ReadStep::Done(message) && message@ == m,
                Reading::UnknownId(id) => r == ReadStep::UnknownId(id),
                Reading::Fault => false,
            },
    {
        let total: usize = received.len();
        if total < 4 {
            return ReadStep::More(4 - total as u64);
        }
        let len: u32 = read_u32(received, 0);
        if len == 0 {
            return ReadStep::Done(PeerMessage::KeepAlive);
        }
        if total < 5 {
            return ReadStep::More(1);
        }
        let id: u8 = received[4];
        if id == 0 {
            ReadStep::Done(PeerMessage::Choke)
        } else if id == 1 {
            ReadStep::Done(PeerMessage::Unchoke)
        } else if id == 2 {
            ReadStep::Done(PeerMessage::Interested)
        } else if id == 3 {
            ReadStep::Done(PeerMessage::NotInterested)
        } else if id == 4 {
            if total < 9 {
                return ReadStep::More(9 - total as u64);
            }
            ReadStep::Done(PeerMessage::Have { index: read_u32(received, 5) })
        } else if id == 5 {
            let needed: u64 = 4 + len as u64;
            if (total as u64) < needed {
                return ReadStep::More(needed - total as u64);
            }
            ReadStep::Done(
                PeerMessage::Bitfield(slice_to_vec(slice_subrange(received, 5, needed as usize))),
            )
        } else if id == 6 || id == 8 {
            if total < 17 {
                return ReadStep::More(17 - total as u64);
            }
            let index: u32 = read_u32(received, 5);
            let begin: u32 = read_u32(received, 9);
            let length: u32 = read_u32(received, 13);
            if id == 6 {
                ReadStep::Done(PeerMessage::Request { index, begin, length })
            } else {
                ReadStep::Done(PeerMessage::Cancel { index, begin, length })
            }
        } else if id == 7 {
            if total < 13 {
                return ReadStep::More(13 - total as u64);
            }
            let needed: u64 = 4 + len as u64;
            if (total as u64) < needed {
                return ReadStep::More(needed - total as u64);
            }
            ReadStep::Done(
                PeerMessage::Piece {
                    index: read_u32(received, 5),
                    begin: read_u32(received, 9),
                    block: slice_to_vec(slice_subrange(received, 13, needed as usize)),
                },
            )
        } else {
            ReadStep::UnknownId(id)
        }
    }
}

/// The length of a message whose payload has `len` bytes besides `fixed` others.
fn frame_length(fixed: u32, len: usize) -> (r: u32)
    ensures
        r == (fixed + len) % 0x1_0000_0000,
{
    let wide: u128 = fixed as u128 + len as u128;
    (wide % 0x1_0000_0000) as u32
}

/// Whether the length of a message fits in the four bytes that it has.
pub open spec fn length_fits(m: Message) -> bool {
    match m {
        Message::Bitfield(bits) => 1 + bits.len() < 0x1_0000_0000,
        Message::Piece { block, .. } => 9 + block.len() < 0x1_0000_0000,
        _ => true,
    }
}

/// A message is read back from what was written, whatever follows it.
pub proof fn message_reads_back(m: Message, rest: Seq<u8>)
    requires
        length_fits(m),
    ensures
        reading(message_bytes(m) + rest) == Reading::Done(m, message_bytes(m).len() as int),
{
    let w = message_bytes(m);
    let b = w + rest;
    match m {
        Message::KeepAlive => {
            be32_reads_back(0);
            assert(b.subrange(0, 4) =~= be32(0));
        },
        Message::Have { index } => {
            be32_reads_back(5);
            be32_reads_back(index);
            assert(b.subrange(0, 4) =~= be32(5));
            assert(b.subrange(5, 9) =~= be32(index as int));
        },
        Message::Bitfield(bits) => {
            be32_reads_back((1 + bits.len()) as u32);
            assert(b.subrange(0, 4) =~= be32(1 + bits.len() as int));
            assert(b.subrange(5, 5 + bits.len() as int) =~= bits);
        },
        Message::Request { index, begin, length } | Message::Cancel { index, begin, length } => {
            be32_reads_back(13);
            be32_reads_back(index);
            be32_reads_back(begin);
            be32_reads_back(length);
            assert(b.subrange(0, 4) =~= be32(13));
            assert(b.subrange(5, 9) =~= be32(index as int));
            assert(b.subrange(9, 13) =~= be32(begin as int));
            assert(b.subrange(13, 17) =~= be32(length as int));
        },
        Message::Piece { index, begin, block } => {
            be32_reads_back((9 + block.len()) as u32);
            be32_reads_back(index);
            be32_reads_back(begin);
            assert(b.subrange(0, 4) =~= be32(9 + block.len() as int));
            assert(b.subrange(5, 9) =~= be32(index as int));
            assert(b.subrange(9, 13) =~= be32(begin as int));
            assert(b.subrange(13, 13 + block.len() as int) =~= block);
        },
        _ => {
            be32_reads_back(1);
            assert(b.subrange(0, 4) =~= be32(1));
        },
    }
}

/// From the beginning of what was written, reading never completes, never
/// fails, and never asks for more bytes than there are to come.
pub proof fn message_reads_in_parts(m: Message, n: int)
    requires
        length_fits(m),
        0 <= n < message_bytes(m).len(),
    ensures
        reading(message_bytes(m).take(n)) matches Reading::Needs(k) && n < k <= message_bytes(m).len(),
{
    let w = message_bytes(m);
    let b = w.take(n);
    message_reads_back(m, seq![]);
    assert(w + Seq::<u8>::empty() =~= w);
    if n >= 4 {
        assert(b.subrange(0, 4) =~= w.subrange(0, 4));
    }
}

} // verus!
