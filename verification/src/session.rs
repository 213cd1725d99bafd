//! What is said to a peer, message by message.
use vstd::prelude::*;
use crate::meta::{InfoDict, InfoView};
use crate::piece::{bit_share, marked, packed, packed_byte};
use crate::protocol::{Message, PeerMessage};
use crate::state::{with_block, without_blocks, TorrentState};
use crate::storage::{mode_size, smaller};

verus! {

/// The most bytes that are asked for at once.
pub const BLOCK_LENGTH: u32 = 16384;

/// How the bytes of a torrent are divided into pieces.
#[derive(Debug, Clone, Copy, PartialEq, Eq)]
pub struct PieceLayout {
    pub piece_length: u64,
    pub total_pieces: u32,
    pub total_size: u64,
}

impl PieceLayout {
    /// The length of a piece as far as it fits into a message.
    pub open spec fn short_length(&self) -> int {
        self.piece_length as int % 0x1_0000_0000
    }
}

/// The layout that the metainfo says.
pub open spec fn layout_of(info: InfoView) -> PieceLayout {
    PieceLayout {
        piece_length: info.piece_length,
        total_pieces: (info.pieces.len() as int % 0x1_0000_0000) as u32,
        total_size: mode_size(info.mode) as u64,
    }
}

/// `a - b`, and nothing below zero.
pub open spec fn minus(a: int, b: int) -> int {
    if a >= b {
        a - b
    } else {
        0
    }
}

/// The piece that is fetched from a peer, and how much of it has come in.
#[derive(Debug, Clone, Copy, PartialEq, Eq, Structural)]
pub struct PeerSession {
    pub piece_index: u32,
    pub block_offset: u32,
    /// Whether there is nothing to fetch from this peer.
    pub is_complete: bool,
}

/// How many bytes to ask for: at most a block, and what the piece and the
/// torrent still have.
pub open spec fn request_length(l: PieceLayout, piece: int, offset: int) -> int {
    smaller(
        smaller(BLOCK_LENGTH as int, minus(l.total_size as int, piece * l.short_length() + offset)),
        l.short_length() - offset,
    )
}

/// What to ask for next.
pub open spec fn next_request(s: PeerSession, l: PieceLayout) -> Option<Message> {
    let length = request_length(l, s.piece_index as int, s.block_offset as int);
    if !s.is_complete && length > 0 {
        Some(Message::Request { index: s.piece_index, begin: s.block_offset, length: length as u32 })
    } else {
        None
    }
}

/// What is to be done about a message.
#[derive(Debug, Clone, PartialEq, Eq)]
pub enum Reaction {
    Nothing,
    Send(PeerMessage),
    /// The block is to be written where it belongs in the torrent.
    Store { offset: u64 },
    /// So many bytes are to be read from there and sent as a block.
    Serve { offset: u64, length: u32 },
}

/// What a `Reaction` says.
pub enum Reply {
    Nothing,
    Send(Message),
    Store { offset: int },
    Serve { offset: int, length: int },
}

impl Reaction {
    pub open spec fn view(&self) -> Reply {
        match self {
            Reaction::Nothing => Reply::Nothing,
            Reaction::Send(m) => Reply::Send(m@),
            Reaction::Store { offset } => Reply::Store { offset: *offset as int },
            Reaction::Serve { offset, length } => Reply::Serve { offset: *offset as int, length: *length as int },
        }
    }
}

/// What is to be done about a message from a peer.
pub open spec fn reply_to(s: PeerSession, l: PieceLayout, have: Seq<bool>, m: Message) -> Reply {
    match m {
        Message::Unchoke => match next_request(s, l) {
            Some(request) => Reply::Send(request),
            None => Reply::Nothing,
        },
        Message::Piece { index, begin, .. } => Reply::Store { offset: index * l.piece_length + begin },
        Message::Interested => Reply::Send(Message::Unchoke),
        Message::Request { index, begin, length } => if index < have.len() && have[index as int] {
            Reply::Serve { offset: index * l.short_length() + begin, length: length as int }
        } else {
            Reply::Nothing
        },
        _ => Reply::Nothing,
    }
}

/// The message that answers a request with a block.
pub open spec fn answer_to(m: Message, block: Seq<u8>) -> Option<Message> {
    match m {
        Message::Request { index, begin, .. } => Some(Message::Piece { index, begin, block }),
        _ => None,
    }
}

/// How much of a piece makes it complete.
pub open spec fn target_size(l: PieceLayout, piece: int) -> int {
    if piece == l.total_pieces - 1 {
        minus(l.total_size as int, piece * l.short_length()) % 0x1_0000_0000
    } else {
        l.short_length()
    }
}

/// How much of the piece has come in after a block of `len` bytes.
pub open spec fn offset_after(s: PeerSession, len: int) -> int {
    s.block_offset + len % 0x1_0000_0000
}

/// Whether a block of `len` bytes makes the piece complete.
pub open spec fn finishes(s: PeerSession, l: PieceLayout, len: int) -> bool {
    offset_after(s, len) >= target_size(l, s.piece_index as int)
}

/// The session after a block of `len` bytes was stored: the next missing piece
/// is taken up where the piece is complete.
pub open spec fn session_after(s: PeerSession, l: PieceLayout, missing: Seq<u32>, len: int) -> PeerSession {
    if !finishes(s, l, len) {
        PeerSession { block_offset: offset_after(s, len) as u32, ..s }
    } else if missing.len() > 0 {
        PeerSession { piece_index: missing[0], block_offset: 0, is_complete: false }
    } else {
        PeerSession { block_offset: offset_after(s, len) as u32, is_complete: true, ..s }
    }
}

/// Whether the numbers that a message leads to can be held: what is asked for
/// starts within the piece, and a block has a place that is a 64-bit number.
pub open spec fn may_react(s: PeerSession, l: PieceLayout, m: Message) -> bool {
    match m {
        Message::Unchoke => s.is_complete || s.block_offset <= l.short_length(),
        Message::Piece { index, begin, .. } => index * l.piece_length + begin <= u64::MAX,
        _ => true,
    }
}

/// Whether the numbers that a block of `len` bytes leads to can be held.
pub open spec fn may_store(s: PeerSession, l: PieceLayout, missing: Seq<u32>, downloaded: int, len: int) -> bool {
    let after = session_after(s, l, missing, len);
    &&& l.total_pieces > 0
    &&& downloaded + len <= u64::MAX
    &&& offset_after(s, len) <= u32::MAX
    &&& after.is_complete || after.block_offset <= l.short_length()
}

/// What follows from a block that was stored.
pub struct Stored {
    /// The piece that is complete now, of which every peer is to be told.
    pub finished: Option<u32>,
    /// What to ask for next.
    pub request: Option<PeerMessage>,
}

/// What an optional message says.
pub open spec fn optional_message(m: Option<PeerMessage>) -> Option<Message> {
    match m {
        Some(message) => Some(message@),
        None => None,
    }
}

impl InfoDict {
    /// How the torrent is divided into pieces.
    pub fn layout(&self) -> (r: PieceLayout)
        requires
            mode_size(self@.mode) <= u64::MAX,
        ensures
            r == layout_of(self@),
    {
        PieceLayout {
            piece_length: self.piece_length,
            total_pieces: (self.pieces.len() as u64 % 0x1_0000_0000) as u32,
            total_size: self.mode.total_size(),
        }
    }
}

impl PeerSession {
    /// Nothing is fetched yet.
    pub fn new() -> (r: Self)
        ensures
            r == (PeerSession { piece_index: 0, block_offset: 0, is_complete: true }),
    {
        PeerSession { piece_index: 0, block_offset: 0, is_complete: true }
    }

    /// Takes up the first missing piece, if there is one.
    pub fn claim(&mut self, missing: &mut Vec<u32>)
        ensures
            old(missing)@.len() > 0 ==> *final(self) == (PeerSession {
                piece_index: old(missing)@[0],
                is_complete: false,
                ..*old(self)
            }) && final(missing)@ == old(missing)@.skip(1),
            old(missing)@.len() == 0 ==> *final(self) == *old(self) && final(missing)@ == old(missing)@,
    {
        if missing.len() > 0 {
            self.piece_index = missing.remove(0);
            self.is_complete = false;
            assert(missing@ =~= old(missing)@.skip(1));
        }
    }

    /// How many bytes to ask for.
    fn request_length(&self, l: &PieceLayout) -> (r: u32)
        requires
            self.block_offset <= l.short_length(),
        ensures
            r == request_length(*l, self.piece_index as int, self.block_offset as int),
    {
        let short: u64 = l.piece_length % 0x1_0000_0000;
        proof {
            lemma_offset_fits(self.piece_index as int, short as int, self.block_offset as int);
        }
        let position: u64 = self.piece_index as u64 * short + self.block_offset as u64;
        let in_torrent: u64 = l.total_size.saturating_sub(position);
        let in_piece: u64 = short - self.block_offset as u64;
        let mut length: u64 = BLOCK_LENGTH as u64;
        if in_torrent < length {
            length = in_torrent;
        }
        if in_piece < length {
            length = in_piece;
        }
        length as u32
    }

    /// What to ask for next.
    pub fn next_request(&self, l: &PieceLayout) -> (r: Option<PeerMessage>)
        requires
            !self.is_complete ==> self.block_offset <= l.short_length(),
        ensures
            optional_message(r) == next_request(*self, *l),
    {
        if self.is_complete {
            return None;
        }
        let length: u32 = self.request_length(l);
        if length > 0 {
            Some(PeerMessage::Request { index: self.piece_index, begin: self.block_offset, length })
        } else {
            None
        }
    }

    /// Whether the numbers that a message leads to can be held.
    pub fn can_react(&self, l: &PieceLayout, message: &PeerMessage) -> (r: bool)
        ensures
            r == may_react(*self, *l, message@),
    {
        match message {
            PeerMessage::Unchoke => self.is_complete || self.block_offset as u64 <= l.piece_length % 0x1_0000_0000,
            PeerMessage::Piece { index, begin, .. } => {
                proof {
                    lemma_place_fits(*index as int, l.piece_length as int, *begin as int);
                }
                let place: u128 = *index as u128 * l.piece_length as u128 + *begin as u128;
                place <= 0xffff_ffff_ffff_ffff
            },
            _ => true,
        }
    }

    /// Whether the numbers that a block of `len` bytes leads to can be held.
    pub fn can_store(&self, l: &PieceLayout, len: usize, state: &TorrentState, missing: &Vec<u32>) -> (r: bool)
        ensures
            r == may_store(*self, *l, missing@, state.downloaded as int, len as int),
    {
        let offset: u64 = self.block_offset as u64 + len as u64 % 0x1_0000_0000;
        if l.total_pieces == 0 || state.downloaded as u128 + len as u128 > 0xffff_ffff_ffff_ffff || offset
            > 0xffff_ffff {
            return false;
        }
        let short: u64 = l.piece_length % 0x1_0000_0000;
        if offset >= self.target_size(l) {
            true
        } else {
            self.is_complete || offset <= short
        }
    }

    /// How much of the piece makes it complete.
    fn target_size(&self, l: &PieceLayout) -> (r: u64)
        requires
            l.total_pieces > 0,
        ensures
            r == target_size(*l, self.piece_index as int),
    {
        let short: u64 = l.piece_length % 0x1_0000_0000;
        if self.piece_index == l.total_pieces - 1 {
            proof {
                lemma_offset_fits(self.piece_index as int, short as int, 0);
            }
            l.total_size.saturating_sub(self.piece_index as u64 * short) % 0x1_0000_0000
        } else {
            short
        }
    }

    /// What is to be done about a message from the peer.
    pub fn react(&self, l: &PieceLayout, have: &Vec<bool>, message: &PeerMessage) -> (r: Reaction)
        requires
            may_react(*self, *l, message@),
        ensures
            r@ == reply_to(*self, *l, have@, message@),
    {
        match message {
            PeerMessage::Unchoke => match self.next_request(l) {
                Some(request) => Reaction::Send(request),
                None => Reaction::Nothing,
            },
            PeerMessage::Piece { index, begin, .. } => {
                assert(*index as int * l.piece_length <= u64::MAX);
                assert(*index as int * l.piece_length >= 0) by (nonlinear_arith);
                Reaction::Store { offset: *index as u64 * l.piece_length + *begin as u64 }
            },
            PeerMessage::Interested => Reaction::Send(PeerMessage::Unchoke),
            PeerMessage::Request { index, begin, length } => {
                let i: usize = *index as usize;
                if i < have.len() && have[i] {
                    let short: u64 = l.piece_length % 0x1_0000_0000;
                    proof {
                        lemma_offset_fits(*index as int, short as int, *begin as int);
                    }
                    Reaction::Serve { offset: *index as u64 * short + *begin as u64, length: *length }
                } else {
                    Reaction::Nothing
                }
            },
            _ => Reaction::Nothing,
        }
    }

    /// The message that answers a request with the block that was read for it; no
    /// other message is answered with a block.
    pub fn serve(request: &PeerMessage, block: Vec<u8>) -> (r: Option<PeerMessage>)
        ensures
            optional_message(r) == answer_to(request@, block@),
    {
        match request {
            PeerMessage::Request { index, begin, .. } => Some(
                PeerMessage::Piece { index: *index, begin: *begin, block },
            ),
            _ => None,
        }
    }

    /// A block of the piece was stored.
    pub fn block_stored(
        &mut self,
        l: &PieceLayout,
        len: usize,
        state: &mut TorrentState,
        have: &mut Vec<bool>,
        missing: &mut Vec<u32>,
    ) -> (r: Stored)
        requires
            may_store(*old(self), *l, old(missing)@, old(state).downloaded as int, len as int),
        ensures
            *final(self) == session_after(*old(self), *l, old(missing)@, len as int),
            final(state)@ == with_block(old(state)@, len as int),
            r.finished == if finishes(*old(self), *l, len as int) {
                Some(old(self).piece_index)
            } else {
                None::<u32>
            },
            final(have)@ == if finishes(*old(self), *l, len as int) {
                marked(old(have)@, old(self).piece_index as int, true)
            } else {
                old(have)@
            },
            final(missing)@ == if finishes(*old(self), *l, len as int) && old(missing)@.len() > 0 {
                old(missing)@.skip(1)
            } else {
                old(missing)@
            },
            optional_message(r.request) == next_request(*final(self), *l),
    {
        state.block_received(len as u64);
        let more: u32 = (len as u64 % 0x1_0000_0000) as u32;
        self.block_offset = self.block_offset + more;
        let target: u64 = self.target_size(l);
        let mut finished: Option<u32> = None;
        if self.block_offset as u64 >= target {
            self.is_complete = true;
            finished = Some(self.piece_index);
            let i: usize = self.piece_index as usize;
            if i < have.len() {
                have.set(i, true);
            }
            if missing.len() > 0 {
                self.piece_index = missing.remove(0);
                self.block_offset = 0;
                self.is_complete = false;
                assert(missing@ =~= old(missing)@.skip(1));
            }
        }
        let request = self.next_request(l);
        Stored { finished, request }
    }

    /// The connection to the peer has ended: a piece that is not complete is
    /// missing again.
    pub fn give_up(&self, state: &mut TorrentState, missing: &mut Vec<u32>)
        ensures
            self.is_complete ==> final(state)@ == old(state)@ && final(missing)@ == old(missing)@,
            !self.is_complete ==> final(state)@ == without_blocks(old(state)@, self.block_offset as int)
                && final(missing)@ == old(missing)@.push(self.piece_index),
    {
        if !self.is_complete {
            state.piece_given_up(self.block_offset);
            missing.push(self.piece_index);
        }
    }
}

proof fn lemma_offset_fits(piece: int, length: int, offset: int)
    by (nonlinear_arith)
    requires
        0 <= piece <= 0xffff_ffff,
        0 <= length <= 0xffff_ffff,
        0 <= offset <= 0xffff_ffff,
    ensures
        0 <= piece * length,
        piece * length + offset <= 0xffff_ffff_ffff_ffff,
{
}

proof fn lemma_place_fits(piece: int, length: int, offset: int)
    by (nonlinear_arith)
    requires
        0 <= piece <= 0xffff_ffff,
        0 <= length <= 0xffff_ffff_ffff_ffff,
        0 <= offset <= 0xffff_ffff,
    ensures
        0 <= piece * length,
        piece * length + offset <= 0xffff_ffff_ffff_ffff_ffff_ffff_ffff_ffff,
{
}

/// What bit `i` adds to its byte.
fn share(have: &Vec<bool>, at: usize, k: usize, weight: u8) -> (r: u8)
    requires
        at <= have@.len(),
        k < 8,
        at % 8 == 0,
        weight == crate::piece::bit_weight(k as int),
    ensures
        r == bit_share(have@, at + k),
{
    if k < have.len() - at && have[at + k] {
        weight
    } else {
        0
    }
}

/// The pieces that are here as the bytes of a bitfield.
pub fn have_bytes(have: &Vec<bool>) -> (r: Vec<u8>)
    ensures
        r@ == packed(have@),
{
    let total: usize = have.len();
    let mut bytes: Vec<u8> = Vec::new();
    let mut at: usize = 0;
    while at < total
        invariant
            total == have@.len(),
            at == total || at % 8 == 0,
            at <= total,
            bytes@.len() == (at + 7) / 8,
            forall|j: int| 0 <= j < bytes@.len() ==> #[trigger] bytes@[j] == packed_byte(have@, 8 * j),
        decreases total - at,
    {
        let s0: u8 = share(have, at, 0, 128);
        let s1: u8 = share(have, at, 1, 64);
        let s2: u8 = share(have, at, 2, 32);
        let s3: u8 = share(have, at, 3, 16);
        let s4: u8 = share(have, at, 4, 8);
        let s5: u8 = share(have, at, 5, 4);
        let s6: u8 = share(have, at, 6, 2);
        let s7: u8 = share(have, at, 7, 1);
        bytes.push(s0 + s1 + s2 + s3 + s4 + s5 + s6 + s7);
        at = if total - at <= 8 {
            total
        } else {
            at + 8
        };
    }
    assert(bytes@ =~= packed(have@));
    bytes
}

/// What a peer is told first: what is here, that more is wanted, and that it may
/// ask.
pub fn opening_messages(have: &Vec<bool>) -> (r: Vec<PeerMessage>)
    ensures
        r@.len() == 3,
        r@[0]@ == Message::Bitfield(packed(have@)),
        r@[1]@ == Message::Interested,
        r@[2]@ == Message::Unchoke,
{
    let mut messages: Vec<PeerMessage> = Vec::new();
    messages.push(PeerMessage::Bitfield(have_bytes(have)));
    messages.push(PeerMessage::Interested);
    messages.push(PeerMessage::Unchoke);
    messages
}

} // verus!
