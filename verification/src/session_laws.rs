//! What holds of the talk with a peer as a whole.
use vstd::multiset::Multiset;
use vstd::prelude::*;
use crate::meta::InfoView;
use crate::piece::marked;
use crate::protocol::Message;
use crate::session::{
    answer_to, finishes, layout_of, may_react, may_store, next_request, reply_to, request_length, session_after,
    target_size, PeerSession, PieceLayout, Reply, BLOCK_LENGTH,
};
use crate::storage::{file_lengths, mode_size, read_plan, smaller, write_plan};
use crate::storage_laws::{
    a_write_changes_its_range_alone, gathered, is_complete, lemma_whole_length, read_gives_back_what_was_written,
    torrent_bytes, write_changes_the_range, written,
};

verus! {

/// Whether the pieces divide the bytes of a torrent as they should: every piece
/// but the last is of full length, and the last is neither empty nor longer.
pub open spec fn is_proper(l: PieceLayout) -> bool {
    &&& l.total_pieces > 0
    &&& l.piece_length < 0x1_0000_0000
    &&& (l.total_pieces - 1) * l.piece_length < l.total_size <= l.total_pieces * l.piece_length
}

/// Whether a session either has nothing to fetch or is in the midst of a piece.
pub open spec fn is_in_step(s: PeerSession, l: PieceLayout) -> bool {
    s.is_complete || (s.piece_index < l.total_pieces && s.block_offset < target_size(l, s.piece_index as int))
}

/// What is asked for is not empty, and is a block or as much of one as the piece
/// and the torrent still have: it lies within both.
pub proof fn requests_stay_within(s: PeerSession, l: PieceLayout)
    ensures
        next_request(s, l) matches Some(m) ==> (m matches Message::Request { index, begin, length } && {
            &&& index == s.piece_index
            &&& begin == s.block_offset
            &&& 0 < length <= BLOCK_LENGTH
            &&& BLOCK_LENGTH == 16384
            &&& begin + length <= l.short_length()
            &&& index * l.short_length() + begin + length <= l.total_size
            &&& length == smaller(
                BLOCK_LENGTH as int,
                smaller(l.short_length() - begin, l.total_size - (index * l.short_length() + begin)),
            )
            &&& length == 16384 || begin + length == l.short_length() || index * l.short_length() + begin + length
                == l.total_size
        }),
{
}

/// Nothing is asked for only where there is nothing to fetch, or the piece or the
/// torrent has no more bytes.
pub proof fn nothing_is_asked_for_only_at_an_end(s: PeerSession, l: PieceLayout)
    ensures
        next_request(s, l) is None <==> s.is_complete || s.block_offset >= l.short_length() || s.piece_index
            * l.short_length() + s.block_offset >= l.total_size,
{
}

/// The length of a piece is what it is where it fits into four bytes; otherwise
/// what does not fit falls away.
pub proof fn short_lengths(l: PieceLayout)
    ensures
        0 <= l.short_length() < 0x1_0000_0000,
        l.piece_length < 0x1_0000_0000 ==> l.short_length() == l.piece_length,
        (l.piece_length - l.short_length()) % 0x1_0000_0000 == 0,
{
}

/// The layout of a torrent is what its metainfo says.
pub proof fn the_layout_of_a_torrent(info: InfoView)
    requires
        info.pieces.len() <= u32::MAX,
        0 <= mode_size(info.mode) <= u64::MAX,
    ensures
        layout_of(info).piece_length == info.piece_length,
        layout_of(info).total_pieces == info.pieces.len(),
        layout_of(info).total_size == mode_size(info.mode),
{
}

/// A block that comes in is stored where it belongs in the torrent, whatever the
/// session fetches: as far behind the beginning of its piece as it says, and every
/// piece has its own place.
pub proof fn a_block_is_stored_where_it_belongs(
    s: PeerSession,
    l: PieceLayout,
    have: Seq<bool>,
    index: u32,
    begin: u32,
    block: Seq<u8>,
)
    ensures
        reply_to(s, l, have, Message::Piece { index, begin, block }) matches Reply::Store { offset } && offset == index
            * l.piece_length + begin,
{
}

/// Blocks that follow each other in a piece are stored one behind the other, and
/// the first block of a piece behind the last of the piece before. So a piece whose
/// blocks have all come in stands in the torrent block by block.
pub proof fn blocks_are_stored_one_behind_the_other(
    s: PeerSession,
    t: PeerSession,
    l: PieceLayout,
    have: Seq<bool>,
    more: Seq<bool>,
    index: u32,
    begin: u32,
    block: Seq<u8>,
    next: Seq<u8>,
)
    requires
        begin + block.len() <= u32::MAX,
    ensures
        ({
            let first = reply_to(s, l, have, Message::Piece { index, begin, block });
            let second = reply_to(t, l, more, Message::Piece { index, begin: (begin + block.len()) as u32, block: next });
            first is Store && second is Store && second->Store_offset == first->Store_offset + block.len()
        }),
        index < u32::MAX && begin + block.len() == l.piece_length ==> ({
            let last = reply_to(s, l, have, Message::Piece { index, begin, block });
            let first = reply_to(t, l, more, Message::Piece { index: (index + 1) as u32, begin: 0, block: next });
            last is Store && first is Store && first->Store_offset == last->Store_offset + block.len()
        }),
        reply_to(s, l, have, Message::Piece { index: 0, begin: 0, block }) == (Reply::Store { offset: 0 }),
{
    assert((index + 1) * l.piece_length == index * l.piece_length + l.piece_length) by (nonlinear_arith);
    assert(0 * l.piece_length == 0) by (nonlinear_arith);
}

/// A block is served from where it was stored: a request for the same index and
/// beginning reads at the place at which the block was written.
pub proof fn a_block_is_served_from_where_it_was_stored(
    s: PeerSession,
    t: PeerSession,
    l: PieceLayout,
    have: Seq<bool>,
    later: Seq<bool>,
    index: u32,
    begin: u32,
    length: u32,
    block: Seq<u8>,
)
    requires
        l.piece_length < 0x1_0000_0000,
        index < later.len(),
        later[index as int],
    ensures
        ({
            let stored = reply_to(s, l, have, Message::Piece { index, begin, block });
            let served = reply_to(t, l, later, Message::Request { index, begin, length });
            stored is Store && served is Serve && served->Serve_offset == stored->Store_offset && served->Serve_length
                == length
        }),
{
}

/// The bytes of a torrent in which a block was stored where the reaction to it says:
/// the block stands where its piece begins and as far behind as it says, every other
/// byte is as it was, and a later request for the block is served with it.
pub proof fn a_stored_block_stands_in_its_place(
    s: PeerSession,
    t: PeerSession,
    info: InfoView,
    present: Seq<bool>,
    disk: Seq<Seq<u8>>,
    have: Seq<bool>,
    index: u32,
    begin: u32,
    block: Seq<u8>,
)
    requires
        is_complete(disk, present, file_lengths(info.mode)),
        info.piece_length < 0x1_0000_0000,
        index * info.piece_length + begin + block.len() <= mode_size(info.mode),
        block.len() <= u32::MAX,
        index < have.len(),
        have[index as int],
    ensures
        ({
            let l = layout_of(info);
            let start = index * info.piece_length + begin;
            let stored = reply_to(s, l, have, Message::Piece { index, begin, block });
            let served = reply_to(t, l, have, Message::Request { index, begin, length: block.len() as u32 });
            let after = written(disk, write_plan(info.mode, present, stored->Store_offset, block.len() as int), block);
            &&& stored is Store
            &&& torrent_bytes(after).len() == torrent_bytes(disk).len() == mode_size(info.mode)
            &&& forall|k: int|
                0 <= k < mode_size(info.mode) ==> #[trigger] torrent_bytes(after)[k] == if start <= k < start
                    + block.len() {
                    block[k - start]
                } else {
                    torrent_bytes(disk)[k]
                }
            &&& served is Serve
            &&& read_plan(info.mode, present, served->Serve_offset, served->Serve_length) matches Some(plan)
                && gathered(after, plan) == block
        }),
{
    let l = layout_of(info);
    let start = index * info.piece_length + begin;
    assert(0 <= start) by (nonlinear_arith)
        requires
            start == index * info.piece_length + begin,
            index >= 0,
            begin >= 0,
            info.piece_length >= 0,
    ;
    a_block_is_stored_where_it_belongs(s, l, have, index, begin, block);
    a_block_is_served_from_where_it_was_stored(s, t, l, have, have, index, begin, block.len() as u32, block);
    read_gives_back_what_was_written(info.mode, present, disk, start, block);
    let after = written(disk, write_plan(info.mode, present, start, block.len() as int), block);
    assert forall|k: int| 0 <= k < mode_size(info.mode) implies #[trigger] torrent_bytes(after)[k] == if start <= k
        < start + block.len() {
        block[k - start]
    } else {
        torrent_bytes(disk)[k]
    } by {
        a_write_changes_its_range_alone(info.mode, present, disk, start, block, k);
    }
    lemma_whole_length(disk, present, info.mode);
    write_changes_the_range(info.mode, present, disk, start, block);
    lemma_whole_length(after, present, info.mode);
}

/// What every other message comes to: a peer that lets itself be asked is asked, a
/// peer that wants to ask may, and of the rest no notice is taken.
pub proof fn other_messages(s: PeerSession, l: PieceLayout, have: Seq<bool>, m: Message)
    ensures
        reply_to(s, l, have, Message::Interested) == Reply::Send(Message::Unchoke),
        match reply_to(s, l, have, Message::Unchoke) {
            Reply::Send(request) => next_request(s, l) == Some(request),
            Reply::Nothing => next_request(s, l) is None,
            _ => false,
        },
        m is KeepAlive || m is Choke || m is NotInterested || m is Have || m is Bitfield || m is Cancel
            ==> reply_to(s, l, have, m) is Nothing,
        reply_to(s, l, have, m) is Store <==> m is Piece,
{
}

/// Every message can be handled but for two: an invitation to ask where the session
/// stands behind the end of its piece, and a block whose place is no 64-bit number.
pub proof fn what_can_be_handled(s: PeerSession, l: PieceLayout, m: Message)
    ensures
        may_react(s, l, Message::Unchoke) <==> s.is_complete || s.block_offset <= l.short_length(),
        m matches Message::Piece { index, begin, .. } ==> (may_react(s, l, m) <==> index * l.piece_length + begin
            < 0x1_0000_0000_0000_0000),
        !(m is Unchoke) && !(m is Piece) ==> may_react(s, l, m),
{
}

/// A piece is complete when as many bytes of it have come in as it has: every piece
/// but the last is of full length, and the last has what the others leave.
pub proof fn a_piece_is_complete_when_it_is_all_there(l: PieceLayout, piece: int)
    requires
        is_proper(l),
        0 <= piece < l.total_pieces,
    ensures
        piece < l.total_pieces - 1 ==> target_size(l, piece) == l.piece_length,
        piece == l.total_pieces - 1 ==> target_size(l, piece) == l.total_size - piece * l.piece_length,
        0 < target_size(l, piece) <= l.piece_length,
{
    lemma_targets(l, piece);
}

/// What makes a piece complete, whatever the layout: the last piece of a torrent has
/// what the others leave, if anything, and any other the full length.
pub proof fn what_makes_a_piece_complete(l: PieceLayout, piece: int)
    requires
        0 <= piece,
    ensures
        piece != l.total_pieces - 1 ==> target_size(l, piece) == l.short_length(),
        piece == l.total_pieces - 1 ==> {
            let before = piece * l.short_length();
            &&& l.total_size <= before ==> target_size(l, piece) == 0
            &&& before <= l.total_size < before + 0x1_0000_0000 ==> target_size(l, piece) == l.total_size - before
        },
        0 <= target_size(l, piece) < 0x1_0000_0000,
{
}

/// A block brings the session forward by its length, whatever the length: within
/// the piece while the piece is not complete, and otherwise to the beginning of the
/// first piece that is missing, or to where there is nothing to fetch.
pub proof fn a_block_brings_the_session_forward(s: PeerSession, l: PieceLayout, missing: Seq<u32>, len: int)
    requires
        0 <= len,
        s.block_offset + len <= u32::MAX,
    ensures
        ({
            let after = session_after(s, l, missing, len);
            let target = target_size(l, s.piece_index as int);
            &&& finishes(s, l, len) <==> s.block_offset + len >= target
            &&& s.block_offset + len < target ==> after.piece_index == s.piece_index && after.block_offset
                == s.block_offset + len && after.is_complete == s.is_complete
            &&& s.block_offset + len >= target && missing.len() > 0 ==> after.piece_index == missing[0]
                && after.block_offset == 0 && !after.is_complete
            &&& s.block_offset + len >= target && missing.len() == 0 ==> after.is_complete && after.piece_index
                == s.piece_index && after.block_offset == s.block_offset + len
        }),
{
}

/// A block can be stored where there are pieces, its bytes can be counted, and the
/// session does not get behind the end of a piece that is not complete.
pub proof fn what_can_be_stored(s: PeerSession, l: PieceLayout, missing: Seq<u32>, downloaded: int, len: int)
    requires
        0 <= len,
        s.block_offset + len <= u32::MAX,
        l.total_pieces > 0,
        downloaded + len < 0x1_0000_0000_0000_0000,
        s.is_complete || s.block_offset + len <= l.short_length() || s.block_offset + len >= target_size(
            l,
            s.piece_index as int,
        ),
    ensures
        may_store(s, l, missing, downloaded, len),
{
    short_lengths(l);
}

/// The pieces of a proper layout are not empty.
proof fn lemma_targets(l: PieceLayout, piece: int)
    requires
        is_proper(l),
        0 <= piece < l.total_pieces,
    ensures
        l.short_length() == l.piece_length,
        0 < target_size(l, piece) <= l.piece_length,
        piece * l.piece_length + target_size(l, piece) <= l.total_size,
        piece == l.total_pieces - 1 ==> target_size(l, piece) == l.total_size - piece * l.piece_length,
{
    let length = l.piece_length as int;
    let n = l.total_pieces as int;
    assert((n - 1) * length == n * length - length) by (nonlinear_arith);
    if piece < n - 1 {
        assert(piece * length + length <= (n - 1) * length) by (nonlinear_arith)
            requires
                piece < n - 1,
                0 <= length,
        ;
        assert(length > 0);
    }
}

/// While a piece is incomplete there is something to ask for, and what is asked
/// for does not go beyond the piece.
pub proof fn an_incomplete_piece_has_a_request(s: PeerSession, l: PieceLayout)
    requires
        is_proper(l),
        is_in_step(s, l),
        !s.is_complete,
    ensures
        next_request(s, l) matches Some(m) && (m matches Message::Request { index, begin, length } && {
            &&& index == s.piece_index
            &&& begin == s.block_offset
            &&& begin + length <= target_size(l, index as int)
        }),
{
    lemma_targets(l, s.piece_index as int);
}

/// A peer that sends exactly what it was asked for brings the session forward:
/// the block can be stored, the piece is complete when its last block is in, and
/// the session stays in step.
pub proof fn an_answered_request_is_progress(
    s: PeerSession,
    l: PieceLayout,
    missing: Seq<u32>,
    downloaded: int,
    length: int,
)
    requires
        is_proper(l),
        is_in_step(s, l),
        !s.is_complete,
        length == request_length(l, s.piece_index as int, s.block_offset as int),
        0 <= downloaded <= l.total_size,
        downloaded + length <= u64::MAX,
        forall|k: int| 0 <= k < missing.len() ==> #[trigger] missing[k] < l.total_pieces,
    ensures
        length > 0,
        may_store(s, l, missing, downloaded, length),
        finishes(s, l, length) <==> s.block_offset + length == target_size(l, s.piece_index as int),
        !finishes(s, l, length) ==> session_after(s, l, missing, length) == (PeerSession {
            block_offset: (s.block_offset + length) as u32,
            ..s
        }),
        is_in_step(session_after(s, l, missing, length), l),
        may_react(session_after(s, l, missing, length), l, Message::Unchoke),
{
    lemma_targets(l, s.piece_index as int);
    an_incomplete_piece_has_a_request(s, l);
    if finishes(s, l, length) && missing.len() > 0 {
        assert(missing[0] < l.total_pieces);
        lemma_targets(l, missing[0] as int);
    }
}

/// A piece that is taken up and given up again is missing as it was before.
pub proof fn given_up_is_missing_again(missing: Seq<u32>)
    requires
        missing.len() > 0,
    ensures
        missing.skip(1).push(missing[0]).to_multiset() == missing.to_multiset(),
{
    let rest = missing.skip(1);
    assert(missing =~= seq![missing[0]] + rest);
    assert(rest.push(missing[0]) =~= rest + seq![missing[0]]);
    vstd::seq_lib::lemma_multiset_commutative(seq![missing[0]], rest);
    vstd::seq_lib::lemma_multiset_commutative(rest, seq![missing[0]]);
    assert(seq![missing[0]].to_multiset().add(rest.to_multiset()) =~= rest.to_multiset().add(
        seq![missing[0]].to_multiset(),
    ));
}

/// The pieces that are missing or being fetched from a peer.
pub open spec fn in_play(missing: Seq<u32>, s: PeerSession) -> Multiset<u32> {
    if s.is_complete {
        missing.to_multiset()
    } else {
        missing.to_multiset().insert(s.piece_index)
    }
}

/// No piece is lost and none is fetched twice: taking up a piece and giving one
/// up leave the pieces in play as they were, and a block takes a piece out of
/// play exactly when it makes it complete.
pub proof fn no_piece_is_lost(s: PeerSession, l: PieceLayout, missing: Seq<u32>, len: int)
    ensures
        missing.len() > 0 && s.is_complete ==> in_play(
            missing.skip(1),
            PeerSession { piece_index: missing[0], is_complete: false, ..s },
        ) == in_play(missing, s),
        !s.is_complete ==> missing.push(s.piece_index).to_multiset() == in_play(missing, s),
        !s.is_complete && !finishes(s, l, len) ==> in_play(missing, session_after(s, l, missing, len)) == in_play(
            missing,
            s,
        ),
        !s.is_complete && finishes(s, l, len) ==> in_play(
            if missing.len() > 0 {
                missing.skip(1)
            } else {
                missing
            },
            session_after(s, l, missing, len),
        ).insert(s.piece_index) == in_play(missing, s),
{
    missing.to_multiset_ensures();
    if missing.len() > 0 {
        let rest = missing.skip(1);
        rest.to_multiset_ensures();
        given_up_is_missing_again(missing);
        assert(rest.push(missing[0]).to_multiset() =~= rest.to_multiset().insert(missing[0]));
        assert(rest.to_multiset().insert(missing[0]) == missing.to_multiset());
    }
}

/// A piece that is here stays here.
pub proof fn what_is_here_stays(have: Seq<bool>, piece: int, i: int)
    requires
        0 <= i < have.len(),
        have[i],
    ensures
        marked(have, piece, true).len() == have.len(),
        marked(have, piece, true)[i],
{
}

/// A peer is served exactly what is here: a request for a piece that is here, and
/// nothing else. What is read for it starts where it says and is as long as it
/// says, and goes out as a block with its index and its beginning.
pub proof fn only_what_is_here_is_served(
    s: PeerSession,
    l: PieceLayout,
    have: Seq<bool>,
    m: Message,
    block: Seq<u8>,
)
    ensures
        reply_to(s, l, have, m) is Serve <==> (m matches Message::Request { index, .. } && index < have.len()
            && have[index as int]),
        reply_to(s, l, have, m) matches Reply::Serve { offset, length: served } ==> (m matches Message::Request {
            index,
            begin,
            length,
        } && {
            &&& offset == index * l.short_length() + begin
            &&& served == length
            &&& answer_to(m, block) == Some(Message::Piece { index, begin, block })
        }),
        answer_to(m, block) is Some <==> m is Request,
        !(reply_to(s, l, have, m) matches Reply::Send(Message::Piece { .. })),
{
}

} // verus!
