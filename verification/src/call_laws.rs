//! What calls come to, and how what one call leaves behind meets the next.
use vstd::prelude::*;
use vstd::string::*;
use vstd::utf8::{decode_utf8, valid_utf8};
use crate::announce::{AnnounceAction, AnnounceAnswer, AnnounceRound};
use crate::bencode::{parse_value, well_formed, Bencode, BencodeError, Step};
use crate::bencode_laws::decode_undoes_encode;
use crate::config::{Config, ConfigFile, LoadedConfig};
use crate::creator::{create_torrent, PieceHasher};
use crate::digest::sha1_digest;
use crate::engine::{PieceCheck, TorrentDownloader};
use crate::ids::{InfoHash, TorrentId};
use crate::magnet::{decode_hex, hex_value, magnet_of, MagnetError, MagnetLink, MagnetView};
use crate::meta::{file_views, FileMode, InfoDict, MetaError, TorrentFile, TorrentMeta};
use crate::meta_laws::the_hash_is_that_of_the_bytes_read;
use crate::paths::{file_entry, path_before, path_before_total, path_views, sort_files};
use crate::persist::{load_state, save_state};
use crate::piece::{verify_piece, Bitfield, PiecePicker};
use crate::protocol::{reading, Handshake, HandshakeStep, Message, PeerMessage, ReadStep, Reading};
use crate::rpc::{read_packet, send_request, send_response, PacketStep, VersionMismatch};
use crate::server::RpcServer;
use crate::session::{opening_messages, PeerSession, PieceLayout, Reaction, Stored};
use crate::state::TorrentState;
use crate::storage_laws::a_torrent_is_as_long_as_its_files;
use crate::table::IdTable;
use crate::text::decimal_text;
use crate::tracker::{rand_u32, TrackerError};
use crate::worker::MagnetWorker;

verus! {

/// A block that comes in is to be stored at the beginning of its piece and as far
/// behind as it says.
pub proof fn a_piece_message_is_stored_in_its_place(
    s: &PeerSession,
    l: &PieceLayout,
    have: &Vec<bool>,
    message: &PeerMessage,
    r: Reaction,
)
    requires
        call_ensures(PeerSession::react, (s, l, have, message), r),
    ensures
        *message matches PeerMessage::Piece { index, begin, .. } ==> (r matches Reaction::Store { offset } && offset
            == index * l.piece_length + begin),
        r is Store ==> message is Piece,
        r matches Reaction::Serve { offset, length } ==> (*message matches PeerMessage::Request {
            index,
            begin,
            length: wanted,
        } && length == wanted && index < have@.len() && have@[index as int] && (l.piece_length < 0x1_0000_0000 ==> offset
            == index * l.piece_length + begin)),
        *message matches PeerMessage::Request { index, .. } ==> index < have@.len() && have@[index as int] ==> r is Serve,
{
    crate::session_laws::short_lengths(*l);
}

/// A request is served with the block under the same index and beginning.
pub proof fn a_request_is_served_with_its_block(request: &PeerMessage, block: Vec<u8>, r: Option<PeerMessage>)
    requires
        call_ensures(PeerSession::serve, (request, block), r),
    ensures
        match r {
            Some(PeerMessage::Piece { index, begin, block: sent }) => sent@ == block@ && (
            *request matches PeerMessage::Request { index: i, begin: b, .. } && index == i && begin == b),
            Some(_) => false,
            None => !(request is Request),
        },
{
}

/// A session that starts fetches nothing, and what it claims is the first of the
/// missing pieces, which is missing no more.
pub proof fn a_claim_takes_the_first_missing_piece(s: &mut PeerSession, missing: &mut Vec<u32>, r: ())
    requires
        call_ensures(PeerSession::claim, (s, missing), r),
    ensures
        old(missing)@.len() > 0 ==> {
            &&& final(s).piece_index == old(missing)@[0]
            &&& !final(s).is_complete
            &&& final(s).block_offset == old(s).block_offset
            &&& old(missing)@ == seq![final(s).piece_index] + final(missing)@
        },
        old(missing)@.len() == 0 ==> *final(s) == *old(s) && final(missing)@.len() == 0,
{
    if old(missing)@.len() > 0 {
        assert(old(missing)@ =~= seq![old(missing)@[0]] + old(missing)@.skip(1));
    }
}

/// A session that starts fetches nothing.
pub proof fn a_session_starts_with_nothing(r: PeerSession)
    requires
        call_ensures(PeerSession::new, (), r),
    ensures
        r.is_complete,
        r.block_offset == 0,
        r.piece_index == 0,
{
}

/// A block that was stored is counted. Where it makes its piece complete, that piece is
/// told and is here, no other changes, and the first missing one is taken up;
/// otherwise nothing else changes.
pub proof fn what_a_stored_block_changes(
    s: &mut PeerSession,
    l: &PieceLayout,
    len: usize,
    state: &mut TorrentState,
    have: &mut Vec<bool>,
    missing: &mut Vec<u32>,
    r: Stored,
)
    requires
        call_ensures(PeerSession::block_stored, (s, l, len, state, have, missing), r),
        old(s).block_offset + len <= u32::MAX,
        old(state).downloaded + len <= u64::MAX,
    ensures
        ({
            let piece = old(s).piece_index;
            let finished = old(s).block_offset + len >= crate::session::target_size(*l, piece as int);
            &&& r.finished == if finished {
                Some(piece)
            } else {
                None::<u32>
            }
            &&& final(have)@.len() == old(have)@.len()
            &&& forall|i: int|
                0 <= i < old(have)@.len() ==> #[trigger] final(have)@[i] == (old(have)@[i] || (finished && i == piece))
            &&& finished && old(missing)@.len() > 0 ==> final(missing)@ == old(missing)@.skip(1) && final(s).piece_index
                == old(missing)@[0] && final(s).block_offset == 0 && !final(s).is_complete
            &&& finished && old(missing)@.len() == 0 ==> final(missing)@.len() == 0 && final(s).is_complete
            &&& !finished ==> final(missing)@ == old(missing)@ && final(s).piece_index == piece && final(s).block_offset
                == old(s).block_offset + len
            &&& final(state).size == old(state).size
            &&& final(state).downloaded == if old(state).downloaded + len <= old(state).size {
                old(state).downloaded + len
            } else {
                old(state).size as int
            }
            &&& final(s).is_complete ==> r.request is None
        }),
{
    crate::session_laws::a_block_brings_the_session_forward(*old(s), *l, old(missing)@, len as int);
}

/// A piece that is given up is missing again, behind the others, and its bytes are
/// taken off; a session that fetches nothing gives nothing up.
pub proof fn what_giving_up_changes(s: &PeerSession, state: &mut TorrentState, missing: &mut Vec<u32>, r: ())
    requires
        call_ensures(PeerSession::give_up, (s, state, missing), r),
    ensures
        s.is_complete ==> final(state)@ == old(state)@ && final(missing)@ == old(missing)@,
        !s.is_complete ==> {
            &&& final(missing)@.len() == old(missing)@.len() + 1
            &&& final(missing)@.last() == s.piece_index
            &&& final(missing)@.drop_last() == old(missing)@
            &&& s.block_offset <= old(state).downloaded ==> final(state).downloaded == old(state).downloaded
                - s.block_offset
            &&& s.block_offset > old(state).downloaded ==> final(state).downloaded == 0
        },
{
    if !s.is_complete {
        assert(final(missing)@.drop_last() =~= old(missing)@);
    }
}

/// A peer is told what is here, that more is wanted, and that it may ask.
pub proof fn what_a_peer_is_told_first(have: &Vec<bool>, r: Vec<PeerMessage>)
    requires
        call_ensures(opening_messages, (have,), r),
    ensures
        r@.len() == 3,
        r@[0]@ matches Message::Bitfield(bytes) && crate::piece::unpacked(bytes).take(have@.len() as int) == have@,
        r@[1]@ == Message::Interested,
        r@[2]@ == Message::Unchoke,
{
    crate::piece_laws::packed_reads_back(have@);
}

/// A peer is accepted exactly where all twenty bytes of its hash are those of the
/// torrent.
pub proof fn only_the_same_torrent_is_accepted(d: &TorrentDownloader, h: &Handshake, r: bool)
    requires
        call_ensures(TorrentDownloader::accepts, (d, h), r),
    ensures
        r <==> forall|i: int| 0 <= i < 20 ==> h.info_hash@[i] == #[trigger] d.meta.info_hash.0@[i],
{
    if forall|i: int| 0 <= i < 20 ==> h.info_hash@[i] == #[trigger] d.meta.info_hash.0@[i] {
        assert(h.info_hash@ =~= d.meta.info_hash.0@);
    }
}

/// The handshake that is sent is accepted by whoever has the same torrent, and names
/// the sender.
pub proof fn a_handshake_is_accepted_by_the_same_torrent(
    d: &TorrentDownloader,
    other: &TorrentDownloader,
    h: Handshake,
    r: bool,
)
    requires
        call_ensures(TorrentDownloader::handshake, (d,), h),
        call_ensures(TorrentDownloader::accepts, (other, &h), r),
    ensures
        h.peer_id@ == d.peer_id@,
        r <==> d.meta.info_hash.0@ == other.meta.info_hash.0@,
{
}

/// A handshake is read back from what was sent.
pub proof fn a_handshake_that_is_sent_is_read(h: &Handshake, sent: Vec<u8>, got: &[u8], step: HandshakeStep)
    requires
        call_ensures(Handshake::serialize, (h,), sent),
        got@ == sent@,
        call_ensures(Handshake::read, (got,), step),
    ensures
        step matches HandshakeStep::Done(g) && g.info_hash@ == h.info_hash@ && g.peer_id@ == h.peer_id@,
{
    assert(sent@.take(68) =~= sent@);
    crate::protocol::handshake_reads_back(h@, step, 68);
}

/// A message is read back from what was sent, whatever follows.
pub proof fn a_message_that_is_sent_is_read(
    m: &PeerMessage,
    sent: Vec<u8>,
    rest: Seq<u8>,
    got: &[u8],
    step: ReadStep,
)
    requires
        call_ensures(PeerMessage::serialize, (m,), sent),
        crate::protocol::length_fits(m@),
        got@ == sent@ + rest,
        call_ensures(PeerMessage::read, (got,), step),
    ensures
        step matches ReadStep::Done(read) && read@ == m@,
{
    crate::protocol::message_reads_back(m@, rest);
}

/// What a check has found is taken over: the flags as they are, the pieces that are not
/// marked as missing, and their number and that of all.
pub proof fn what_a_check_hands_over(
    d: &mut TorrentDownloader,
    completed: Vec<bool>,
    state: &mut TorrentState,
    r: (usize, usize),
)
    requires
        call_ensures(TorrentDownloader::verify_and_resume, (d, completed, state), r),
        completed@.len() <= u32::MAX,
    ensures
        final(d).have_pieces@ == completed@,
        forall|i: int|
            0 <= i < completed@.len() ==> (!#[trigger] completed@[i] <==> final(d).missing_pieces@.contains(i as u32)),
        forall|j: int, k: int|
            0 <= j < k < final(d).missing_pieces@.len() ==> final(d).missing_pieces@[j] < final(d).missing_pieces@[k],
        forall|k: int|
            0 <= k < final(d).missing_pieces@.len() ==> (#[trigger] final(d).missing_pieces@[k]) < completed@.len(),
        r.0 + final(d).missing_pieces@.len() == r.1,
        r.1 == completed@.len(),
        final(d).meta == old(d).meta,
        final(d).id == old(d).id,
        final(d).peer_id == old(d).peer_id,
        final(d).download_dir == old(d).download_dir,
        final(state).id == old(state).id,
        final(state).size == old(state).size,
        final(state).uploaded == old(state).uploaded,
        final(state).peers_connected == old(state).peers_connected,
{
    let n = completed@.len() as int;
    crate::engine::missing_is_what_is_not_done(completed@, n);
    assert(completed@.take(n) =~= completed@);
    let missing = final(d).missing_pieces@;
    assert forall|i: int| 0 <= i < n implies (!#[trigger] completed@[i] <==> missing.contains(i as u32)) by {
        if missing.contains(i as u32) {
            let k = choose|k: int| 0 <= k < missing.len() && missing[k] == i as u32;
            assert(!completed@[missing[k] as int]);
        }
    }
}

/// A download starts with nothing here and nothing asked for, and so does a check.
pub proof fn a_download_starts_with_nothing(
    id: TorrentId,
    meta: TorrentMeta,
    download_dir: String,
    peer_id: [u8; 20],
    d: TorrentDownloader,
    check: PieceCheck,
)
    requires
        call_ensures(TorrentDownloader::new, (id, meta, download_dir, peer_id), d),
        call_ensures(TorrentDownloader::verify_pieces, (&d,), check),
    ensures
        d.id == id,
        d.meta == meta,
        d.download_dir@ == download_dir@,
        d.peer_id == peer_id,
        d.missing_pieces@.len() == 0,
        d.have_pieces@.len() == meta.info.pieces@.len(),
        forall|i: int| 0 <= i < d.have_pieces@.len() ==> !#[trigger] d.have_pieces@[i],
        check@.next == 0,
        check@.completed.len() == meta.info.pieces@.len(),
        forall|i: int| 0 <= i < check@.completed.len() ==> !#[trigger] check@.completed[i],
{
}

/// A piece that was read is noted as intact exactly where its bytes have the digest
/// that is named for it, and no other piece is touched.
pub proof fn what_a_check_notes(check: &mut PieceCheck, info: &InfoDict, data: Option<&Vec<u8>>, r: ())
    requires
        call_ensures(PieceCheck::record, (check, info, data), r),
        0 <= old(check)@.next < old(check)@.completed.len() == info.pieces@.len(),
    ensures
        final(check)@.next == old(check)@.next + 1,
        final(check)@.completed.len() == old(check)@.completed.len(),
        final(check)@.completed[old(check)@.next] == (data matches Some(bytes) && sha1_digest(bytes@)
            == info.pieces@[old(check)@.next]@),
        forall|i: int|
            0 <= i < old(check)@.completed.len() && i != old(check)@.next ==> #[trigger] final(check)@.completed[i]
                == old(check)@.completed[i],
{
    assert(info@.pieces[old(check)@.next] == info.pieces@[old(check)@.next]@);
}

/// The range of each piece begins as many bytes behind the start as the pieces before
/// it have, and reaches up to the next piece or the end.
pub proof fn what_a_check_reads_next(check: &PieceCheck, info: &InfoDict, r: Option<(u64, u64)>)
    requires
        call_ensures(PieceCheck::next_range, (check, info), r),
    ensures
        r matches Some((start, len)) ==> {
            &&& 0 <= check@.next < info.pieces@.len()
            &&& start == check@.next * info.piece_length
            &&& len <= info.piece_length
            &&& start + len <= crate::storage::mode_size(info@.mode)
            &&& len == info.piece_length || start + len == crate::storage::mode_size(info@.mode)
        },
        r is None ==> !(0 <= check@.next < info.pieces@.len()) || check@.next * info.piece_length
            >= crate::storage::mode_size(info@.mode),
{
    crate::engine_laws::pieces_lie_one_behind_the_other(info@, check@.next);
}

/// A peer that joins is counted, and no longer counted once it has left; the count
/// does not go below zero, and nothing else changes.
pub proof fn peers_come_and_go(a: &mut TorrentState, b: &mut TorrentState, c: &mut TorrentState, r: (), q: (), p: ())
    requires
        old(a).peers_connected < usize::MAX,
        call_ensures(TorrentState::peer_joined, (a,), r),
        *old(b) == *final(a),
        call_ensures(TorrentState::peer_left, (b,), q),
        call_ensures(TorrentState::peer_left, (c,), p),
    ensures
        final(a).peers_connected == old(a).peers_connected + 1,
        final(b)@ == old(a)@,
        old(c).peers_connected == 0 ==> final(c)@ == old(c)@,
        old(c).peers_connected > 0 ==> final(c).peers_connected == old(c).peers_connected - 1,
{
}

/// Blocks that are served add up, and nothing else changes.
pub proof fn uploads_add_up(a: &mut TorrentState, b: &mut TorrentState, m: u32, n: u32, r: (), q: ())
    requires
        old(a).uploaded + m + n <= u64::MAX,
        call_ensures(TorrentState::block_served, (a, m), r),
        *old(b) == *final(a),
        call_ensures(TorrentState::block_served, (b, n), q),
    ensures
        final(b).uploaded == old(a).uploaded + m + n,
        final(b).downloaded == old(a).downloaded,
        final(b).status@ == old(a).status@,
        final(b).size == old(a).size,
        final(b).peers_connected == old(a).peers_connected,
        final(b).id == old(a).id,
{
}

/// What is left and what is here make the whole.
pub proof fn what_is_left_and_what_is_here_make_the_whole(s: &TorrentState, r: i64)
    requires
        s.downloaded <= s.size,
        call_ensures(TorrentState::left, (s,), r),
    ensures
        s.size - s.downloaded < 0x8000_0000_0000_0000 ==> r + s.downloaded == s.size,
        s.size - s.downloaded >= 0x8000_0000_0000_0000 ==> r + s.downloaded == s.size - 0x1_0000_0000_0000_0000,
{
}

/// A bit that was set is read back, and no other has changed; a piece that there is not
/// is not noted.
pub proof fn a_bit_that_was_set_is_read_back(
    b: &mut Bitfield,
    i: usize,
    value: bool,
    r: (),
    k: usize,
    before: Option<bool>,
    after: Option<bool>,
)
    requires
        call_ensures(Bitfield::get, (&*old(b), k), before),
        call_ensures(Bitfield::set, (b, i, value), r),
        call_ensures(Bitfield::get, (&*final(b), k), after),
    ensures
        k != i ==> after == before,
        k == i && before is Some ==> after == Some(value),
        before is None ==> after is None,
        before is None <==> k >= old(b)@.len(),
{
}

/// The bits of bytes are the first of them, in order, at most as many as are asked for
/// and as there are; a new field has as many as are asked for, and none is set.
pub proof fn the_first_bits_are_read(bytes: Vec<u8>, n: usize, r: Bitfield, none: Bitfield)
    requires
        call_ensures(Bitfield::from_bytes, (bytes, n), r),
        call_ensures(Bitfield::new, (n,), none),
    ensures
        n <= 8 * bytes@.len() ==> r@.len() == n,
        n > 8 * bytes@.len() ==> r@.len() == 8 * bytes@.len(),
        forall|j: int, k: int|
            0 <= k < 8 && 0 <= 8 * j + k < r@.len() ==> r@[8 * j + k] == #[trigger] crate::piece::bit_of(bytes@[j], k),
        none@.len() == n,
        forall|i: int| 0 <= i < n ==> !#[trigger] none@[i],
{
    assert forall|j: int, k: int| 0 <= k < 8 && 0 <= 8 * j + k < r@.len() implies r@[8 * j + k]
        == #[trigger] crate::piece::bit_of(bytes@[j], k) by {
        assert((8 * j + k) / 8 == j);
        assert((8 * j + k) % 8 == k);
    }
}

/// A field knows how many pieces there are, whether there are any, and how many of
/// them are set.
pub proof fn what_a_field_counts(b: &Bitfield, len: usize, empty: bool, count: usize)
    requires
        call_ensures(Bitfield::len, (b,), len),
        call_ensures(Bitfield::is_empty, (b,), empty),
        call_ensures(Bitfield::count_ones, (b,), count),
    ensures
        len == b@.len(),
        empty <==> len == 0,
        count <= len,
        (forall|i: int| 0 <= i < len ==> !#[trigger] b@[i]) ==> count == 0,
        count == crate::piece::ones(b@),
{
    crate::piece_laws::every_bit_counts(b@, -1);
}

/// Data has a digest where all twenty bytes are those of the digest of the data.
pub proof fn when_a_piece_is_intact(data: &[u8], expected: &[u8; 20], r: bool)
    requires
        call_ensures(verify_piece, (data, expected), r),
        sha1_digest(data@).len() == 20,
    ensures
        r <==> forall|i: int| 0 <= i < 20 ==> sha1_digest(data@)[i] == #[trigger] expected@[i],
{
    if forall|i: int| 0 <= i < 20 ==> sha1_digest(data@)[i] == #[trigger] expected@[i] {
        assert(sha1_digest(data@) =~= expected@);
    }
}

/// What is noted of a piece changes that and nothing else: who offers it, that it is
/// here, or that it is asked for.
pub proof fn what_a_picker_notes(
    a: &mut PiecePicker,
    b: &mut PiecePicker,
    c: &mut PiecePicker,
    d: &mut PiecePicker,
    i: usize,
    requested: bool,
    r: (),
    q: (),
    p: (),
    o: (),
)
    requires
        call_ensures(PiecePicker::peer_has_piece, (a, i), r),
        call_ensures(PiecePicker::peer_lost_piece, (b, i), q),
        call_ensures(PiecePicker::mark_downloaded, (c, i), p),
        call_ensures(PiecePicker::mark_requested, (d, i, requested), o),
        i < old(a)@.availability.len() ==> old(a)@.availability[i as int] < usize::MAX,
    ensures
        final(a)@.downloaded == old(a)@.downloaded,
        final(a)@.requested == old(a)@.requested,
        final(b)@.downloaded == old(b)@.downloaded,
        final(b)@.requested == old(b)@.requested,
        final(c)@.availability == old(c)@.availability,
        final(c)@.requested == old(c)@.requested,
        final(d)@.availability == old(d)@.availability,
        final(d)@.downloaded == old(d)@.downloaded,
        i < old(a)@.availability.len() ==> final(a)@.availability[i as int] == old(a)@.availability[i as int] + 1,
        i < old(b)@.availability.len() && old(b)@.availability[i as int] > 0 ==> final(b)@.availability[i as int]
            == old(b)@.availability[i as int] - 1,
        i < old(c)@.downloaded.len() ==> final(c)@.downloaded[i as int],
        i < old(d)@.requested.len() ==> final(d)@.requested[i as int] == requested,
        forall|k: int|
            0 <= k < old(a)@.availability.len() && k != i ==> #[trigger] final(a)@.availability[k]
                == old(a)@.availability[k],
        forall|k: int|
            0 <= k < old(b)@.availability.len() && k != i ==> #[trigger] final(b)@.availability[k]
                == old(b)@.availability[k],
        forall|k: int|
            0 <= k < old(c)@.downloaded.len() && k != i ==> #[trigger] final(c)@.downloaded[k] == old(c)@.downloaded[k],
        forall|k: int|
            0 <= k < old(d)@.requested.len() && k != i ==> #[trigger] final(d)@.requested[k] == old(d)@.requested[k],
{
}

/// The piece that is picked is one that the peer has and that is neither here nor
/// asked for, and none such is offered by fewer peers.
pub proof fn the_rarest_piece_is_picked(p: &PiecePicker, peer: &Bitfield, r: Option<usize>, j: int)
    requires
        call_ensures(PiecePicker::pick_next_piece, (p, peer), r),
        0 <= j < p@.availability.len(),
        j < peer@.len(),
        peer@[j],
        !p@.downloaded[j],
        !p@.requested[j],
    ensures
        r matches Some(i) ==> {
            &&& i < peer@.len() && peer@[i as int]
            &&& i < p@.availability.len() && !p@.downloaded[i as int] && !p@.requested[i as int]
            &&& p@.availability[i as int] < p@.availability[j] || (p@.availability[i as int] == p@.availability[j] && i
                <= j)
        },
{
    assert(crate::piece::is_candidate(p@, peer@, j));
    if let Some(i) = r {
        assert(crate::piece::is_next(p@, peer@, i as int));
        crate::piece_laws::the_next_piece_is_the_rarest(p@, peer@, i as int);
        assert(peer@[j]);
    }
}

/// The path of a file has the name of the torrent first and then every part of the path
/// in the metainfo.
pub proof fn a_file_path_has_every_part(info: &InfoDict, i: usize, r: Vec<String>)
    requires
        call_ensures(InfoDict::file_path, (info, i), r),
        info.mode matches FileMode::Multi { files } ==> i < files@.len(),
    ensures
        r@.len() > 0,
        r@[0]@ == info.name@,
        info.mode is Single ==> r@.len() == 1,
        info.mode matches FileMode::Multi { files } ==> r@.len() == 1 + files@[i as int].path@.len() && forall|k: int|
            0 <= k < files@[i as int].path@.len() ==> r@[k + 1]@ == (#[trigger] files@[i as int].path@[k])@,
{
    let parts = crate::config::texts(r@);
    assert(parts.len() == r@.len());
    match &info.mode {
        FileMode::Multi { files } => {
            assert(info@.mode->Multi_files[i as int] == files@[i as int]@);
            assert forall|k: int| 0 <= k < files@[i as int].path@.len() implies r@[k + 1]@ == (
            #[trigger] files@[i as int].path@[k])@ by {
                assert(parts[k + 1] == r@[k + 1]@);
            }
        },
        _ => {},
    }
    assert(parts[0] == r@[0]@);
}

/// Whatever is read as metainfo has the digest of the very bytes behind the key `info`.
pub proof fn the_hash_of_what_is_read(bytes: &[u8], r: Result<TorrentMeta, MetaError>)
    requires
        call_ensures(TorrentMeta::from_bytes, (bytes,), r),
        bytes@.len() <= usize::MAX,
    ensures
        r matches Ok(m) ==> exists|start: int, end: int|
            #![trigger bytes@.subrange(start, end)]
            7 <= start < end <= bytes@.len() && bytes@.subrange(start - 6, start) == "4:info".spec_bytes()
                && m.info_hash.0@ == sha1_digest(bytes@.subrange(start, end)) && parse_value(
                bytes@.subrange(start, end),
                0,
            ) is Done,
{
    if let Ok(m) = r {
        the_hash_is_that_of_the_bytes_read(bytes@);
        if let crate::bencode::InfoPlace::Found(start, end) = crate::bencode::info_place(bytes@) {
            assert(bytes@.subrange(start, end).len() == end - start);
        }
    }
}

/// A round goes on after an answer without peers with the first tracker behind that
/// can be asked, unless it asks the same one over HTTP.
pub proof fn a_round_passes_nobody_over(round: &mut AnnounceRound, answer: AnnounceAnswer, r: (), next: AnnounceAction)
    requires
        call_ensures(AnnounceRound::answered, (round, answer), r),
        call_ensures(AnnounceRound::action, (&*final(round),), next),
        0 <= old(round)@.at < old(round)@.trackers.len(),
        answer != AnnounceAnswer::Peers,
    ensures
        final(round)@.trackers == old(round)@.trackers,
        forall|k: int|
            old(round)@.at < k < final(round)@.at ==> !crate::announce::is_askable(#[trigger] old(round)@.trackers[k]),
        next is Finished ==> forall|k: int|
            old(round)@.at < k < old(round)@.trackers.len() ==> !crate::announce::is_askable(
                #[trigger] old(round)@.trackers[k],
            ),
        final(round)@.at == old(round)@.at ==> answer == AnnounceAnswer::Failed && !old(round)@.fallback,
{
    crate::announce_laws::nobody_is_passed_over(old(round)@, answer);
}

/// What a hasher takes in part by part is what it takes in as a whole, and it starts
/// with nothing.
pub proof fn a_hasher_takes_in_part_by_part(
    none: PieceHasher,
    a: &mut PieceHasher,
    b: &mut PieceHasher,
    first: &[u8],
    second: &[u8],
    r: (),
    q: (),
    pieces: Vec<[u8; 20]>,
)
    requires
        call_ensures(PieceHasher::new, (), none),
        *old(a) == none,
        call_ensures(PieceHasher::update, (a, first), r),
        *old(b) == *final(a),
        call_ensures(PieceHasher::update, (b, second), q),
        call_ensures(PieceHasher::finish, (*final(b),), pieces),
    ensures
        final(b)@ == first@ + second@,
        pieces@.len() == crate::creator::piece_digests(first@ + second@).len(),
        forall|i: int|
            0 <= i < pieces@.len() ==> (#[trigger] pieces@[i])@ == crate::creator::piece_digests(first@ + second@)[i],
{
    assert(Seq::<u8>::empty() + first@ + second@ =~= first@ + second@);
    let views = crate::meta::piece_views(pieces@);
    assert forall|i: int| 0 <= i < pieces@.len() implies (#[trigger] pieces@[i])@ == crate::creator::piece_digests(
        first@ + second@,
    )[i] by {
        assert(views[i] == pieces@[i]@);
    }
}

/// The settings of a file are taken as they are; otherwise the default ones are, and
/// they are written out only where there is no file, with a warning where there is.
pub proof fn which_settings_are_taken(file: ConfigFile, r: LoadedConfig)
    requires
        call_ensures(Config::load, (file,), r),
    ensures
        file matches ConfigFile::Read(config) ==> r.config == config,
        !(file is Read) ==> {
            &&& r.config@.download_dir == "downloads"@
            &&& r.config@.metadata_dir == "metadata"@
            &&& r.config@.data_write_frequency_secs == 5
            &&& r.config@.default_trackers.len() == 2
        },
        r.write_back <==> file is Unreadable,
        r.warn <==> file is Malformed,
{
}

/// Torrents that were recorded are found again.
pub proof fn what_is_recorded_is_found_again(
    entries: &Vec<(u32, String)>,
    text: Option<String>,
    contents: &str,
    found: Vec<(u32, String)>,
    none: Vec<(u32, String)>,
)
    requires
        call_ensures(save_state, (entries,), text),
        text is Some,
        contents@ == text->0@,
        call_ensures(load_state, (Some(contents),), found),
        call_ensures(load_state, (None,), none),
    ensures
        found@.len() == entries@.len(),
        forall|i: int|
            0 <= i < found@.len() ==> (#[trigger] found@[i]).0 == entries@[i].0 && found@[i].1@ == entries@[i].1@,
        none@.len() == 0,
{
    let a = crate::persist::entry_views(entries@);
    let b = crate::persist::entry_views(found@);
    assert(a == b);
    assert(a.len() == entries@.len());
    assert forall|i: int| 0 <= i < found@.len() implies (#[trigger] found@[i]).0 == entries@[i].0 && found@[i].1@
        == entries@[i].1@ by {
        assert(a[i] == b[i]);
        assert(b[i] == (found@[i].0, found@[i].1@));
        assert(a[i] == (entries@[i].0, entries@[i].1@));
    }
    assert(crate::persist::entry_views(none@).len() == none@.len());
}

/// A server that starts knows no torrent, and gives the first one the number one.
pub proof fn a_server_starts_empty(config: Config, r: RpcServer)
    requires
        call_ensures(RpcServer::new, (config,), r),
    ensures
        r@.config == config@,
        forall|id: u32| !#[trigger] r@.torrents.contains_key(id),
        forall|id: u32| !#[trigger] r@.saved.contains_key(id),
        r@.next_id == 1,
{
}

/// A state that is noted is the one that is read back; no other torrent is touched, and
/// one that is not there is not noted.
pub proof fn a_state_that_is_noted_is_read_back(
    server: &mut RpcServer,
    state: TorrentState,
    id: u32,
    r: (),
    before: Option<TorrentState>,
    after: Option<TorrentState>,
)
    requires
        call_ensures(RpcServer::state, (&*old(server), id), before),
        call_ensures(RpcServer::set_state, (server, state), r),
        call_ensures(RpcServer::state, (&*final(server), id), after),
    ensures
        before is None <==> after is None,
        id == state.id.0 && before is Some ==> after->0@ == state@,
        id != state.id.0 && before is Some ==> after->0@ == before->0@,
        final(server)@.saved == old(server)@.saved,
        final(server)@.next_id == old(server)@.next_id,
        final(server)@.config == old(server)@.config,
        old(server)@.torrents.contains_key(id) ==> final(server)@.torrents[id].running
            == old(server)@.torrents[id].running && final(server)@.torrents[id].files == old(server)@.torrents[id].files,
{
}

/// What is recorded from time to time is every torrent that is there, with what it was
/// added from; there is nothing to record only where there is none.
pub proof fn what_is_recorded_from_time_to_time(server: &RpcServer, r: Option<Vec<(u32, String)>>, id: u32)
    requires
        call_ensures(RpcServer::flush_progress, (server,), r),
        server@.torrents.contains_key(id),
        server@.saved.contains_key(id),
    ensures
        r matches Some(entries) && exists|i: int|
            0 <= i < entries@.len() && (#[trigger] entries@[i]).0 == id && entries@[i].1@ == server@.saved[id],
{
    crate::server_laws::loaded_torrents_are_recorded(server@, id);
    let all = crate::server_model::loaded_entries_of(server@);
    let k = choose|k: int| 0 <= k < all.len() && all[k] == (id, server@.saved[id]);
    assert(all[k] == (id, server@.saved[id]));
    if let Some(entries) = r {
        assert(crate::persist::entry_views(entries@)[k] == (entries@[k].0, entries@[k].1@));
        assert(entries@[k].0 == id);
    }
}

/// A worker of a magnet link says that the metainfo cannot be fetched, and changes
/// nothing else.
pub proof fn what_a_magnet_worker_does(w: &MagnetWorker, state: &mut TorrentState, r: ())
    requires
        call_ensures(MagnetWorker::start, (w, state), r),
    ensures
        final(state).status@ == "Failed (Metadata fetch not fully implemented)"@,
        final(state).downloaded == old(state).downloaded,
        final(state).uploaded == old(state).uploaded,
        final(state).size == old(state).size,
        final(state).id == old(state).id,
        final(state).peers_connected == old(state).peers_connected,
{
}

/// What is sent as a request or a response is opened again with what it carries; the
/// two differ in their command.
pub proof fn what_is_sent_is_opened(
    payload: &[u8],
    request: Vec<u8>,
    response: Vec<u8>,
    a: &[u8],
    b: &[u8],
    first: PacketStep,
    second: PacketStep,
)
    requires
        payload@.len() < 0x1_0000_0000,
        call_ensures(send_request, (payload,), request),
        call_ensures(send_response, (payload,), response),
        a@ == request@,
        b@ == response@,
        call_ensures(read_packet, (a,), first),
        call_ensures(read_packet, (b,), second),
    ensures
        first matches PacketStep::Done(packet, command) && packet.payload@ == payload@ && packet.version == 1 && command
            == 0,
        second matches PacketStep::Done(packet, command) && packet.payload@ == payload@ && packet.version == 1 && command
            == 1,
{
    let none = Seq::<u8>::empty();
    assert(request@ + none =~= request@);
    assert(response@ + none =~= response@);
    crate::rpc::packet_reads_back(1, 0, payload@, none, first);
    crate::rpc::packet_reads_back(1, 1, payload@, none, second);
}

/// A number out of the time is its lowest 32 bits.
pub proof fn the_lowest_bits_of_the_time(nanos: u128, r: u32)
    requires
        call_ensures(rand_u32, (nanos,), r),
    ensures
        (nanos - r) % 0x1_0000_0000 == 0,
{
}

/// A hash is shown with forty digits.
pub proof fn a_hash_has_forty_digits(hash: &InfoHash, r: String)
    requires
        call_ensures(InfoHash::to_hex, (hash,), r),
    ensures
        r@.len() == 40,
        forall|i: int|
            0 <= i < 20 ==> r@[2 * i] == "0123456789abcdef"@[(#[trigger] hash.0@[i]) as int / 16] && r@[2 * i + 1]
                == "0123456789abcdef"@[hash.0@[i] as int % 16],
{
    assert(hash.0@.len() == 20);
    assert forall|i: int| 0 <= i < 20 implies r@[2 * i] == "0123456789abcdef"@[(#[trigger] hash.0@[i]) as int / 16]
        && r@[2 * i + 1] == "0123456789abcdef"@[hash.0@[i] as int % 16] by {
        crate::string_laws::two_digits_for_a_byte(hash.0@, i);
    }
}

/// A round starts with the first tracker that can be asked.
pub proof fn a_round_starts_with_the_first_tracker(trackers: Vec<String>, r: AnnounceRound)
    requires
        call_ensures(AnnounceRound::new, (trackers,), r),
    ensures
        r@.trackers == crate::config::texts(trackers@),
        !r@.fallback,
        0 <= r@.at <= trackers@.len(),
        forall|k: int| 0 <= k < r@.at ==> !crate::announce::is_askable(#[trigger] r@.trackers[k]),
        r@.at < trackers@.len() ==> crate::announce::is_askable(r@.trackers[r@.at]),
{
    crate::announce_laws::the_next_is_the_first_that_can_be_asked(crate::config::texts(trackers@), 0);
}

/// Files are put in the order of their paths, all of them and no others.
pub proof fn files_are_put_in_order(paths: Vec<Vec<Vec<u8>>>, r: Vec<Vec<Vec<u8>>>)
    requires
        call_ensures(sort_files, (paths,), r),
    ensures
        path_views(r@).to_multiset() == path_views(paths@).to_multiset(),
        forall|i: int, j: int|
            0 <= i < j < path_views(r@).len() ==> path_views(r@)[i] == path_views(r@)[j] || path_before(
                #[trigger] path_views(r@)[i],
                #[trigger] path_views(r@)[j],
            ),
{
    let sorted = path_views(r@);
    assert forall|i: int, j: int| 0 <= i < j < sorted.len() implies sorted[i] == sorted[j] || path_before(
        #[trigger] sorted[i],
        #[trigger] sorted[j],
    ) by {
        path_before_total(sorted[i], sorted[j]);
    }
}

/// A file of a torrent that is made has its length and every part of its path.
pub proof fn what_a_file_entry_says(length: u64, path: &Vec<Vec<u8>>, r: TorrentFile)
    requires
        call_ensures(file_entry, (length, path), r),
    ensures
        r.length == length,
        r.path@.len() == path@.len(),
        forall|k: int|
            0 <= k < path@.len() && valid_utf8((#[trigger] path@[k])@) ==> r.path@[k]@ == decode_utf8(path@[k]@),
{
    let parts = crate::config::texts(r.path@);
    assert(parts.len() == r.path@.len());
    assert forall|k: int| 0 <= k < path@.len() && valid_utf8((#[trigger] path@[k])@) implies r.path@[k]@ == decode_utf8(
        path@[k]@,
    ) by {
        assert(parts[k] == r.path@[k]@);
    }
}

/// Digits are read exactly where there are two for each byte and all of them are
/// digits.
pub proof fn when_digits_are_read(s: &[u8], out: &mut [u8], r: bool)
    requires
        call_ensures(decode_hex, (s, out), r),
    ensures
        r <==> s@.len() == 2 * old(out)@.len() && forall|i: int| 0 <= i < s@.len() ==> hex_value(#[trigger] s@[i]) is Some,
        r ==> forall|i: int|
            0 <= i < old(out)@.len() ==> #[trigger] final(out)@[i] == 16 * hex_value(s@[2 * i])->0 + hex_value(
                s@[2 * i + 1],
            )->0,
{
    crate::magnet_laws::digits_are_read_in_pairs(s@);
}

/// What is decoded is what was encoded.
pub proof fn what_is_encoded_is_decoded(v: &Bencode, bytes: Vec<u8>, got: &[u8], r: Result<Bencode, BencodeError>)
    requires
        well_formed(v@),
        call_ensures(Bencode::encode, (v,), bytes),
        got@ == bytes@,
        got@.len() <= usize::MAX,
        call_ensures(Bencode::decode, (got,), r),
    ensures
        r matches Ok(w) && w@ == v@,
{
    let none = Seq::<u8>::empty();
    assert(bytes@ + none =~= bytes@);
    decode_undoes_encode(v@, none);
}

/// What cannot be decoded fails for the reason for which it cannot be read.
pub proof fn why_decoding_fails(bytes: &[u8], r: Result<Bencode, BencodeError>)
    requires
        call_ensures(Bencode::decode, (bytes,), r),
    ensures
        bytes@.len() == 0 ==> r == Err::<Bencode, BencodeError>(BencodeError::UnexpectedEOF),
        parse_value(bytes@, 0) is Failed <==> r is Err,
        parse_value(bytes@, 0) matches Step::Failed(failure) ==> (r matches Err(e) && e@ == failure),
        parse_value(bytes@, 0) matches Step::Done(v, _) ==> (r matches Ok(b) && b@ == v),
{
}

/// A torrent that is made reads back with the name, the files, the digests and the
/// trackers that it was made with.
pub proof fn what_is_made_reads_back(
    name: String,
    mode: FileMode,
    hasher: PieceHasher,
    trackers: &Vec<String>,
    bytes: Vec<u8>,
    got: &[u8],
    r: Result<TorrentMeta, MetaError>,
)
    requires
        call_ensures(create_torrent, (name, mode, hasher, trackers), bytes),
        got@ == bytes@,
        call_ensures(TorrentMeta::from_bytes, (got,), r),
    ensures
        r matches Ok(meta) && {
            &&& meta.info.name@ == name@
            &&& meta.info.mode@ == mode@
            &&& meta.info.piece_length == 524288
            &&& meta.info@.pieces == crate::creator::piece_digests(hasher@)
            &&& trackers@.len() > 0 ==> meta.announce@ == trackers@[0]@
            &&& trackers@.len() <= 1 ==> meta.announce_list is None
            &&& trackers@.len() > 1 ==> meta.announce_list is Some
        },
{
    crate::creator::what_a_torrent_is_made_with(name@, mode@, hasher@, crate::config::texts(trackers@));
}

/// What was put into a table is found in it, what was taken out is not, and whatever
/// else is in it stays.
pub proof fn what_a_table_keeps<V>(
    a: &mut IdTable<V>,
    b: &mut IdTable<V>,
    id: u32,
    value: V,
    other: u32,
    r: (),
    taken: Option<V>,
    found: Option<&V>,
    before: Option<&V>,
    after: Option<&V>,
)
    requires
        call_ensures(IdTable::<V>::get, (&*old(a), other), before),
        call_ensures(IdTable::<V>::insert, (a, id, value), r),
        call_ensures(IdTable::<V>::get, (&*final(a), other), found),
        *old(b) == *final(a),
        call_ensures(IdTable::<V>::remove, (b, id), taken),
        call_ensures(IdTable::<V>::get, (&*final(b), other), after),
    ensures
        other == id ==> (found matches Some(v) && *v == value) && after is None,
        other != id ==> (found is Some <==> before is Some) && (after is Some <==> before is Some),
        other != id ==> (before matches Some(v) ==> (found matches Some(w) && *w == *v) && (after matches Some(w) && *w
            == *v)),
        taken == Some(value),
{
}

/// What an error says, for every error of a tracker, of a magnet link and of a packet.
pub proof fn what_an_error_says(
    tracker: &TrackerError,
    magnet: &MagnetError,
    version: &VersionMismatch,
    a: String,
    b: String,
    c: String,
)
    requires
        call_ensures(TrackerError::message, (tracker,), a),
        call_ensures(MagnetError::message, (magnet,), b),
        call_ensures(VersionMismatch::message, (version,), c),
    ensures
        tracker is InvalidConnectResponse ==> a@ == "Invalid tracker connect response"@,
        tracker is AnnounceTooShort ==> a@ == "Tracker announce response too short"@,
        tracker is InvalidAnnounceResponse ==> a@ == "Invalid tracker announce response match"@,
        magnet is InvalidPrefix ==> b@ == "Invalid magnet link prefix"@,
        magnet is MissingXt ==> b@ == "Missing exact topic (xt)"@,
        magnet is InvalidInfoHash ==> b@ == "Invalid info hash format"@,
        magnet is InvalidUrlEncoding ==> b@ == "Invalid URL encoding"@,
        c@ == "Protocol version mismatch: expected "@ + decimal_text(1) + ", got "@ + decimal_text(version.got as nat),
{
}

/// While a message comes in, exactly as many bytes are asked for as it still lacks, and
/// a number that no message has is named.
pub proof fn what_is_asked_for_of_a_message(got: &[u8], step: ReadStep)
    requires
        call_ensures(PeerMessage::read, (got,), step),
        got@.len() <= usize::MAX,
    ensures
        got@.len() < 4 ==> (step matches ReadStep::More(n) && n == 4 - got@.len()),
        step matches ReadStep::More(n) ==> (reading(got@) matches Reading::Needs(all) && n == all - got@.len()),
        step matches ReadStep::UnknownId(id) ==> got@.len() >= 5 && got@[4] == id && id > 8,
        step matches ReadStep::Done(m) ==> (reading(got@) matches Reading::Done(read, _) && m@ == read),
{
    crate::wire_laws::how_a_message_is_read(got@);
    if got@.len() >= 4 {
        crate::wire_laws::the_value_of_four_bytes(got@, 0);
    }
}

/// A picker starts with nobody who offers a piece and with none here or asked for.
pub proof fn a_picker_starts_with_nothing(n: usize, r: PiecePicker)
    requires
        call_ensures(PiecePicker::new, (n,), r),
    ensures
        r@.availability.len() == n,
        r@.downloaded.len() == n,
        r@.requested.len() == n,
        forall|i: int| 0 <= i < n ==> #[trigger] r@.availability[i] == 0,
        forall|i: int| 0 <= i < n ==> !#[trigger] r@.downloaded[i],
        forall|i: int| 0 <= i < n ==> !#[trigger] r@.requested[i],
{
}

/// A torrent is as long as its file, and one more file makes it longer by as much as
/// the file has.
pub proof fn how_long_a_torrent_is(one: &FileMode, some: &FileMode, more: &FileMode, a: u64, b: u64, c: u64)
    requires
        call_ensures(FileMode::total_size, (one,), a),
        call_ensures(FileMode::total_size, (some,), b),
        call_ensures(FileMode::total_size, (more,), c),
        *some is Multi,
        *more is Multi,
        more->files@.len() == some->files@.len() + 1,
        forall|i: int| 0 <= i < some->files@.len() ==> #[trigger] more->files@[i] == some->files@[i],
    ensures
        *one matches FileMode::Single { length } ==> a == length,
        c == b + more->files@.last().length,
        some->files@.len() == 0 ==> b == 0,
{
    if let FileMode::Single { length } = *one {
        a_torrent_is_as_long_as_its_files(length, seq![], arbitrary());
    }
    let files = file_views(some->files@);
    let last = more->files@.last()@;
    assert(file_views(more->files@) =~= files.push(last));
    a_torrent_is_as_long_as_its_files(0, files, last);
    if files.len() == 0 {
        assert(files =~= Seq::empty());
    }
}

/// What a link is read as has twenty bytes of hash, which its parts name; a link
/// without a hash is not read.
pub proof fn what_a_link_is_read_as(url: &str, r: Result<MagnetLink, MagnetError>)
    requires
        call_ensures(MagnetLink::parse, (url,), r),
    ensures
        r matches Ok(link) ==> (magnet_of(url.spec_bytes()) matches Ok(said) && link.info_hash.0@ == said.info_hash
            && link.trackers@.len() == said.trackers.len() && (link.name is Some <==> said.name is Some)),
        r matches Err(e) ==> magnet_of(url.spec_bytes()) == Err::<MagnetView, MagnetError>(e),
{
    if let Ok(link) = r {
        assert(crate::config::texts(link.trackers@).len() == link.trackers@.len());
    }
}

} // verus!
