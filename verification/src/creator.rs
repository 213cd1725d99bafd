//! Making a torrent from data.
use vstd::prelude::*;
use vstd::string::*;
use crate::bencode::encoding;
use crate::config::texts;
use crate::digest::{sha1, sha1_digest};
use crate::engine::{is_intact, piece_range};
use crate::ids::InfoHash;
use crate::meta::{
    meta_of, piece_views, tier_views, FileMode, InfoDict, InfoView, MetaFailure, MetaView, ModeView,
    TorrentMeta,
};
use crate::metainfo::{info_value, meta_value, metainfo_reads_back};
use crate::session::layout_of;
use crate::session_laws::is_proper;
use crate::storage::{mode_size, smaller};

verus! {

/// How many bytes a piece has.
pub const DEFAULT_PIECE_LENGTH: u64 = 524288;

/// The bytes of piece `i` of some data.
pub open spec fn piece_data(data: Seq<u8>, i: int) -> Seq<u8> {
    data.subrange(
        i * DEFAULT_PIECE_LENGTH,
        smaller((i + 1) * DEFAULT_PIECE_LENGTH, data.len() as int),
    )
}

/// The digests of the pieces of some data; the last piece may be shorter.
pub open spec fn piece_digests(data: Seq<u8>) -> Seq<Seq<u8>> {
    Seq::new(
        ((data.len() + DEFAULT_PIECE_LENGTH - 1) / DEFAULT_PIECE_LENGTH as int) as nat,
        |i: int| sha1_digest(piece_data(data, i)),
    )
}

/// Takes in data bit by bit and digests it piece by piece.
pub struct PieceHasher {
    pieces: Vec<[u8; 20]>,
    rest: Vec<u8>,
    seen: Ghost<Seq<u8>>,
}

impl PieceHasher {
    /// The data that was taken in.
    pub closed spec fn view(&self) -> Seq<u8> {
        self.seen@
    }

    /// Every full piece is digested, and the rest is kept.
    pub closed spec fn wf(&self) -> bool {
        let full = self.seen@.len() as int / DEFAULT_PIECE_LENGTH as int;
        &&& self.pieces@.len() == full
        &&& forall|i: int| 0 <= i < full ==> (#[trigger] self.pieces@[i])@ == sha1_digest(piece_data(self.seen@, i))
        &&& self.rest@ == self.seen@.skip(full * DEFAULT_PIECE_LENGTH)
    }

    /// No data.
    pub fn new() -> (r: Self)
        ensures
            r.wf(),
            r@ == Seq::<u8>::empty(),
    {
        let h = PieceHasher { pieces: Vec::new(), rest: Vec::new(), seen: Ghost(Seq::empty()) };
        assert(h.rest@ =~= h.seen@.skip(0));
        h
    }

    /// Takes in one more byte.
    fn push(&mut self, b: u8)
        requires
            old(self).wf(),
        ensures
            final(self).wf(),
            final(self)@ == old(self)@.push(b),
    {
        let ghost before = self.seen@;
        let ghost after = before.push(b);
        let ghost size = DEFAULT_PIECE_LENGTH as int;
        let ghost full = before.len() as int / size;
        self.rest.push(b);
        self.seen = Ghost(after);
        assert(self.rest@ =~= after.skip(full * size));
        assert forall|i: int| 0 <= i < full implies piece_data(after, i) == piece_data(before, i) by {
            assert(piece_data(after, i) =~= piece_data(before, i));
        }
        if self.rest.len() == 524288 {
            let digest = sha1(self.rest.as_slice());
            assert(after.len() as int / size == full + 1);
            assert(piece_data(after, full) =~= self.rest@);
            self.pieces.push(digest);
            self.rest = Vec::new();
            assert(self.rest@ =~= after.skip((full + 1) * size));
        } else {
            assert(after.len() as int / size == full);
        }
    }

    /// Takes in more data.
    pub fn update(&mut self, data: &[u8])
        requires
            old(self).wf(),
        ensures
            final(self).wf(),
            final(self)@ == old(self)@ + data@,
    {
        let ghost before = self@;
        let total: usize = data.len();
        let mut i: usize = 0;
        assert(before + data@.take(0) =~= before);
        while i < total
            invariant
                self.wf(),
                i <= total == data@.len(),
                self@ == before + data@.take(i as int),
            decreases total - i,
        {
            self.push(data[i]);
            i += 1;
            assert(self@ =~= before + data@.take(i as int));
        }
        assert(data@.take(i as int) =~= data@);
    }

    /// The digests of all pieces.
    pub fn finish(self) -> (r: Vec<[u8; 20]>)
        requires
            self.wf(),
        ensures
            piece_views(r@) == piece_digests(self@),
    {
        let ghost data = self@;
        let ghost full = data.len() as int / DEFAULT_PIECE_LENGTH as int;
        let mut pieces = self.pieces;
        if self.rest.len() > 0 {
            let digest = sha1(self.rest.as_slice());
            assert(piece_data(data, full) =~= self.rest@);
            pieces.push(digest);
        }
        assert(piece_views(pieces@) =~= piece_digests(data));
        pieces
    }
}

/// The tracker of a torrent for which none is named.
pub open spec fn default_tracker() -> Seq<char> {
    "udp://tracker.opentrackr.org:1337/announce"@
}

/// The metainfo of a torrent that is made from some data: the first tracker is
/// the main one, and several trackers make a tier each.
pub open spec fn created(name: Seq<char>, mode: ModeView, data: Seq<u8>, trackers: Seq<Seq<char>>) -> MetaView {
    let info = InfoView { name, piece_length: DEFAULT_PIECE_LENGTH, pieces: piece_digests(data), mode };
    MetaView {
        announce: if trackers.len() > 0 {
            trackers[0]
        } else {
            default_tracker()
        },
        announce_list: if trackers.len() > 1 {
            Some(trackers.map_values(|t: Seq<char>| seq![t]))
        } else {
            None
        },
        info,
        info_hash: sha1_digest(encoding(info_value(info))),
    }
}

/// One tier for each tracker.
fn tiers(trackers: &Vec<String>) -> (r: Vec<Vec<String>>)
    ensures
        tier_views(r@) == texts(trackers@).map_values(|t: Seq<char>| seq![t]),
{
    let mut list: Vec<Vec<String>> = Vec::new();
    let mut i: usize = 0;
    while i < trackers.len()
        invariant
            i <= trackers@.len(),
            list@.len() == i,
            forall|k: int| 0 <= k < i ==> texts((#[trigger] list@[k])@) == seq![trackers@[k]@],
        decreases trackers@.len() - i,
    {
        let mut tier: Vec<String> = Vec::new();
        tier.push(trackers[i].clone());
        assert(texts(tier@) =~= seq![trackers@[i as int]@]);
        list.push(tier);
        i += 1;
    }
    assert(tier_views(list@) =~= texts(trackers@).map_values(|t: Seq<char>| seq![t]));
    list
}

/// The bytes of a `.torrent` file for data that a hasher has taken in. They read
/// back as the metainfo that they were made from.
pub fn create_torrent(name: String, mode: FileMode, hasher: PieceHasher, trackers: &Vec<String>) -> (r: Vec<u8>)
    requires
        hasher.wf(),
    ensures
        r@ == encoding(meta_value(created(name@, mode@, hasher@, texts(trackers@)))),
        meta_of(r@) == Ok::<MetaView, MetaFailure>(created(name@, mode@, hasher@, texts(trackers@))),
{
    let ghost meant = created(name@, mode@, hasher@, texts(trackers@));
    let info = InfoDict { name, piece_length: DEFAULT_PIECE_LENGTH, pieces: hasher.finish(), mode };
    assert(info@ == meant.info);
    let info_bytes = info.to_bencode().encode();
    let info_hash = InfoHash(sha1(info_bytes.as_slice()));
    let announce: String = if trackers.len() > 0 {
        trackers[0].clone()
    } else {
        String::from_str("udp://tracker.opentrackr.org:1337/announce")
    };
    let announce_list: Option<Vec<Vec<String>>> = if trackers.len() > 1 {
        Some(tiers(trackers))
    } else {
        None
    };
    let meta = TorrentMeta { announce, announce_list, info, info_hash };
    assert(meta@ == meant);
    proof {
        assert forall|i: int| 0 <= i < meant.info.pieces.len() implies (#[trigger] meant.info.pieces[i]).len() == 20 by {
            assert(meta.info.pieces@[i]@ == meant.info.pieces[i]);
        }
    }
    let bytes = meta.into_bytes();
    let total: usize = bytes.len();
    proof {
        metainfo_reads_back(meant);
    }
    bytes
}

/// Data from which a torrent was made passes its check, piece by piece.
pub proof fn created_pieces_are_intact(
    name: Seq<char>,
    mode: ModeView,
    data: Seq<u8>,
    trackers: Seq<Seq<char>>,
    i: int,
)
    requires
        mode_size(mode) == data.len(),
        0 <= i < created(name, mode, data, trackers).info.pieces.len(),
    ensures
        ({
            let info = created(name, mode, data, trackers).info;
            piece_range(info, i) matches Some((start, len)) && is_intact(
                info,
                i,
                Some(data.subrange(start, start + len)),
            )
        }),
{
}

/// The pieces of a torrent that is made from data divide it as they should.
pub proof fn created_layout_is_proper(name: Seq<char>, mode: ModeView, data: Seq<u8>, trackers: Seq<Seq<char>>)
    requires
        mode_size(mode) == data.len(),
        0 < data.len() <= u64::MAX,
        piece_digests(data).len() <= u32::MAX,
    ensures
        is_proper(layout_of(created(name, mode, data, trackers).info)),
{
    let n = piece_digests(data).len() as int;
    let size = DEFAULT_PIECE_LENGTH as int;
    assert((n - 1) * size < data.len() <= n * size);
}

/// Data that is empty has no pieces, and up to half a mebibyte more behind full pieces
/// makes one more piece, whose digest is that of these bytes; those before stay.
pub proof fn one_more_piece_is_one_more_digest(data: Seq<u8>, more: Seq<u8>)
    requires
        data.len() % 524288 == 0,
        0 < more.len() <= 524288,
    ensures
        piece_digests(Seq::empty()) == Seq::<Seq<u8>>::empty(),
        piece_digests(data + more) == piece_digests(data).push(sha1_digest(more)),
        piece_digests(data).len() * 524288 == data.len(),
{
    let all = data + more;
    let n = data.len() as int / 524288;
    assert(piece_digests(data).len() == n);
    assert(piece_digests(all).len() == n + 1);
    assert forall|i: int| 0 <= i < n implies piece_data(all, i) == piece_data(data, i) by {
        assert(piece_data(all, i) =~= piece_data(data, i));
    }
    assert(piece_data(all, n) =~= more);
    assert(piece_digests(all) =~= piece_digests(data).push(sha1_digest(more)));
    assert(piece_digests(Seq::empty()) =~= Seq::<Seq<u8>>::empty());
}

/// A torrent that is made has the name and the files that it is made from, pieces of
/// half a mebibyte, and every tracker that is named: the first is the main one, and
/// where there are several each has a tier of its own, in order. Where none is named it
/// has one all the same.
pub proof fn what_a_torrent_is_made_with(name: Seq<char>, mode: ModeView, data: Seq<u8>, trackers: Seq<Seq<char>>)
    ensures
        ({
            let meta = created(name, mode, data, trackers);
            &&& meta.info.name == name
            &&& meta.info.mode == mode
            &&& meta.info.piece_length == 524288
            &&& meta.info.pieces == piece_digests(data)
            &&& meta.info_hash == sha1_digest(encoding(info_value(meta.info)))
            &&& trackers.len() > 0 ==> meta.announce == trackers[0]
            &&& trackers.len() == 0 ==> meta.announce == "udp://tracker.opentrackr.org:1337/announce"@
            &&& trackers.len() <= 1 ==> meta.announce_list is None
            &&& trackers.len() > 1 ==> (meta.announce_list matches Some(tiers) && tiers.len() == trackers.len()
                && forall|i: int| 0 <= i < tiers.len() ==> #[trigger] tiers[i] == seq![trackers[i]])
        }),
{
}

/// The trackers that a torrent is made with are those that are asked, each once.
pub proof fn the_trackers_of_a_torrent_that_is_made(
    name: Seq<char>,
    mode: ModeView,
    data: Seq<u8>,
    trackers: Seq<Seq<char>>,
    i: int,
)
    requires
        0 <= i < trackers.len(),
    ensures
        crate::announce::trackers_of(created(name, mode, data, trackers)).contains(trackers[i]),
{
    let meta = created(name, mode, data, trackers);
    crate::announce::trackers_come_once(meta);
    if trackers.len() > 1 {
        assert(meta.announce_list->0[i][0] == trackers[i]);
        crate::announce::every_tracker_is_listed(meta, i, 0);
    } else {
        assert(crate::announce::trackers_of(meta)[0] == trackers[i]);
    }
}

} // verus!
