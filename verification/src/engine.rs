//! The download of one torrent: what is checked, what is missing, and what is
//! known after a check.
use vstd::arithmetic::mul::{lemma_mul_inequality, lemma_mul_is_distributive_add_other_way};
use vstd::prelude::*;
use vstd::string::*;
use crate::digest::sha1_digest;
use crate::ids::TorrentId;
use crate::meta::{InfoDict, InfoView, TorrentMeta};
use crate::piece::{ones, verify_piece};
use crate::protocol::Handshake;
use crate::state::{at_most, StateView, TorrentState};
use crate::storage::{mode_size, smaller};

verus! {

/// Downloads one torrent.
pub struct TorrentDownloader {
    pub id: TorrentId,
    pub meta: TorrentMeta,
    pub download_dir: String,
    pub peer_id: [u8; 20],
    /// The pieces that nobody fetches yet.
    pub missing_pieces: Vec<u32>,
    /// Which pieces are here.
    pub have_pieces: Vec<bool>,
}

/// The bytes of piece `i`: where they start, and how many there are. There is
/// nothing to check behind the end of the data.
pub open spec fn piece_range(info: InfoView, i: int) -> Option<(int, int)> {
    let start = i * info.piece_length;
    if 0 <= i < info.pieces.len() && start < mode_size(info.mode) {
        Some((start, smaller(start + info.piece_length, mode_size(info.mode)) - start))
    } else {
        None
    }
}

/// Whether what was read of piece `i` is that piece.
pub open spec fn is_intact(info: InfoView, i: int, data: Option<Seq<u8>>) -> bool {
    data is Some && sha1_digest(data->0) == info.pieces[i]
}

/// What is known in the course of a check: which pieces were intact, and how
/// many have been looked at.
pub struct CheckView {
    pub completed: Seq<bool>,
    pub next: int,
}

/// A check of the pieces on disk. The one who runs it reads each range that
/// `next_range` names and hands what was read to `record`.
pub struct PieceCheck {
    completed: Vec<bool>,
    next: usize,
}

/// What is known after one more piece was read.
pub open spec fn after_record(check: CheckView, info: InfoView, data: Option<Seq<u8>>) -> CheckView {
    CheckView { completed: check.completed.update(check.next, is_intact(info, check.next, data)), next: check.next + 1 }
}

/// Whether the flags of a check can have come about: an intact piece starts
/// within the data, and its end is a 64-bit number.
pub open spec fn plausible(info: InfoView, completed: Seq<bool>) -> bool {
    &&& completed.len() == info.pieces.len()
    &&& forall|i: int|
        0 <= i < completed.len() && #[trigger] completed[i] ==> piece_range(info, i) is Some && (i + 1)
            * info.piece_length <= u64::MAX
}

impl PieceCheck {
    pub closed spec fn view(&self) -> CheckView {
        CheckView { completed: self.completed@, next: self.next as int }
    }

    /// Only pieces that have been looked at are marked.
    pub open spec fn wf(&self, info: InfoView) -> bool {
        &&& plausible(info, self@.completed)
        &&& 0 <= self@.next <= info.pieces.len()
        &&& forall|i: int| self@.next <= i < self@.completed.len() ==> !#[trigger] self@.completed[i]
    }

    /// Whether the end of the piece that comes next is a 64-bit number.
    pub fn range_fits(&self, info: &InfoDict) -> (r: bool)
        requires
            self.wf(info@),
        ensures
            r == ((self@.next + 1) * info.piece_length <= u64::MAX),
    {
        proof {
            lemma_product_fits(self.next + 1, info.piece_length as int);
        }
        let end: u128 = (self.next as u128 + 1) * info.piece_length as u128;
        end <= 0xffff_ffff_ffff_ffff
    }

    /// The bytes to read next: where they start, and how many there are.
    pub fn next_range(&self, info: &InfoDict) -> (r: Option<(u64, u64)>)
        requires
            self.wf(info@),
            mode_size(info@.mode) <= u64::MAX,
            self@.next < info@.pieces.len() ==> (self@.next + 1) * info.piece_length <= u64::MAX,
        ensures
            match r {
                Some((start, len)) => piece_range(info@, self@.next) == Some((start as int, len as int)),
                None => piece_range(info@, self@.next) is None,
            },
    {
        if self.next >= info.pieces.len() {
            return None;
        }
        let total: u64 = info.mode.total_size();
        proof {
            lemma_mul_inequality(self.next as int, self.next + 1, info.piece_length as int);
            lemma_mul_is_distributive_add_other_way(info.piece_length as int, self.next as int, 1);
        }
        let start: u64 = self.next as u64 * info.piece_length;
        let full_end: u64 = start + info.piece_length;
        let end: u64 = if full_end <= total {
            full_end
        } else {
            total
        };
        if start >= total {
            return None;
        }
        Some((start, end - start))
    }

    /// Notes what was read of the piece that comes next, or that it could not
    /// be read.
    pub fn record(&mut self, info: &InfoDict, data: Option<&Vec<u8>>)
        requires
            old(self).wf(info@),
            piece_range(info@, old(self)@.next) is Some,
            (old(self)@.next + 1) * info.piece_length <= u64::MAX,
        ensures
            final(self).wf(info@),
            final(self)@ == after_record(
                old(self)@,
                info@,
                match data {
                    Some(bytes) => Some(bytes@),
                    None => None,
                },
            ),
    {
        let total: usize = info.pieces.len();
        assert(self.next < total);
        let intact: bool = match data {
            Some(bytes) => verify_piece(bytes.as_slice(), &info.pieces[self.next]),
            None => false,
        };
        assert(info@.pieces[self.next as int] == info.pieces@[self.next as int]@);
        self.completed.set(self.next, intact);
        self.next = self.next + 1;
    }

    /// Which pieces were intact.
    pub fn finish(self) -> (r: Vec<bool>)
        ensures
            r@ == self@.completed,
    {
        self.completed
    }
}

/// The pieces that are not done among the first `n`, in order.
pub open spec fn not_done(completed: Seq<bool>, n: int) -> Seq<u32>
    decreases n,
{
    if n <= 0 {
        seq![]
    } else if completed[n - 1] {
        not_done(completed, n - 1)
    } else {
        not_done(completed, n - 1).push((n - 1) as u32)
    }
}

/// How many bytes piece `i` counts for: the last one for what the others leave.
pub open spec fn counted_size(info: InfoView, i: int) -> int {
    if i == info.pieces.len() - 1 {
        mode_size(info.mode) - (info.pieces.len() - 1) * info.piece_length
    } else {
        info.piece_length as int
    }
}

/// How many bytes the pieces that are done among the first `n` count for.
pub open spec fn verified_size(info: InfoView, completed: Seq<bool>, n: int) -> int
    decreases n,
{
    if n <= 0 {
        0
    } else {
        verified_size(info, completed, n - 1) + if completed[n - 1] {
            counted_size(info, n - 1)
        } else {
            0
        }
    }
}

/// The state of a torrent after a check.
pub open spec fn after_check(s: StateView, info: InfoView, completed: Seq<bool>) -> StateView {
    StateView {
        downloaded: at_most(verified_size(info, completed, completed.len() as int), s.size),
        status: if not_done(completed, completed.len() as int).len() == 0 {
            "Completed"@
        } else {
            "Downloading"@
        },
        ..s
    }
}

impl TorrentDownloader {
    /// Nothing is known to be here, and nothing is asked for.
    pub fn new(id: TorrentId, meta: TorrentMeta, download_dir: String, peer_id: [u8; 20]) -> (r: Self)
        ensures
            r.id == id,
            r.meta == meta,
            r.download_dir@ == download_dir@,
            r.peer_id == peer_id,
            r.missing_pieces@ == Seq::<u32>::empty(),
            r.have_pieces@ == Seq::new(meta.info.pieces@.len(), |i: int| false),
    {
        let have_pieces = no_pieces(meta.info.pieces.len());
        TorrentDownloader { id, meta, download_dir, peer_id, missing_pieces: Vec::new(), have_pieces }
    }

    /// A check of which no piece has been looked at.
    pub fn verify_pieces(&self) -> (r: PieceCheck)
        ensures
            r.wf(self.meta@.info),
            r@ == (CheckView { completed: Seq::new(self.meta@.info.pieces.len(), |i: int| false), next: 0 }),
    {
        PieceCheck { completed: no_pieces(self.meta.info.pieces.len()), next: 0 }
    }

    /// Takes over what a check has found: what is missing, what is here, and
    /// how far the torrent is. Gives the number of intact pieces and of all.
    pub fn verify_and_resume(&mut self, completed: Vec<bool>, state: &mut TorrentState) -> (r: (usize, usize))
        requires
            plausible(old(self).meta@.info, completed@),
            mode_size(old(self).meta@.info.mode) <= u64::MAX,
            completed@.len() <= u32::MAX,
        ensures
            *final(self) == (TorrentDownloader {
                missing_pieces: final(self).missing_pieces,
                have_pieces: completed,
                ..*old(self)
            }),
            final(self).missing_pieces@ == not_done(completed@, completed@.len() as int),
            final(state)@ == after_check(old(state)@, old(self).meta@.info, completed@),
            r.0 == ones(completed@),
            r.1 == completed@.len(),
    {
        let ghost info = self.meta@.info;
        let total_pieces: usize = completed.len();
        let piece_length: u64 = self.meta.info.piece_length;
        let total_size: u64 = self.meta.info.mode.total_size();
        let mut missing: Vec<u32> = Vec::new();
        let mut verified: u64 = 0;
        let mut count: usize = 0;
        let mut i: usize = 0;
        let ghost mut top: int = 0;
        assert(completed@.take(0) =~= Seq::<bool>::empty());
        while i < total_pieces
            invariant
                i <= total_pieces == completed@.len() <= u32::MAX,
                plausible(info, completed@),
                piece_length == info.piece_length,
                total_size == mode_size(info.mode),
                missing@ == not_done(completed@, i as int),
                count == ones(completed@.take(i as int)),
                count <= i,
                verified == verified_size(info, completed@, i as int),
                0 <= top <= i,
                i < total_pieces ==> verified <= top * piece_length,
                top * piece_length <= u64::MAX,
            decreases total_pieces - i,
        {
            assert(completed@.take(i + 1).drop_last() =~= completed@.take(i as int));
            if completed[i] {
                assert(piece_range(info, i as int) is Some);
                proof {
                    lemma_mul_inequality(top, i as int, piece_length as int);
                    lemma_mul_is_distributive_add_other_way(piece_length as int, i as int, 1);
                }
                let counted: u64 = if i == total_pieces - 1 {
                    total_size - (total_pieces as u64 - 1) * piece_length
                } else {
                    piece_length
                };
                verified = verified + counted;
                count = count + 1;
                proof {
                    top = i + 1;
                }
            } else {
                missing.push(i as u32);
            }
            i += 1;
        }
        assert(completed@.take(i as int) =~= completed@);
        let is_completed: bool = missing.len() == 0;
        self.missing_pieces = missing;
        self.have_pieces = completed;
        state.downloaded = if verified <= state.size {
            verified
        } else {
            state.size
        };
        state.status = if is_completed {
            String::from_str("Completed")
        } else {
            String::from_str("Downloading")
        };
        (count, total_pieces)
    }

    /// Whether a peer that was called has the same torrent.
    pub fn accepts(&self, handshake: &Handshake) -> (r: bool)
        ensures
            r == (handshake.info_hash@ == self.meta.info_hash.0@),
    {
        crate::piece::same_digest(&handshake.info_hash, &self.meta.info_hash.0)
    }

    /// The handshake that is sent to a peer.
    pub fn handshake(&self) -> (r: Handshake)
        ensures
            r@.info_hash == self.meta.info_hash.0@,
            r@.peer_id == self.peer_id@,
    {
        Handshake::new(self.meta.info_hash.0, self.peer_id)
    }
}

proof fn lemma_product_fits(a: int, b: int)
    by (nonlinear_arith)
    requires
        0 <= a <= 0x1_0000_0000_0000_0000,
        0 <= b <= 0xffff_ffff_ffff_ffff,
    ensures
        0 <= a * b <= 0xffff_ffff_ffff_ffff_ffff_ffff_ffff_ffff,
{
}

/// One flag for each of `n` pieces, none of them set.
fn no_pieces(n: usize) -> (r: Vec<bool>)
    ensures
        r@ == Seq::new(n as nat, |i: int| false),
{
    let mut flags: Vec<bool> = Vec::with_capacity(n);
    let mut i: usize = 0;
    while i < n
        invariant
            i <= n,
            flags@ == Seq::new(i as nat, |k: int| false),
        decreases n - i,
    {
        flags.push(false);
        i += 1;
    }
    flags
}

/// The flags of a check to which `answers` were given, piece by piece.
pub open spec fn checked(info: InfoView, answers: Seq<Option<Seq<u8>>>) -> CheckView
    decreases answers.len(),
{
    if answers.len() == 0 {
        CheckView { completed: Seq::new(info.pieces.len(), |i: int| false), next: 0 }
    } else {
        after_record(checked(info, answers.drop_last()), info, answers.last())
    }
}

/// A check marks exactly the pieces that were looked at and whose bytes have the
/// digest that the metainfo names.
pub proof fn check_marks_intact_pieces(info: InfoView, answers: Seq<Option<Seq<u8>>>)
    requires
        answers.len() <= info.pieces.len(),
    ensures
        checked(info, answers).next == answers.len(),
        checked(info, answers).completed.len() == info.pieces.len(),
        forall|i: int|
            0 <= i < info.pieces.len() ==> (#[trigger] checked(info, answers).completed[i] <==> (i < answers.len()
                && is_intact(info, i, answers[i]))),
    decreases answers.len(),
{
    if answers.len() > 0 {
        check_marks_intact_pieces(info, answers.drop_last());
    }
}

/// What is missing after a check is what was not intact, each piece once and in
/// order.
pub proof fn missing_is_what_is_not_done(completed: Seq<bool>, n: int)
    requires
        0 <= n <= completed.len() <= u32::MAX,
    ensures
        forall|k: int|
            0 <= k < not_done(completed, n).len() ==> (#[trigger] not_done(completed, n)[k]) < n
                && !completed[not_done(completed, n)[k] as int],
        forall|i: int| 0 <= i < n && !#[trigger] completed[i] ==> not_done(completed, n).contains(i as u32),
        forall|j: int, k: int|
            0 <= j < k < not_done(completed, n).len() ==> not_done(completed, n)[j] < not_done(completed, n)[k],
        not_done(completed, n).len() + ones(completed.take(n)) == n,
    decreases n,
{
    if n > 0 {
        missing_is_what_is_not_done(completed, n - 1);
        let fewer = not_done(completed, n - 1);
        let all = not_done(completed, n);
        assert(completed.take(n).drop_last() =~= completed.take(n - 1));
        assert forall|i: int| 0 <= i < n && !#[trigger] completed[i] implies all.contains(i as u32) by {
            if i < n - 1 {
                let k = choose|k: int| 0 <= k < fewer.len() && fewer[k] == i as u32;
                assert(fewer.contains(i as u32));
                assert(all[k] == i as u32);
            } else {
                assert(all[all.len() - 1] == i as u32);
            }
        }
    } else {
        assert(completed.take(0) =~= Seq::<bool>::empty());
    }
}

/// A torrent whose pieces are all intact counts as downloaded as a whole.
pub proof fn all_done_is_the_whole(info: InfoView, completed: Seq<bool>)
    requires
        0 < completed.len() == info.pieces.len(),
        forall|i: int| 0 <= i < completed.len() ==> #[trigger] completed[i],
    ensures
        verified_size(info, completed, completed.len() as int) == mode_size(info.mode),
        not_done(completed, completed.len() as int) == Seq::<u32>::empty(),
{
    let n = completed.len() as int;
    lemma_full_pieces(info, completed, n - 1);
    assert(completed[n - 1]);
}

proof fn lemma_full_pieces(info: InfoView, completed: Seq<bool>, n: int)
    requires
        0 <= n < completed.len() == info.pieces.len(),
        forall|i: int| 0 <= i < completed.len() ==> #[trigger] completed[i],
    ensures
        verified_size(info, completed, n) == n * info.piece_length,
        not_done(completed, n) == Seq::<u32>::empty(),
    decreases n,
{
    if n > 0 {
        lemma_full_pieces(info, completed, n - 1);
        assert(completed[n - 1]);
        lemma_mul_is_distributive_add_other_way(info.piece_length as int, n - 1, 1);
    } else {
        assert(n * info.piece_length == 0) by (nonlinear_arith)
            requires
                n == 0,
        ;
    }
}

} // verus!
