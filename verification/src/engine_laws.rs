//! What holds of the pieces of a torrent and of a check of them.
use vstd::arithmetic::mul::{lemma_mul_inequality, lemma_mul_is_distributive_add_other_way};
use vstd::prelude::*;
use crate::digest::sha1_digest;
use crate::engine::{
    after_check, checked, counted_size, not_done, piece_range, plausible, verified_size,
};
use crate::meta::InfoView;
use crate::state::StateView;
use crate::storage::mode_size;

verus! {

/// The pieces divide the data: each begins where the one before ends, has the full
/// length or ends with the data, and none lies behind the end of the data.
pub proof fn pieces_lie_one_behind_the_other(info: InfoView, i: int)
    ensures
        piece_range(info, i) is Some <==> 0 <= i < info.pieces.len() && i * info.piece_length < mode_size(info.mode),
        piece_range(info, i) matches Some((start, len)) ==> ({
            &&& start == i * info.piece_length
            &&& 0 <= len <= info.piece_length
            &&& start + len <= mode_size(info.mode)
            &&& len == info.piece_length || start + len == mode_size(info.mode)
            &&& i == 0 ==> start == 0
        }),
        piece_range(info, i) matches Some((start, len)) ==> (piece_range(info, i + 1) matches Some((next, more))
            ==> next == start + len),
{
    lemma_mul_is_distributive_add_other_way(info.piece_length as int, i, 1);
    if i == 0 {
        assert(i * info.piece_length == 0) by (nonlinear_arith)
            requires
                i == 0,
        ;
    }
}

/// Whether the byte at `at` belongs to piece `i`.
pub open spec fn lies_in(info: InfoView, i: int, at: int) -> bool {
    piece_range(info, i) matches Some((start, len)) && start <= at < start + len
}

/// Where the pieces divide the data, every byte of it lies in exactly one piece.
pub proof fn every_byte_lies_in_one_piece(info: InfoView, at: int)
    requires
        0 <= at < mode_size(info.mode) <= info.pieces.len() * info.piece_length,
    ensures
        exists|i: int| lies_in(info, i, at),
        forall|i: int, j: int| lies_in(info, i, at) && lies_in(info, j, at) ==> i == j,
{
    let l = info.piece_length as int;
    let n = info.pieces.len() as int;
    assert(l > 0) by (nonlinear_arith)
        requires
            0 < n * l,
            n >= 0,
            l >= 0,
    ;
    let i = at / l;
    assert(i * l <= at < i * l + l && 0 <= i < n) by (nonlinear_arith)
        requires
            i == at / l,
            l > 0,
            0 <= at < n * l,
    ;
    assert(lies_in(info, i, at));
    assert forall|i: int, j: int| lies_in(info, i, at) && lies_in(info, j, at) implies i == j by {
        assert(i == j) by (nonlinear_arith)
            requires
                i * l <= at < i * l + l,
                j * l <= at < j * l + l,
        ;
    }
}

/// A check marks exactly the pieces that were looked at and whose bytes could be
/// read and have the digest that the metainfo names.
pub proof fn a_marked_piece_has_its_digest(info: InfoView, answers: Seq<Option<Seq<u8>>>, i: int)
    requires
        0 <= i < info.pieces.len(),
        answers.len() <= info.pieces.len(),
    ensures
        checked(info, answers).completed[i] <==> i < answers.len() && (answers[i] matches Some(data) && sha1_digest(data)
            == info.pieces[i]),
{
    crate::engine::check_marks_intact_pieces(info, answers);
}

/// Whether a piece was done among the first ones does not matter for the others.
proof fn lemma_one_flag(info: InfoView, completed: Seq<bool>, i: int, n: int)
    requires
        0 <= i < completed.len(),
        0 <= n <= completed.len(),
    ensures
        verified_size(info, completed.update(i, true), n) == verified_size(info, completed.update(i, false), n)
            + if i < n {
            counted_size(info, i)
        } else {
            0
        },
    decreases n,
{
    if n > 0 {
        lemma_one_flag(info, completed, i, n - 1);
    }
}

/// Every piece that is done counts, whatever the others are: a full piece for its
/// length, and the last one for what the others leave. With none done, nothing
/// counts.
pub proof fn every_piece_counts(info: InfoView, completed: Seq<bool>, i: int)
    requires
        completed.len() == info.pieces.len(),
        0 <= i < completed.len(),
    ensures
        verified_size(info, completed.update(i, true), completed.len() as int) - verified_size(
            info,
            completed.update(i, false),
            completed.len() as int,
        ) == if i < completed.len() - 1 {
            info.piece_length as int
        } else {
            mode_size(info.mode) - i * info.piece_length
        },
{
    lemma_one_flag(info, completed, i, completed.len() as int);
}

/// Where the pieces divide the data, a piece that turns out to be done raises what
/// counts as downloaded by exactly as many bytes as it has, whatever the other
/// pieces are.
pub proof fn a_piece_counts_for_its_bytes(info: InfoView, completed: Seq<bool>, i: int)
    requires
        completed.len() == info.pieces.len(),
        0 <= i < completed.len(),
        (completed.len() - 1) * info.piece_length < mode_size(info.mode) <= completed.len() * info.piece_length,
    ensures
        piece_range(info, i) matches Some((start, len)) && verified_size(
            info,
            completed.update(i, true),
            completed.len() as int,
        ) == verified_size(info, completed.update(i, false), completed.len() as int) + len,
{
    let n = completed.len() as int;
    let l = info.piece_length as int;
    lemma_one_flag(info, completed, i, n);
    lemma_mul_is_distributive_add_other_way(l, n - 1, 1);
    lemma_mul_is_distributive_add_other_way(l, i, 1);
    if i < n - 1 {
        lemma_mul_inequality(i + 1, n - 1, l);
    }
}

/// Where no piece is done, nothing counts.
pub proof fn nothing_done_counts_for_nothing(info: InfoView, completed: Seq<bool>, n: int)
    requires
        0 <= n <= completed.len(),
        forall|i: int| 0 <= i < completed.len() ==> !#[trigger] completed[i],
    ensures
        verified_size(info, completed, n) == 0,
    decreases n,
{
    if n > 0 {
        nothing_done_counts_for_nothing(info, completed, n - 1);
    }
}

proof fn lemma_not_negative(info: InfoView, completed: Seq<bool>, n: int)
    requires
        0 <= n <= completed.len() == info.pieces.len(),
        plausible(info, completed),
    ensures
        0 <= verified_size(info, completed, n),
    decreases n,
{
    if n > 0 {
        lemma_not_negative(info, completed, n - 1);
        if completed[n - 1] {
            assert(piece_range(info, n - 1) is Some);
        }
    }
}

/// After a check a torrent has as many bytes as its intact pieces count for, and
/// never more than there are; it is complete exactly where every piece is intact;
/// and nothing else has changed.
pub proof fn a_check_tells_how_far_a_torrent_is(s: StateView, info: InfoView, completed: Seq<bool>)
    requires
        plausible(info, completed),
        completed.len() <= u32::MAX,
    ensures
        ({
            let after = after_check(s, info, completed);
            let counted = verified_size(info, completed, completed.len() as int);
            &&& counted <= s.size ==> after.downloaded == counted
            &&& counted > s.size ==> after.downloaded == s.size
            &&& (forall|i: int| 0 <= i < completed.len() ==> #[trigger] completed[i]) ==> after.status == "Completed"@
            &&& (exists|i: int| 0 <= i < completed.len() && !#[trigger] completed[i]) ==> after.status
                == "Downloading"@
            &&& after == (StateView { downloaded: after.downloaded, status: after.status, ..s })
        }),
{
    let n = completed.len() as int;
    lemma_not_negative(info, completed, n);
    crate::engine::missing_is_what_is_not_done(completed, n);
    let missing = not_done(completed, n);
    if missing.len() > 0 {
        assert(!completed[missing[0] as int]);
    }
}

/// The flags of a check can have come about exactly where every piece that is
/// marked begins within the data and its end is a 64-bit number. So no flag is ruled
/// out of a torrent whose pieces divide its data.
pub proof fn what_a_check_can_find(info: InfoView, completed: Seq<bool>)
    requires
        completed.len() == info.pieces.len(),
        (completed.len() - 1) * info.piece_length < mode_size(info.mode),
        completed.len() * info.piece_length <= u64::MAX,
    ensures
        plausible(info, completed),
{
    let n = completed.len() as int;
    let l = info.piece_length as int;
    assert forall|i: int| 0 <= i < completed.len() && #[trigger] completed[i] implies piece_range(info, i) is Some && (i
        + 1) * info.piece_length <= u64::MAX by {
        lemma_mul_inequality(i, n - 1, l);
        lemma_mul_inequality(i + 1, n, l);
    }
}

} // verus!
