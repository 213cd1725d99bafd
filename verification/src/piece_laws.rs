//! What holds of pieces as a whole.
use vstd::prelude::*;
use crate::piece::{
    bit_of, bit_share, bit_weight, is_candidate, is_next, is_rarer, marked, one_fewer, one_more, ones, packed,
    packed_byte, unpacked, PickerView,
};

verus! {

/// Bits are read back from the bytes that they are packed in.
pub proof fn packed_reads_back(bits: Seq<bool>)
    ensures
        packed(bits).len() == (bits.len() + 7) / 8,
        unpacked(packed(bits)).take(bits.len() as int) == bits,
{
    let bytes = packed(bits);
    let back = unpacked(bytes).take(bits.len() as int);
    assert forall|i: int| 0 <= i < bits.len() implies back[i] == bits[i] by {
        let j = i / 8;
        let k = i % 8;
        assert(bytes[j] == packed_byte(bits, 8 * j));
        lemma_byte_of_bits(bits, 8 * j);
        assert(bit_of(bytes[j], k) == (bit_share(bits, 8 * j + k) != 0));
    }
    assert(back =~= bits);
}

/// Bytes are packed again from their bits.
pub proof fn unpacked_packs_back(bytes: Seq<u8>)
    ensures
        packed(unpacked(bytes)) == bytes,
{
    let bits = unpacked(bytes);
    assert forall|j: int| 0 <= j < bytes.len() implies packed(bits)[j] == bytes[j] by {
        lemma_packed_again(bytes, j);
    }
    assert(packed(bits) =~= bytes);
}

/// What bit `k` of a byte adds to it.
#[verifier::opaque]
spec fn byte_share(b: u8, k: int) -> int {
    if bit_of(b, k) {
        bit_weight(k)
    } else {
        0
    }
}

proof fn lemma_packed_again(bytes: Seq<u8>, j: int)
    requires
        0 <= j < bytes.len(),
    ensures
        packed_byte(unpacked(bytes), 8 * j) == bytes[j],
{
    lemma_share(bytes, j, 0);
    lemma_share(bytes, j, 1);
    lemma_share(bytes, j, 2);
    lemma_share(bytes, j, 3);
    lemma_share(bytes, j, 4);
    lemma_share(bytes, j, 5);
    lemma_share(bytes, j, 6);
    lemma_share(bytes, j, 7);
    lemma_byte_shares(bytes[j]);
}

proof fn lemma_share(bytes: Seq<u8>, j: int, k: int)
    requires
        0 <= j < bytes.len(),
        0 <= k < 8,
    ensures
        bit_share(unpacked(bytes), 8 * j + k) == byte_share(bytes[j], k),
{
    assert((8 * j + k) / 8 == j);
    assert((8 * j + k) % 8 == k);
    assert(unpacked(bytes)[8 * j + k] == bit_of(bytes[j], k));
    reveal(byte_share);
}

proof fn lemma_byte_shares(b: u8)
    ensures
        b == byte_share(b, 0) + byte_share(b, 1) + byte_share(b, 2) + byte_share(b, 3) + byte_share(b, 4) + byte_share(
            b,
            5,
        ) + byte_share(b, 6) + byte_share(b, 7),
{
    reveal(byte_share);
    lemma_byte_is_its_bits(b);
}

/// The bits of a packed byte are the bits that it was packed from.
proof fn lemma_byte_of_bits(bits: Seq<bool>, i: int)
    requires
        0 <= i,
        i % 8 == 0,
    ensures
        forall|k: int| 0 <= k < 8 ==> bit_of(packed_byte(bits, i), k) == (#[trigger] bit_share(bits, i + k) != 0),
{
    let s0 = bit_share(bits, i);
    let s1 = bit_share(bits, i + 1);
    let s2 = bit_share(bits, i + 2);
    let s3 = bit_share(bits, i + 3);
    let s4 = bit_share(bits, i + 4);
    let s5 = bit_share(bits, i + 5);
    let s6 = bit_share(bits, i + 6);
    let s7 = bit_share(bits, i + 7);
    assert(s0 == 0 || s0 == 128);
    assert(s1 == 0 || s1 == 64);
    assert(s2 == 0 || s2 == 32);
    assert(s3 == 0 || s3 == 16);
    assert(s4 == 0 || s4 == 8);
    assert(s5 == 0 || s5 == 4);
    assert(s6 == 0 || s6 == 2);
    assert(s7 == 0 || s7 == 1);
    lemma_sum_of_weights(s0 as u8, s1 as u8, s2 as u8, s3 as u8, s4 as u8, s5 as u8, s6 as u8, s7 as u8);
    assert forall|k: int| 0 <= k < 8 implies bit_of(packed_byte(bits, i), k) == (#[trigger] bit_share(bits, i + k) != 0) by {
        if k == 0 {
            assert(bit_share(bits, i + k) == s0);
        }
    }
}

/// A sum of different weights shows which of them it is made of.
proof fn lemma_sum_of_weights(s0: u8, s1: u8, s2: u8, s3: u8, s4: u8, s5: u8, s6: u8, s7: u8)
    by (bit_vector)
    requires
        s0 == 0 || s0 == 128,
        s1 == 0 || s1 == 64,
        s2 == 0 || s2 == 32,
        s3 == 0 || s3 == 16,
        s4 == 0 || s4 == 8,
        s5 == 0 || s5 == 4,
        s6 == 0 || s6 == 2,
        s7 == 0 || s7 == 1,
    ensures
        s0 + s1 + s2 + s3 + s4 + s5 + s6 + s7 <= 255,
        (s0 + s1 + s2 + s3 + s4 + s5 + s6 + s7) as u8 / 128 % 2 == 1 <==> s0 != 0,
        (s0 + s1 + s2 + s3 + s4 + s5 + s6 + s7) as u8 / 64 % 2 == 1 <==> s1 != 0,
        (s0 + s1 + s2 + s3 + s4 + s5 + s6 + s7) as u8 / 32 % 2 == 1 <==> s2 != 0,
        (s0 + s1 + s2 + s3 + s4 + s5 + s6 + s7) as u8 / 16 % 2 == 1 <==> s3 != 0,
        (s0 + s1 + s2 + s3 + s4 + s5 + s6 + s7) as u8 / 8 % 2 == 1 <==> s4 != 0,
        (s0 + s1 + s2 + s3 + s4 + s5 + s6 + s7) as u8 / 4 % 2 == 1 <==> s5 != 0,
        (s0 + s1 + s2 + s3 + s4 + s5 + s6 + s7) as u8 / 2 % 2 == 1 <==> s6 != 0,
        (s0 + s1 + s2 + s3 + s4 + s5 + s6 + s7) as u8 / 1 % 2 == 1 <==> s7 != 0,
{
}

/// A byte is the sum of the weights of its bits.
proof fn lemma_byte_is_its_bits(b: u8)
    by (bit_vector)
    ensures
        b == (if b / 128 % 2 == 1 { 128u8 } else { 0u8 }) + (if b / 64 % 2 == 1 { 64u8 } else { 0u8 }) + (if b / 32 % 2
            == 1 { 32u8 } else { 0u8 }) + (if b / 16 % 2 == 1 { 16u8 } else { 0u8 }) + (if b / 8 % 2 == 1 {
            8u8
        } else {
            0u8
        }) + (if b / 4 % 2 == 1 { 4u8 } else { 0u8 }) + (if b / 2 % 2 == 1 { 2u8 } else { 0u8 }) + (if b / 1 % 2 == 1 {
            1u8
        } else {
            0u8
        }),
{
}

/// A peer that comes with a piece and leaves again changes nothing.
pub proof fn lost_undoes_has(availability: Seq<usize>, i: int)
    requires
        0 <= i < availability.len() ==> availability[i] < usize::MAX,
    ensures
        one_fewer(one_more(availability, i), i) == availability,
{
    assert(one_fewer(one_more(availability, i), i) =~= availability);
}

/// A piece that was picked is not picked again once it is marked as requested
/// or as downloaded.
pub proof fn marked_is_not_picked(picker: PickerView, peer: Seq<bool>, i: int)
    requires
        is_next(picker, peer, i),
        picker.downloaded.len() == picker.availability.len(),
        picker.requested.len() == picker.availability.len(),
    ensures
        !is_candidate(PickerView { requested: marked(picker.requested, i, true), ..picker }, peer, i),
        !is_candidate(PickerView { downloaded: marked(picker.downloaded, i, true), ..picker }, peer, i),
{
}

/// At most one piece is the one to fetch next.
pub proof fn next_is_unique(picker: PickerView, peer: Seq<bool>, i: int, j: int)
    requires
        is_next(picker, peer, i),
        is_next(picker, peer, j),
    ensures
        i == j,
{
}

/// The first bit of a byte is the one that is worth 128, and each bit behind it is
/// worth half as much; a byte set for one piece alone has that bit alone.
pub proof fn what_a_bit_is_worth(k: int)
    requires
        0 <= k < 8,
    ensures
        bit_weight(0) == 128,
        k < 7 ==> bit_weight(k) == 2 * bit_weight(k + 1),
        bit_weight(7) == 1,
        forall|byte: u8| #[trigger] bit_of(byte, k) <==> byte as int / bit_weight(k) % 2 == 1,
{
}

/// Bit `k` of byte `j` tells of piece `8 * j + k`, when bits are read as well as when
/// they are written; behind the last piece no bit is set.
pub proof fn which_bit_tells_of_a_piece(bits: Seq<bool>, bytes: Seq<u8>, j: int, k: int)
    requires
        0 <= j,
        0 <= k < 8,
    ensures
        unpacked(bytes).len() == 8 * bytes.len(),
        j < bytes.len() ==> unpacked(bytes)[8 * j + k] == bit_of(bytes[j], k),
        packed(bits).len() * 8 >= bits.len() > packed(bits).len() * 8 - 8,
        j < packed(bits).len() ==> bit_of(packed(bits)[j], k) == (8 * j + k < bits.len() && bits[8 * j + k]),
{
    assert((8 * j + k) / 8 == j);
    assert((8 * j + k) % 8 == k);
    if j < packed(bits).len() {
        lemma_byte_of_bits(bits, 8 * j);
        assert(bit_of(packed(bits)[j], k) == (bit_share(bits, 8 * j + k) != 0));
    }
}

proof fn lemma_one_bit(bits: Seq<bool>, i: int)
    requires
        0 <= i < bits.len(),
    ensures
        ones(bits.update(i, true)) == ones(bits.update(i, false)) + 1,
    decreases bits.len(),
{
    let on = bits.update(i, true);
    let off = bits.update(i, false);
    if i == bits.len() - 1 {
        assert(on.drop_last() =~= off.drop_last());
    } else {
        lemma_one_bit(bits.drop_last(), i);
        assert(on.drop_last() =~= bits.drop_last().update(i, true));
        assert(off.drop_last() =~= bits.drop_last().update(i, false));
    }
}

/// Every bit that is set counts for one, wherever it stands and whatever the others
/// are; where none is set, nothing counts.
pub proof fn every_bit_counts(bits: Seq<bool>, i: int)
    ensures
        0 <= i < bits.len() ==> ones(bits.update(i, true)) == ones(bits.update(i, false)) + 1,
        (forall|k: int| 0 <= k < bits.len() ==> !#[trigger] bits[k]) ==> ones(bits) == 0,
        ones(bits) <= bits.len(),
    decreases bits.len(),
{
    if 0 <= i < bits.len() {
        lemma_one_bit(bits, i);
    }
    if bits.len() > 0 {
        let fewer = bits.drop_last();
        every_bit_counts(fewer, -1);
        if forall|k: int| 0 <= k < bits.len() ==> !#[trigger] bits[k] {
            assert forall|k: int| 0 <= k < fewer.len() implies !#[trigger] fewer[k] by {
                assert(!bits[k]);
            }
            assert(!bits[bits.len() - 1]);
        }
    }
}

/// The piece to fetch next is one that the peer has and that is neither here nor
/// requested; no such piece is offered by fewer peers, and of those that are offered
/// by as many it is the first.
pub proof fn the_next_piece_is_the_rarest(picker: PickerView, peer: Seq<bool>, i: int)
    requires
        is_next(picker, peer, i),
    ensures
        0 <= i < picker.availability.len(),
        i < peer.len(),
        peer[i],
        !picker.downloaded[i],
        !picker.requested[i],
        forall|j: int|
            0 <= j < picker.availability.len() && j < peer.len() && #[trigger] peer[j] && !picker.downloaded[j]
                && !picker.requested[j] ==> picker.availability[i] <= picker.availability[j] && (
            picker.availability[i] == picker.availability[j] ==> i <= j),
{
    assert forall|j: int|
        0 <= j < picker.availability.len() && j < peer.len() && #[trigger] peer[j] && !picker.downloaded[j]
            && !picker.requested[j] implies picker.availability[i] <= picker.availability[j] && (picker.availability[i]
        == picker.availability[j] ==> i <= j) by {
        assert(is_candidate(picker, peer, j));
    }
}

/// Where a peer has a piece that is neither here nor requested, there is a piece to
/// fetch next.
pub proof fn where_there_is_a_candidate_there_is_a_next(picker: PickerView, peer: Seq<bool>, k: int)
    requires
        0 <= k < picker.availability.len(),
        k < peer.len(),
        peer[k],
        !picker.downloaded[k],
        !picker.requested[k],
    ensures
        exists|i: int| is_next(picker, peer, i),
{
    assert(is_candidate(picker, peer, k));
    lemma_next_upto(picker, peer, picker.availability.len() as int, k);
    let i = choose|i: int| is_next_upto(picker, peer, picker.availability.len() as int, i);
    assert(is_next(picker, peer, i));
}

/// Whether piece `i` is to be preferred to every other one below `n`.
spec fn is_next_upto(picker: PickerView, peer: Seq<bool>, n: int, i: int) -> bool {
    &&& i < n
    &&& is_candidate(picker, peer, i)
    &&& forall|j: int| #[trigger] is_candidate(picker, peer, j) && j < n && j != i ==> is_rarer(picker, i, j)
}

proof fn lemma_next_upto(picker: PickerView, peer: Seq<bool>, n: int, k: int)
    requires
        is_candidate(picker, peer, k),
        k < n <= picker.availability.len(),
    ensures
        exists|i: int| is_next_upto(picker, peer, n, i),
    decreases n,
{
    let last = n - 1;
    if k < last {
        lemma_next_upto(picker, peer, last, k);
        let i = choose|i: int| is_next_upto(picker, peer, last, i);
        if is_candidate(picker, peer, last) && is_rarer(picker, last, i) {
            assert forall|j: int| #[trigger] is_candidate(picker, peer, j) && j < n && j != last implies is_rarer(
                picker,
                last,
                j,
            ) by {
                if j != i {
                    assert(is_rarer(picker, i, j));
                }
            }
            assert(is_next_upto(picker, peer, n, last));
        } else {
            assert(is_next_upto(picker, peer, n, i));
        }
    } else if exists|j: int| is_candidate(picker, peer, j) && j < last {
        let j = choose|j: int| is_candidate(picker, peer, j) && j < last;
        lemma_next_upto(picker, peer, last, j);
        let i = choose|i: int| is_next_upto(picker, peer, last, i);
        if is_rarer(picker, last, i) {
            assert forall|j: int| #[trigger] is_candidate(picker, peer, j) && j < n && j != last implies is_rarer(
                picker,
                last,
                j,
            ) by {
                if j != i {
                    assert(is_rarer(picker, i, j));
                }
            }
            assert(is_next_upto(picker, peer, n, last));
        } else {
            assert(is_next_upto(picker, peer, n, i));
        }
    } else {
        assert(is_next_upto(picker, peer, n, k));
    }
}

/// A peer more or fewer for a piece changes the count of that piece by one and no
/// other; a count does not go below zero, and a piece that there is not has none.
pub proof fn peers_are_counted(availability: Seq<usize>, i: int, k: int)
    requires
        0 <= i < availability.len() ==> availability[i] < usize::MAX,
    ensures
        one_more(availability, i).len() == availability.len(),
        one_fewer(availability, i).len() == availability.len(),
        0 <= k < availability.len() ==> {
            &&& one_more(availability, i)[k] == availability[k] + if k == i {
                1int
            } else {
                0
            }
            &&& one_fewer(availability, i)[k] == if k == i && availability[k] > 0 {
                availability[k] - 1
            } else {
                availability[k] as int
            }
        },
{
}

/// Marking a piece changes its bit and no other; a piece that there is not has none.
pub proof fn one_bit_is_marked(bits: Seq<bool>, i: int, value: bool, k: int)
    ensures
        marked(bits, i, value).len() == bits.len(),
        0 <= k < bits.len() ==> marked(bits, i, value)[k] == if k == i {
            value
        } else {
            bits[k]
        },
{
}

} // verus!
