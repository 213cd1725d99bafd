//! Pieces: which of them are there, which to fetch next, and whether one is intact.
use bitvec::order::Msb0;
use bitvec::vec::BitVec;
use vstd::prelude::*;
use crate::digest::{sha1, sha1_digest};

verus! {

pub type PieceIndex = u32;

pub type BlockIndex = u32;

/// The bits of bit vectors whose first bit is the most significant one of the
/// first byte.
#[derive(Debug, PartialEq, Eq)]
#[verifier::external_body]
pub struct Bits {
    inner: BitVec<u8, Msb0>,
}

impl Clone for Bits {
    /// `BitVec::clone` gives a bit vector that holds the same bits.
    #[verifier::external_body]
    fn clone(&self) -> (r: Self)
        ensures
            bits_held(r) == bits_held(*self),
    {
        Bits { inner: self.inner.clone() }
    }
}

/// The bits that a bit vector holds, from the first to the last.
pub uninterp spec fn bits_held(bits: Bits) -> Seq<bool>;

/// What bit `k` of a byte is worth, where bit 0 is the most significant one.
pub open spec fn bit_weight(k: int) -> int {
    if k == 0 {
        128
    } else if k == 1 {
        64
    } else if k == 2 {
        32
    } else if k == 3 {
        16
    } else if k == 4 {
        8
    } else if k == 5 {
        4
    } else if k == 6 {
        2
    } else {
        1
    }
}

/// Bit `k` of a byte, where bit 0 is the most significant one.
pub open spec fn bit_of(byte: u8, k: int) -> bool {
    byte as int / bit_weight(k) % 2 == 1
}

/// The bits of bytes, eight of each.
pub open spec fn unpacked(bytes: Seq<u8>) -> Seq<bool> {
    Seq::new(8 * bytes.len(), |i: int| bit_of(bytes[i / 8], i % 8))
}

/// What bit `i` adds to its byte; there is nothing behind the last bit.
pub open spec fn bit_share(bits: Seq<bool>, i: int) -> int {
    if i < bits.len() && bits[i] {
        bit_weight(i % 8)
    } else {
        0
    }
}

/// The byte that eight bits make from bit `i` on.
pub open spec fn packed_byte(bits: Seq<bool>, i: int) -> u8 {
    (bit_share(bits, i) + bit_share(bits, i + 1) + bit_share(bits, i + 2) + bit_share(bits, i + 3)
        + bit_share(bits, i + 4) + bit_share(bits, i + 5) + bit_share(bits, i + 6) + bit_share(
        bits,
        i + 7,
    )) as u8
}

/// Bits as bytes: eight to a byte, with zeros behind the last bit.
pub open spec fn packed(bits: Seq<bool>) -> Seq<u8> {
    Seq::new((bits.len() + 7) / 8, |j: int| packed_byte(bits, 8 * j))
}

/// How many of the bits are set.
pub open spec fn ones(bits: Seq<bool>) -> nat
    decreases bits.len(),
{
    if bits.len() == 0 {
        0
    } else {
        ones(bits.drop_last()) + if bits.last() {
            1nat
        } else {
            0nat
        }
    }
}

/// `BitVec::repeat` makes `len` bits that are all `bit`. A longer vector than
/// an eighth of the address space cannot be made.
#[verifier::external_body]
fn repeated(bit: bool, len: usize) -> (r: Bits)
    requires
        len <= usize::MAX / 8,
    ensures
        bits_held(r) == Seq::new(len as nat, |i: int| bit),
{
    Bits { inner: BitVec::repeat(bit, len) }
}

/// `BitVec::from_vec` takes every bit of every byte, the most significant one
/// first. More bytes than there can be bits of are not accepted.
#[verifier::external_body]
fn from_vec(bytes: Vec<u8>) -> (r: Bits)
    requires
        bytes@.len() * 8 <= usize::MAX / 8,
    ensures
        bits_held(r) == unpacked(bytes@),
{
    Bits { inner: BitVec::from_vec(bytes) }
}

/// `BitVec::truncate` drops the bits from `len` on, if there are any.
#[verifier::external_body]
fn truncate(bits: &mut Bits, len: usize)
    ensures
        bits_held(*final(bits)) == if len < bits_held(*old(bits)).len() {
            bits_held(*old(bits)).take(len as int)
        } else {
            bits_held(*old(bits))
        },
{
    bits.inner.truncate(len)
}

/// `BitVec::into_vec` on what `BitVec::clone` gives: the bytes that hold the
/// bits. The copy starts at the first bit of a byte, as every bit vector here
/// does, and is zero behind the last bit.
#[verifier::external_body]
fn clone_into_vec(bits: &Bits) -> (r: Vec<u8>)
    ensures
        r@ == packed(bits_held(*bits)),
{
    bits.inner.clone().into_vec()
}

/// `BitSlice::get` gives a bit, and nothing behind the last one.
#[verifier::external_body]
fn bit_at(bits: &Bits, index: usize) -> (r: Option<bool>)
    ensures
        r == if index < bits_held(*bits).len() {
            Some(bits_held(*bits)[index as int])
        } else {
            None::<bool>
        },
{
    bits.inner.get(index).as_deref().copied()
}

/// `BitSlice::set` writes one bit. It panics behind the last one.
#[verifier::external_body]
fn set_bit(bits: &mut Bits, index: usize, value: bool)
    requires
        index < bits_held(*old(bits)).len(),
    ensures
        bits_held(*final(bits)) == bits_held(*old(bits)).update(index as int, value),
{
    bits.inner.set(index, value)
}

/// `BitSlice::len` counts the bits.
#[verifier::external_body]
fn bit_count(bits: &Bits) -> (r: usize)
    ensures
        r == bits_held(*bits).len(),
{
    bits.inner.len()
}

/// `BitSlice::is_empty` tells whether there is no bit.
#[verifier::external_body]
fn has_no_bits(bits: &Bits) -> (r: bool)
    ensures
        r == (bits_held(*bits).len() == 0),
{
    bits.inner.is_empty()
}

/// `BitSlice::count_ones` counts the bits that are set.
#[verifier::external_body]
fn count_set(bits: &Bits) -> (r: usize)
    ensures
        r == ones(bits_held(*bits)),
{
    bits.inner.count_ones()
}

/// Which pieces somebody has.
#[derive(Debug, PartialEq, Eq)]
pub struct Bitfield {
    bits: Bits,
}

impl Clone for Bitfield {
    fn clone(&self) -> (r: Self)
        ensures
            r@ == self@,
    {
        Bitfield { bits: self.bits.clone() }
    }
}

impl Bitfield {
    /// One bit for each piece.
    pub closed spec fn view(&self) -> Seq<bool> {
        bits_held(self.bits)
    }

    /// No piece of `len`.
    pub fn new(len: usize) -> (r: Self)
        requires
            len <= usize::MAX / 8,
        ensures
            r@ == Seq::new(len as nat, |i: int| false),
    {
        Bitfield { bits: repeated(false, len) }
    }

    /// The first `bit_len` bits of `bytes`, or all of them where there are fewer.
    pub fn from_bytes(bytes: Vec<u8>, bit_len: usize) -> (r: Self)
        requires
            bytes@.len() * 8 <= usize::MAX / 8,
        ensures
            r@ == if bit_len < 8 * bytes@.len() {
                unpacked(bytes@).take(bit_len as int)
            } else {
                unpacked(bytes@)
            },
    {
        let mut bits = from_vec(bytes);
        truncate(&mut bits, bit_len);
        Bitfield { bits }
    }

    /// The bits as bytes.
    pub fn to_bytes(&self) -> (r: Vec<u8>)
        ensures
            r@ == packed(self@),
    {
        clone_into_vec(&self.bits)
    }

    /// Whether piece `index` is there; nothing where there is no such piece.
    pub fn get(&self, index: usize) -> (r: Option<bool>)
        ensures
            r == if index < self@.len() {
                Some(self@[index as int])
            } else {
                None::<bool>
            },
    {
        bit_at(&self.bits, index)
    }

    /// Notes whether piece `index` is there, if there is such a piece.
    pub fn set(&mut self, index: usize, value: bool)
        ensures
            final(self)@ == if index < old(self)@.len() {
                old(self)@.update(index as int, value)
            } else {
                old(self)@
            },
    {
        if index < bit_count(&self.bits) {
            set_bit(&mut self.bits, index, value);
        }
    }

    /// The number of pieces.
    pub fn len(&self) -> (r: usize)
        ensures
            r == self@.len(),
    {
        bit_count(&self.bits)
    }

    /// Whether there are no pieces at all.
    pub fn is_empty(&self) -> (r: bool)
        ensures
            r == (self@.len() == 0),
    {
        has_no_bits(&self.bits)
    }

    /// How many pieces are there.
    pub fn count_ones(&self) -> (r: usize)
        ensures
            r == ones(self@),
    {
        count_set(&self.bits)
    }
}

/// What a picker knows of the pieces: how many peers offer each, and which are
/// downloaded or requested.
pub struct PickerView {
    pub availability: Seq<usize>,
    pub downloaded: Seq<bool>,
    pub requested: Seq<bool>,
}

/// Whether a piece is neither here nor requested, and the peer has it.
pub open spec fn is_candidate(picker: PickerView, peer: Seq<bool>, i: int) -> bool {
    &&& 0 <= i < picker.availability.len()
    &&& !picker.downloaded[i]
    &&& !picker.requested[i]
    &&& i < peer.len()
    &&& peer[i]
}

/// Whether piece `i` is to be preferred to piece `j`: fewer peers offer it, or
/// as many and it comes first.
pub open spec fn is_rarer(picker: PickerView, i: int, j: int) -> bool {
    picker.availability[i] < picker.availability[j] || (picker.availability[i]
        == picker.availability[j] && i < j)
}

/// Whether piece `i` is the one to fetch next from a peer.
pub open spec fn is_next(picker: PickerView, peer: Seq<bool>, i: int) -> bool {
    &&& is_candidate(picker, peer, i)
    &&& forall|j: int| #[trigger] is_candidate(picker, peer, j) && j != i ==> is_rarer(picker, i, j)
}

/// Chooses which piece to download next.
pub struct PiecePicker {
    num_pieces: usize,
    piece_availability: Vec<usize>,
    downloaded: Bitfield,
    requested: Bitfield,
}

impl PiecePicker {
    pub closed spec fn view(&self) -> PickerView {
        PickerView {
            availability: self.piece_availability@,
            downloaded: self.downloaded@,
            requested: self.requested@,
        }
    }

    /// There is something known of every piece.
    pub closed spec fn wf(&self) -> bool {
        &&& self@.availability.len() == self.num_pieces
        &&& self@.downloaded.len() == self.num_pieces
        &&& self@.requested.len() == self.num_pieces
    }

    /// Nobody offers a piece, and none is downloaded or requested.
    pub fn new(num_pieces: usize) -> (r: Self)
        requires
            num_pieces <= usize::MAX / 8,
        ensures
            r.wf(),
            r@ == (PickerView {
                availability: Seq::new(num_pieces as nat, |i: int| 0usize),
                downloaded: Seq::new(num_pieces as nat, |i: int| false),
                requested: Seq::new(num_pieces as nat, |i: int| false),
            }),
    {
        let mut piece_availability: Vec<usize> = Vec::with_capacity(num_pieces);
        let mut i: usize = 0;
        while i < num_pieces
            invariant
                i <= num_pieces,
                piece_availability@ == Seq::new(i as nat, |k: int| 0usize),
            decreases num_pieces - i,
        {
            piece_availability.push(0);
            i += 1;
        }
        PiecePicker {
            num_pieces,
            piece_availability,
            downloaded: Bitfield::new(num_pieces),
            requested: Bitfield::new(num_pieces),
        }
    }

    /// One more peer offers a piece.
    pub fn peer_has_piece(&mut self, index: usize)
        requires
            old(self).wf(),
            index < old(self)@.availability.len() ==> old(self)@.availability[index as int] < usize::MAX,
        ensures
            final(self).wf(),
            final(self)@ == (PickerView {
                availability: one_more(old(self)@.availability, index as int),
                ..old(self)@
            }),
    {
        if index < self.num_pieces {
            self.piece_availability[index] = self.piece_availability[index] + 1;
        }
    }

    /// One peer fewer offers a piece.
    pub fn peer_lost_piece(&mut self, index: usize)
        requires
            old(self).wf(),
        ensures
            final(self).wf(),
            final(self)@ == (PickerView {
                availability: one_fewer(old(self)@.availability, index as int),
                ..old(self)@
            }),
    {
        if index < self.num_pieces && self.piece_availability[index] > 0 {
            self.piece_availability[index] = self.piece_availability[index] - 1;
        }
    }

    /// A piece is here.
    pub fn mark_downloaded(&mut self, index: usize)
        requires
            old(self).wf(),
        ensures
            final(self).wf(),
            final(self)@ == (PickerView {
                downloaded: marked(old(self)@.downloaded, index as int, true),
                ..old(self)@
            }),
    {
        self.downloaded.set(index, true);
    }

    /// A piece is requested, or no longer.
    pub fn mark_requested(&mut self, index: usize, requested: bool)
        requires
            old(self).wf(),
        ensures
            final(self).wf(),
            final(self)@ == (PickerView {
                requested: marked(old(self)@.requested, index as int, requested),
                ..old(self)@
            }),
    {
        self.requested.set(index, requested);
    }

    /// The piece to request next from a peer: the one that the fewest peers
    /// offer, and of several such pieces the first.
    pub fn pick_next_piece(&self, peer_bitfield: &Bitfield) -> (r: Option<usize>)
        requires
            self.wf(),
        ensures
            match r {
                Some(i) => is_next(self@, peer_bitfield@, i as int),
                None => forall|j: int| !#[trigger] is_candidate(self@, peer_bitfield@, j),
            },
    {
        let mut best: Option<usize> = None;
        let mut i: usize = 0;
        while i < self.num_pieces
            invariant
                self.wf(),
                i <= self.num_pieces,
                match best {
                    Some(b) => b < i && is_candidate(self@, peer_bitfield@, b as int) && forall|j: int|
                        j < i && j != b && #[trigger] is_candidate(self@, peer_bitfield@, j) ==> is_rarer(
                            self@,
                            b as int,
                            j,
                        ),
                    None => forall|j: int| j < i ==> !#[trigger] is_candidate(self@, peer_bitfield@, j),
                },
            decreases self.num_pieces - i,
        {
            let here: bool = match self.downloaded.get(i) {
                Some(b) => b,
                None => true,
            };
            let asked: bool = match self.requested.get(i) {
                Some(b) => b,
                None => true,
            };
            let offered: bool = match peer_bitfield.get(i) {
                Some(b) => b,
                None => false,
            };
            if !here && !asked && offered {
                assert(is_candidate(self@, peer_bitfield@, i as int));
                let better: bool = match best {
                    Some(b) => self.piece_availability[i] < self.piece_availability[b],
                    None => true,
                };
                if better {
                    best = Some(i);
                }
            } else {
                assert(!is_candidate(self@, peer_bitfield@, i as int));
            }
            i += 1;
        }
        best
    }
}

/// One more peer for piece `i`, if there is such a piece.
pub open spec fn one_more(availability: Seq<usize>, i: int) -> Seq<usize> {
    if 0 <= i < availability.len() {
        availability.update(i, (availability[i] + 1) as usize)
    } else {
        availability
    }
}

/// One peer fewer for piece `i`, if there is such a piece and a peer for it.
pub open spec fn one_fewer(availability: Seq<usize>, i: int) -> Seq<usize> {
    if 0 <= i < availability.len() && availability[i] > 0 {
        availability.update(i, (availability[i] - 1) as usize)
    } else {
        availability
    }
}

/// Bits with bit `i` set or cleared, if there is such a bit.
pub open spec fn marked(bits: Seq<bool>, i: int, value: bool) -> Seq<bool> {
    if 0 <= i < bits.len() {
        bits.update(i, value)
    } else {
        bits
    }
}

/// Whether the data of a piece has the digest that is expected of it.
pub fn verify_piece(data: &[u8], expected_hash: &[u8; 20]) -> (r: bool)
    ensures
        r == (sha1_digest(data@) == expected_hash@),
{
    let digest = sha1(data);
    same_digest(&digest, expected_hash)
}

/// Whether two digests are the same.
pub fn same_digest(a: &[u8; 20], b: &[u8; 20]) -> (r: bool)
    ensures
        r == (a@ == b@),
{
    let mut i: usize = 0;
    while i < 20
        invariant
            i <= 20,
            forall|k: int| 0 <= k < i ==> #[trigger] a@[k] == b@[k],
        decreases 20 - i,
    {
        if a[i] != b[i] {
            return false;
        }
        i += 1;
    }
    assert(a@ =~= b@);
    true
}

} // verus!
