//! Numbers on the wire: big-endian, of fixed width.
use vstd::prelude::*;

verus! {

/// The four bytes of a 32-bit number, most significant first.
#[verifier::opaque]
pub open spec fn be32(n: int) -> Seq<u8> {
    seq![
        (n / 0x1000000) as u8,
        (n / 0x10000 % 0x100) as u8,
        (n / 0x100 % 0x100) as u8,
        (n % 0x100) as u8,
    ]
}

/// The number that four bytes denote, most significant first.
#[verifier::opaque]
pub open spec fn be32_value(b: Seq<u8>) -> int {
    b[0] * 0x1000000 + b[1] * 0x10000 + b[2] * 0x100 + b[3]
}

/// The eight bytes of a 64-bit number, most significant first.
pub open spec fn be64(n: int) -> Seq<u8> {
    be32(n / 0x1_0000_0000) + be32(n % 0x1_0000_0000)
}

/// Four bytes and the number that they denote determine each other.
pub proof fn be32_reads_back(n: u32)
    ensures
        be32(n as int).len() == 4,
        be32_value(be32(n as int)) == n,
{
    reveal(be32);
    reveal(be32_value);
}

/// Appends the four bytes of `n`.
pub(crate) fn push_u32(buf: &mut Vec<u8>, n: u32)
    ensures
        final(buf)@ == old(buf)@ + be32(n as int),
{
    buf.push((n / 0x1000000) as u8);
    buf.push((n / 0x10000 % 0x100) as u8);
    buf.push((n / 0x100 % 0x100) as u8);
    buf.push((n % 0x100) as u8);
    reveal(be32);
    assert(buf@ =~= old(buf)@ + be32(n as int));
}

/// Appends the eight bytes of `n`.
pub(crate) fn push_u64(buf: &mut Vec<u8>, n: u64)
    ensures
        final(buf)@ == old(buf)@ + be64(n as int),
{
    push_u32(buf, (n / 0x1_0000_0000) as u32);
    push_u32(buf, (n % 0x1_0000_0000) as u32);
    assert(buf@ =~= old(buf)@ + be64(n as int));
}

/// Reads the four bytes at `at`.
pub(crate) fn read_u32(b: &[u8], at: usize) -> (r: u32)
    requires
        at + 4 <= b@.len(),
    ensures
        r == be32_value(b@.subrange(at as int, at + 4)),
{
    reveal(be32_value);
    let total: usize = b.len();
    b[at] as u32 * 0x1000000 + b[at + 1] as u32 * 0x10000 + b[at + 2] as u32 * 0x100 + b[at + 3] as u32
}

/// Copies twenty bytes, from `at` on.
pub(crate) fn read_20(b: &[u8], at: usize) -> (r: [u8; 20])
    requires
        at + 20 <= b@.len(),
    ensures
        r@ == b@.subrange(at as int, at + 20),
{
    let total: usize = b.len();
    let mut out: [u8; 20] = [0; 20];
    let mut i: usize = 0;
    while i < 20
        invariant
            i <= 20,
            at + 20 <= b@.len() == total,
            forall|k: int| 0 <= k < i ==> #[trigger] out@[k] == b@[at + k],
        decreases 20 - i,
    {
        out[i] = b[at + i];
        i += 1;
    }
    assert(out@ =~= b@.subrange(at as int, at + 20));
    out
}

} // verus!
