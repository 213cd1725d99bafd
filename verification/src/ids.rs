//! The names of torrents.
use vstd::prelude::*;

verus! {

/// The number under which the daemon keeps a torrent.
#[derive(Debug, Clone, Copy, PartialEq, Eq, PartialOrd, Ord, Hash, Structural)]
pub struct TorrentId(pub u32);

/// The SHA-1 digest of the info dictionary of a torrent.
#[derive(Debug, Clone, Copy, PartialEq, Eq, Hash)]
pub struct InfoHash(pub [u8; 20]);

/// The digit for a number below sixteen, in lower case.
pub open spec fn hex_char(n: int) -> char {
    if n < 10 {
        ('0' as int + n) as char
    } else {
        ('a' as int + n - 10) as char
    }
}

/// Bytes in hexadecimal, two digits each, in lower case.
pub open spec fn hex_text(bytes: Seq<u8>) -> Seq<char> {
    Seq::new(
        2 * bytes.len(),
        |i: int|
            if i % 2 == 0 {
                hex_char(bytes[i / 2] as int / 16)
            } else {
                hex_char(bytes[i / 2] as int % 16)
            },
    )
}

fn hex_digit(n: u8) -> (r: char)
    requires
        n < 16,
    ensures
        r == hex_char(n as int),
{
    if n < 10 {
        ('0' as u8 + n) as char
    } else {
        ('a' as u8 + (n - 10)) as char
    }
}

impl InfoHash {
    /// The hash in hexadecimal.
    pub fn to_hex(&self) -> (r: String)
        ensures
            r@ == hex_text(self.0@),
    {
        let mut text = String::new();
        let mut i: usize = 0;
        while i < 20
            invariant
                i <= 20,
                text@ == hex_text(self.0@).take(2 * i),
            decreases 20 - i,
        {
            let byte: u8 = self.0[i];
            text.push(hex_digit(byte / 16));
            text.push(hex_digit(byte % 16));
            i += 1;
            assert(text@ =~= hex_text(self.0@).take(2 * i));
        }
        assert(text@ =~= hex_text(self.0@));
        text
    }
}

} // verus!
