//! How far a torrent is.
use vstd::prelude::*;
use vstd::string::*;
use crate::ids::TorrentId;

verus! {

/// What is known of a torrent that was added.
#[derive(Debug, PartialEq, Eq)]
pub struct TorrentState {
    pub id: TorrentId,
    pub name: String,
    /// The digits of the hash.
    pub info_hash: String,
    pub size: u64,
    pub downloaded: u64,
    pub uploaded: u64,
    pub status: String,
    pub peers_connected: usize,
}

/// What a `TorrentState` says.
pub struct StateView {
    pub id: u32,
    pub name: Seq<char>,
    pub info_hash: Seq<char>,
    pub size: u64,
    pub downloaded: u64,
    pub uploaded: u64,
    pub status: Seq<char>,
    pub peers_connected: usize,
}

impl Clone for TorrentState {
    fn clone(&self) -> (r: Self)
        ensures
            r@ == self@,
    {
        TorrentState {
            id: TorrentId(self.id.0),
            name: self.name.clone(),
            info_hash: self.info_hash.clone(),
            size: self.size,
            downloaded: self.downloaded,
            uploaded: self.uploaded,
            status: self.status.clone(),
            peers_connected: self.peers_connected,
        }
    }
}

/// The status of a torrent of which everything or something is still missing.
pub open spec fn progress_status(downloaded: u64, size: u64) -> Seq<char> {
    if downloaded >= size {
        "Completed"@
    } else {
        "Downloading"@
    }
}

/// The smaller of two counts of bytes.
pub open spec fn at_most(n: int, limit: u64) -> u64 {
    if n <= limit {
        n as u64
    } else {
        limit
    }
}

/// What a torrent's state is after a block of `len` bytes came in.
pub open spec fn with_block(s: StateView, len: int) -> StateView {
    let downloaded = at_most(s.downloaded + len, s.size);
    StateView { downloaded, status: progress_status(downloaded, s.size), ..s }
}

/// What a torrent's state is after a piece was given up of which `bytes` had
/// come in.
pub open spec fn without_blocks(s: StateView, bytes: int) -> StateView {
    let downloaded = if s.downloaded >= bytes {
        (s.downloaded - bytes) as u64
    } else {
        0u64
    };
    StateView {
        downloaded,
        status: if downloaded < s.size {
            "Downloading"@
        } else {
            s.status
        },
        ..s
    }
}

impl TorrentState {
    pub open spec fn view(&self) -> StateView {
        StateView {
            id: self.id.0,
            name: self.name@,
            info_hash: self.info_hash@,
            size: self.size,
            downloaded: self.downloaded,
            uploaded: self.uploaded,
            status: self.status@,
            peers_connected: self.peers_connected,
        }
    }

    /// One more peer is connected.
    pub fn peer_joined(&mut self)
        requires
            old(self).peers_connected < usize::MAX,
        ensures
            final(self)@ == (StateView {
                peers_connected: (old(self).peers_connected + 1) as usize,
                ..old(self)@
            }),
    {
        self.peers_connected = self.peers_connected + 1;
    }

    /// One peer fewer is connected.
    pub fn peer_left(&mut self)
        ensures
            final(self)@ == (StateView {
                peers_connected: if old(self).peers_connected > 0 {
                    (old(self).peers_connected - 1) as usize
                } else {
                    0usize
                },
                ..old(self)@
            }),
    {
        self.peers_connected = self.peers_connected.saturating_sub(1);
    }

    /// A block came in. What was downloaded is never more than there is.
    pub fn block_received(&mut self, len: u64)
        requires
            old(self).downloaded + len <= u64::MAX,
        ensures
            final(self)@ == with_block(old(self)@, len as int),
    {
        let sum: u64 = self.downloaded + len;
        self.downloaded = if sum <= self.size {
            sum
        } else {
            self.size
        };
        self.status = if self.downloaded >= self.size {
            String::from_str("Completed")
        } else {
            String::from_str("Downloading")
        };
    }

    /// A piece was given up: its blocks have to be fetched again.
    pub fn piece_given_up(&mut self, bytes: u32)
        ensures
            final(self)@ == without_blocks(old(self)@, bytes as int),
    {
        self.downloaded = self.downloaded.saturating_sub(bytes as u64);
        if self.downloaded < self.size {
            self.status = String::from_str("Downloading");
        }
    }

    /// A block was sent to a peer.
    pub fn block_served(&mut self, len: u32)
        requires
            old(self).uploaded + len <= u64::MAX,
        ensures
            final(self)@ == (StateView { uploaded: (old(self).uploaded + len) as u64, ..old(self)@ }),
    {
        self.uploaded = self.uploaded + len as u64;
    }

    /// How many bytes are still missing, as a signed number.
    pub fn left(&self) -> (r: i64)
        requires
            self.downloaded <= self.size,
        ensures
            r == if self.size - self.downloaded <= i64::MAX {
                self.size - self.downloaded
            } else {
                self.size - self.downloaded - 0x1_0000_0000_0000_0000
            },
    {
        let left: u64 = self.size - self.downloaded;
        if left <= 0x7fff_ffff_ffff_ffff {
            left as i64
        } else {
            let wrapped: i128 = left as i128 - 0x1_0000_0000_0000_0000;
            wrapped as i64
        }
    }
}

/// What was downloaded stays within the size, whatever comes in or is given up.
pub proof fn downloaded_stays_within_size(s: StateView, len: int)
    requires
        s.downloaded <= s.size,
        len >= 0,
    ensures
        with_block(s, len).downloaded <= s.size,
        without_blocks(s, len).downloaded <= s.size,
{
}

/// A torrent is said to be complete after a block exactly where everything has
/// come in.
pub proof fn completed_means_everything(s: StateView, len: int)
    requires
        len >= 0,
    ensures
        with_block(s, len).status == "Completed"@ <==> s.downloaded + len >= s.size,
{
    reveal_strlit("Completed");
    reveal_strlit("Downloading");
    assert("Completed"@[0] != "Downloading"@[0]);
}

/// Blocks that came in for a piece are taken back when it is given up, as long
/// as they did not exceed the size.
pub proof fn given_up_undoes_received(s: StateView, len: int)
    requires
        len >= 0,
        s.downloaded + len <= s.size,
    ensures
        without_blocks(with_block(s, len), len).downloaded == s.downloaded,
{
}

/// A block that comes in is counted as far as there is anything to download, and
/// nothing else of a torrent changes but its status.
pub proof fn a_block_is_counted(s: StateView, len: int)
    requires
        len >= 0,
    ensures
        ({
            let after = with_block(s, len);
            &&& s.downloaded + len <= s.size ==> after.downloaded == s.downloaded + len
            &&& s.downloaded + len > s.size ==> after.downloaded == s.size
            &&& s.downloaded + len >= s.size ==> after.status == "Completed"@
            &&& s.downloaded + len < s.size ==> after.status == "Downloading"@
            &&& after == (StateView { downloaded: after.downloaded, status: after.status, ..s })
        }),
{
}

/// Blocks that come in one after the other count as one that is as long as both.
pub proof fn blocks_add_up(s: StateView, a: int, b: int)
    requires
        a >= 0,
        b >= 0,
    ensures
        with_block(with_block(s, a), b) == with_block(s, a + b),
{
}

/// A piece that is given up is taken off what was downloaded, as far as there is
/// anything; the torrent is then downloading where something is missing, and nothing
/// else of it changes.
pub proof fn a_piece_given_up_is_taken_off(s: StateView, bytes: int)
    requires
        bytes >= 0,
    ensures
        ({
            let after = without_blocks(s, bytes);
            &&& bytes <= s.downloaded ==> after.downloaded == s.downloaded - bytes
            &&& bytes > s.downloaded ==> after.downloaded == 0
            &&& after.downloaded < s.size ==> after.status == "Downloading"@
            &&& after.downloaded >= s.size ==> after.status == s.status
            &&& after == (StateView { downloaded: after.downloaded, status: after.status, ..s })
        }),
{
}

} // verus!
