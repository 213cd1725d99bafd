//! What is done about a magnet link of which the metainfo is not known.
use vstd::prelude::*;
use vstd::string::*;
use crate::ids::TorrentId;
use crate::magnet::MagnetLink;
use crate::state::{StateView, TorrentState};

verus! {

/// Looks for the metainfo of a magnet link.
pub struct MagnetWorker {
    pub id: TorrentId,
    pub magnet: MagnetLink,
    pub download_dir: String,
    pub metadata_dir: String,
}

impl MagnetWorker {
    /// Metainfo is not fetched from peers: the torrent is marked as failed.
    pub fn start(&self, state: &mut TorrentState)
        ensures
            final(state)@ == (StateView {
                status: "Failed (Metadata fetch not fully implemented)"@,
                ..old(state)@
            }),
    {
        state.status = String::from_str("Failed (Metadata fetch not fully implemented)");
    }
}

} // verus!
