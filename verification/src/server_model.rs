//! What the daemon knows, and what each request makes of it.
use vstd::prelude::*;
use vstd::string::*;
use vstd::utf8::encode_utf8;
use crate::bencode::{decode_faults, encoding};
use crate::config::{config_text, texts, ConfigView};
use crate::creator::{created, PieceHasher};
use crate::engine::TorrentDownloader;
use crate::ids::{hex_text, TorrentId};
use crate::magnet::{link_for_hash, magnet_of, MagnetLink, MagnetView};
use crate::meta::{meta_failure_text, meta_of, FileMode, FileView, InfoView, MetaView};
use crate::metainfo::meta_value;
use crate::persist::entry_views;
use crate::rpc::{Request, Response, SystemStats, TorrentStatus};
use crate::state::{StateView, TorrentState};
use crate::storage::{file_lengths, files_to_make, mode_size};
use crate::strings::{begins, begins_in_any_case, trimmed, without_slashes};
use crate::table::keys_of;
use crate::text::decimal_text;
use crate::worker::MagnetWorker;

verus! {

/// A torrent that was added.
pub struct TorrentHandle {
    pub state: TorrentState,
    /// Whether a worker was started for it that has not been stopped.
    pub running: bool,
    /// The files that it is downloaded to, each by the parts of its path below
    /// the directory for downloads. There are none as long as its metainfo is not
    /// known.
    pub files: Vec<Vec<String>>,
}

/// What a `TorrentHandle` says.
pub struct HandleView {
    pub state: StateView,
    pub running: bool,
    pub files: Seq<Seq<Seq<char>>>,
}

/// What the parts of some paths say.
pub open spec fn path_views(paths: Seq<Vec<String>>) -> Seq<Seq<Seq<char>>> {
    paths.map_values(|path: Vec<String>| texts(path@))
}

impl TorrentHandle {
    pub open spec fn view(&self) -> HandleView {
        HandleView { state: self.state@, running: self.running, files: path_views(self.files@) }
    }
}

/// What an `RpcServer` knows: its settings, the torrents by their numbers, what
/// each was added from, and the number that the next one gets.
pub struct ServerView {
    pub config: ConfigView,
    pub torrents: Map<u32, HandleView>,
    pub saved: Map<u32, Seq<char>>,
    pub next_id: u32,
}

/// The program that answers: its version, and the commit that it was built from.
pub struct BuildInfo {
    pub version: String,
    pub git_hash: String,
    pub git_date: String,
}

/// What is left to do outside for a request.
pub enum Effect {
    /// The worker of a torrent is to be stopped.
    AbortWorker { id: TorrentId },
    /// These torrents are to be recorded.
    SaveState { entries: Vec<(u32, String)> },
    StartMagnetWorker(MagnetWorker),
    StartDownloader(TorrentDownloader),
    /// The torrent is to be loaded again from where it was added from.
    RestoreTorrent { id: u32, path: String },
    /// The files that a torrent was downloaded to are to be deleted.
    DeleteData { id: TorrentId, download_dir: String, files: Vec<Vec<String>> },
}

/// What an `Effect` says.
pub enum EffectView {
    AbortWorker { id: u32 },
    SaveState { entries: Seq<(u32, Seq<char>)> },
    StartMagnetWorker { id: u32, magnet: MagnetView, download_dir: Seq<char>, metadata_dir: Seq<char> },
    StartDownloader {
        id: u32,
        meta: MetaView,
        download_dir: Seq<char>,
        peer_id: Seq<u8>,
        missing: Seq<u32>,
        have: Seq<bool>,
    },
    RestoreTorrent { id: u32, path: Seq<char> },
    DeleteData { id: u32, download_dir: Seq<char>, files: Seq<Seq<Seq<char>>> },
}

impl Effect {
    pub open spec fn view(&self) -> EffectView {
        match self {
            Effect::AbortWorker { id } => EffectView::AbortWorker { id: id.0 },
            Effect::SaveState { entries } => EffectView::SaveState { entries: entry_views(entries@) },
            Effect::StartMagnetWorker(w) => EffectView::StartMagnetWorker {
                id: w.id.0,
                magnet: w.magnet@,
                download_dir: w.download_dir@,
                metadata_dir: w.metadata_dir@,
            },
            Effect::StartDownloader(d) => EffectView::StartDownloader {
                id: d.id.0,
                meta: d.meta@,
                download_dir: d.download_dir@,
                peer_id: d.peer_id@,
                missing: d.missing_pieces@,
                have: d.have_pieces@,
            },
            Effect::RestoreTorrent { id, path } => EffectView::RestoreTorrent { id: *id, path: path@ },
            Effect::DeleteData { id, download_dir, files } => EffectView::DeleteData {
                id: id.0,
                download_dir: download_dir@,
                files: path_views(files@),
            },
        }
    }
}

/// What some effects say.
pub open spec fn effect_views(effects: Seq<Effect>) -> Seq<EffectView> {
    effects.map_values(|e: Effect| e@)
}

/// What a `TorrentStatus` says.
pub struct StatusView {
    pub id: u32,
    pub name: Seq<char>,
    pub info_hash: Seq<char>,
    pub size: u64,
    pub downloaded: u64,
    pub uploaded: u64,
    pub status: Seq<char>,
    pub download_rate: usize,
    pub upload_rate: usize,
    pub peers_connected: usize,
}

impl TorrentStatus {
    pub open spec fn view(&self) -> StatusView {
        StatusView {
            id: self.id.0,
            name: self.name@,
            info_hash: self.info_hash@,
            size: self.size,
            downloaded: self.downloaded,
            uploaded: self.uploaded,
            status: self.status@,
            download_rate: self.download_rate,
            upload_rate: self.upload_rate,
            peers_connected: self.peers_connected,
        }
    }
}

/// What a `Response` says.
pub enum ResponseView {
    Success,
    Error(Seq<char>),
    TorrentAdded { id: u32 },
    TorrentRemoved,
    TorrentList(Seq<StatusView>),
    TorrentStatus(StatusView),
    Stats(SystemStats),
    Info { name: Seq<char>, info_hash: Seq<char>, size: u64, status: Seq<char> },
    Config(Seq<char>),
    Version(Seq<char>),
}

/// What some `TorrentStatus` values say.
pub open spec fn status_views(list: Seq<TorrentStatus>) -> Seq<StatusView> {
    list.map_values(|t: TorrentStatus| t@)
}

impl Response {
    pub open spec fn view(&self) -> ResponseView {
        match self {
            Response::Success => ResponseView::Success,
            Response::Error(text) => ResponseView::Error(text@),
            Response::TorrentAdded { id } => ResponseView::TorrentAdded { id: id.0 },
            Response::TorrentRemoved => ResponseView::TorrentRemoved,
            Response::TorrentList(list) => ResponseView::TorrentList(status_views(list@)),
            Response::TorrentStatus(t) => ResponseView::TorrentStatus(t@),
            Response::Stats(stats) => ResponseView::Stats(*stats),
            Response::Info(d) => ResponseView::Info {
                name: d.name@,
                info_hash: d.info_hash@,
                size: d.size,
                status: d.status@,
            },
            Response::Config(text) => ResponseView::Config(text@),
            Response::Version { version } => ResponseView::Version(version@),
        }
    }
}

/// A magnet link that is to be added, of which it is to be found out whether its
/// metainfo is at hand.
pub struct PendingMagnet {
    pub link: String,
    pub magnet: MagnetLink,
    pub cache_path: String,
}

/// A `.torrent` file that is to be made.
pub struct PendingTorrent {
    /// The file or folder that it is made from.
    pub path: String,
    /// Where it is to be written.
    pub output: String,
    pub trackers: Vec<String>,
    /// Whether it is to be added once it is there.
    pub add: bool,
}

/// What a `PendingTorrent` says.
pub struct PendingTorrentView {
    pub path: Seq<char>,
    pub output: Seq<char>,
    pub trackers: Seq<Seq<char>>,
    pub add: bool,
}

impl PendingTorrent {
    pub open spec fn view(&self) -> PendingTorrentView {
        PendingTorrentView {
            path: self.path@,
            output: self.output@,
            trackers: texts(self.trackers@),
            add: self.add,
        }
    }
}

/// What was found at the path that a torrent is made from: a name, the files, and
/// all their bytes, one file behind the other.
pub struct FoundData {
    pub name: String,
    pub mode: FileMode,
    pub hasher: PieceHasher,
}

/// How far a request has come.
pub enum Outcome {
    /// The answer, and what is left to do, in order.
    Done { response: Response, effects: Vec<Effect> },
    /// It is to be found out whether there is a file `cache_path`; then
    /// `cache_checked` goes on.
    CheckCache(PendingMagnet),
    /// The effects are to be carried out and the file is to be read; then
    /// `file_read` goes on.
    ReadFile { path: String, effects: Vec<Effect> },
    /// What is at `path` is to be looked for and taken in; then `data_found` goes
    /// on.
    MakeTorrent(PendingTorrent),
    /// The bytes are to be written to `output`; then `torrent_made` goes on.
    WriteTorrent { pending: PendingTorrent, bytes: Vec<u8> },
}

/// What an `Outcome` says.
pub enum OutcomeView {
    Done { response: ResponseView, effects: Seq<EffectView> },
    CheckCache { link: Seq<char>, magnet: MagnetView, cache_path: Seq<char> },
    ReadFile { path: Seq<char>, effects: Seq<EffectView> },
    MakeTorrent(PendingTorrentView),
    WriteTorrent { pending: PendingTorrentView, bytes: Seq<u8> },
}

impl Outcome {
    pub open spec fn view(&self) -> OutcomeView {
        match self {
            Outcome::Done { response, effects } => OutcomeView::Done {
                response: response@,
                effects: effect_views(effects@),
            },
            Outcome::CheckCache(p) => OutcomeView::CheckCache {
                link: p.link@,
                magnet: p.magnet@,
                cache_path: p.cache_path@,
            },
            Outcome::ReadFile { path, effects } => OutcomeView::ReadFile {
                path: path@,
                effects: effect_views(effects@),
            },
            Outcome::MakeTorrent(p) => OutcomeView::MakeTorrent(p@),
            Outcome::WriteTorrent { pending, bytes } => OutcomeView::WriteTorrent {
                pending: pending@,
                bytes: bytes@,
            },
        }
    }
}

/// A request that comes to nothing but an error message.
pub open spec fn failed(text: Seq<char>) -> OutcomeView {
    OutcomeView::Done { response: ResponseView::Error(text), effects: seq![] }
}

/// A request that is answered at once, with nothing left to do.
pub open spec fn told(response: ResponseView) -> OutcomeView {
    OutcomeView::Done { response, effects: seq![] }
}

/// What is recorded of the torrents that were added.
pub open spec fn saved_entries(saved: Map<u32, Seq<char>>) -> Seq<(u32, Seq<char>)> {
    keys_of(saved).map_values(|id: u32| (id, saved[id]))
}

/// Whether `id` is the first torrent with a hash.
pub open spec fn is_first_with(torrents: Map<u32, HandleView>, hash: Seq<char>, id: u32) -> bool {
    &&& torrents.contains_key(id)
    &&& torrents[id].state.info_hash == hash
    &&& forall|other: u32| #[trigger]
        torrents.contains_key(other) && torrents[other].state.info_hash == hash ==> id <= other
}

/// The first torrent with a hash, if there is one.
pub open spec fn first_with(torrents: Map<u32, HandleView>, hash: Seq<char>) -> Option<u32> {
    if exists|id: u32| is_first_with(torrents, hash, id) {
        Some(choose|id: u32| is_first_with(torrents, hash, id))
    } else {
        None
    }
}

/// Why a torrent is not added twice.
pub open spec fn duplicate_text(name: Seq<char>, id: u32) -> Seq<char> {
    "Torrent '"@ + name + "' is already added (ID "@ + decimal_text(id as nat) + ")"@
}

/// That there is no such torrent.
pub open spec fn not_found_text(id: u32) -> Seq<char> {
    "Torrent ID "@ + decimal_text(id as nat) + " not found"@
}

/// Where the metainfo of a hash is kept.
pub open spec fn cache_path_of(config: ConfigView, hash: Seq<char>) -> Seq<char> {
    config.metadata_dir + "/"@ + hash + ".torrent"@
}

/// The name under which the client is known to peers.
pub open spec fn client_peer_id() -> Seq<u8> {
    "-AG0001-".spec_bytes() + Seq::new(12, |i: int| 0u8)
}

/// A torrent of which nothing has been transferred.
pub open spec fn fresh_state(
    id: u32,
    name: Seq<char>,
    info_hash: Seq<char>,
    size: u64,
    status: Seq<char>,
) -> StateView {
    StateView { id, name, info_hash, size, downloaded: 0, uploaded: 0, status, peers_connected: 0 }
}

/// The name of a magnet link: its own, or else its hash.
pub open spec fn magnet_name(magnet: MagnetView) -> Seq<char> {
    match magnet.name {
        Some(name) => name,
        None => hex_text(magnet.info_hash),
    }
}

/// The server with a torrent of a magnet link under `id`.
pub open spec fn with_magnet(s: ServerView, id: u32, magnet: MagnetView) -> ServerView {
    let hash = hex_text(magnet.info_hash);
    ServerView {
        torrents: s.torrents.insert(
            id,
            HandleView {
                state: fresh_state(id, magnet_name(magnet), hash, 0, "Fetching Metadata"@),
                running: true,
                files: seq![],
            },
        ),
        ..s
    }
}

/// The worker of a magnet link.
pub open spec fn magnet_worker(s: ServerView, id: u32, magnet: MagnetView) -> EffectView {
    EffectView::StartMagnetWorker {
        id,
        magnet,
        download_dir: s.config.download_dir,
        metadata_dir: s.config.metadata_dir,
    }
}

/// The files that a torrent is downloaded to: those that have a path.
pub open spec fn downloaded_files(info: InfoView) -> Seq<Seq<Seq<char>>> {
    files_to_make(info, file_lengths(info.mode).len() as int).map_values(|f: FileView| f.path)
}

/// The server with a torrent whose metainfo is known under `id`.
pub open spec fn with_torrent(s: ServerView, id: u32, meta: MetaView) -> ServerView {
    ServerView {
        torrents: s.torrents.insert(
            id,
            HandleView {
                state: fresh_state(
                    id,
                    meta.info.name,
                    hex_text(meta.info_hash),
                    mode_size(meta.info.mode) as u64,
                    "Checking"@,
                ),
                running: true,
                files: downloaded_files(meta.info),
            },
        ),
        ..s
    }
}

/// The downloader of a torrent.
pub open spec fn downloader(s: ServerView, id: u32, meta: MetaView) -> EffectView {
    EffectView::StartDownloader {
        id,
        meta,
        download_dir: s.config.download_dir,
        peer_id: client_peer_id(),
        missing: seq![],
        have: Seq::new(meta.info.pieces.len(), |i: int| false),
    }
}

/// The server after the next number was given to what is added from `path`. The
/// numbers start anew behind the last one.
pub open spec fn with_next_id(s: ServerView, path: Seq<char>) -> ServerView {
    ServerView {
        saved: s.saved.insert(s.next_id, path),
        next_id: ((s.next_id + 1) % 0x1_0000_0000) as u32,
        ..s
    }
}

/// Whether a text is forty hexadecimal digits.
pub open spec fn is_bare_hash(s: Seq<char>) -> bool {
    s.len() == 40 && forall|i: int| 0 <= i < s.len() ==> is_hex_digit(#[trigger] s[i])
}

/// Whether a character is a hexadecimal digit.
pub open spec fn is_hex_digit(c: char) -> bool {
    '0' <= c <= '9' || 'a' <= c <= 'f' || 'A' <= c <= 'F'
}

/// What is added: white space around it does not count, and a bare hash stands
/// for a link with the default trackers.
pub open spec fn what_to_add(config: ConfigView, path_or_magnet: Seq<char>) -> Seq<char> {
    let text = trimmed(path_or_magnet);
    if is_bare_hash(text) {
        link_for_hash(text, config.default_trackers)
    } else {
        text
    }
}

/// How an `Add` request starts.
pub open spec fn added(s: ServerView, path_or_magnet: Seq<char>) -> OutcomeView {
    let text = what_to_add(s.config, path_or_magnet);
    if begins_in_any_case(text, "magnet:?"@) {
        match magnet_of(encode_utf8(text)) {
            Err(e) => failed("Invalid magnet link: "@ + e.text()),
            Ok(magnet) => {
                let hash = hex_text(magnet.info_hash);
                match first_with(s.torrents, hash) {
                    Some(id) => failed(duplicate_text(s.torrents[id].state.name, s.torrents[id].state.id)),
                    None => OutcomeView::CheckCache {
                        link: text,
                        magnet,
                        cache_path: cache_path_of(s.config, hash),
                    },
                }
            },
        }
    } else {
        OutcomeView::ReadFile { path: text, effects: seq![] }
    }
}

/// How adding a magnet link goes on once it is known whether its metainfo is at
/// hand.
pub open spec fn after_cache(
    s: ServerView,
    link: Seq<char>,
    magnet: MagnetView,
    cache_path: Seq<char>,
    exists_in_cache: bool,
) -> (ServerView, OutcomeView) {
    let numbered = with_next_id(s, link);
    let save = EffectView::SaveState { entries: saved_entries(numbered.saved) };
    if exists_in_cache {
        (numbered, OutcomeView::ReadFile { path: cache_path, effects: seq![save] })
    } else {
        (
            with_magnet(numbered, s.next_id, magnet),
            OutcomeView::Done {
                response: ResponseView::TorrentAdded { id: s.next_id },
                effects: seq![save, magnet_worker(s, s.next_id, magnet)],
            },
        )
    }
}

/// Whether a path lies in the directory for metainfo.
pub open spec fn is_cached(config: ConfigView, path: Seq<char>) -> bool {
    begins(path, config.metadata_dir + "/"@)
}

/// How adding goes on once the file was read, or why it could not be. A file in
/// the directory for metainfo has got its number already: the last one.
pub open spec fn after_file(
    s: ServerView,
    path: Seq<char>,
    contents: Result<Seq<u8>, Seq<char>>,
) -> (ServerView, OutcomeView) {
    match contents {
        Err(e) => (s, failed("Failed to read torrent file: "@ + e)),
        Ok(bytes) => match meta_of(bytes) {
            Err(e) => (s, failed("Failed to parse torrent metainfo: "@ + meta_failure_text(e))),
            Ok(meta) => match first_with(s.torrents, hex_text(meta.info_hash)) {
                Some(id) => (
                    s,
                    failed(duplicate_text(s.torrents[id].state.name, s.torrents[id].state.id)),
                ),
                None => if is_cached(s.config, path) {
                    let id = (s.next_id - 1) as u32;
                    (
                        with_torrent(s, id, meta),
                        OutcomeView::Done {
                            response: ResponseView::TorrentAdded { id },
                            effects: seq![downloader(s, id, meta)],
                        },
                    )
                } else {
                    let numbered = with_next_id(s, path);
                    (
                        with_torrent(numbered, s.next_id, meta),
                        OutcomeView::Done {
                            response: ResponseView::TorrentAdded { id: s.next_id },
                            effects: seq![
                                EffectView::SaveState { entries: saved_entries(numbered.saved) },
                                downloader(s, s.next_id, meta),
                            ],
                        },
                    )
                },
            },
        },
    }
}

/// Whether what a file holds can be handled: its values end within it, the size
/// of a torrent is a 64-bit number, and a file that has got its number already
/// has one.
pub open spec fn may_add(s: ServerView, path: Seq<char>, contents: Result<Seq<u8>, Seq<char>>) -> bool {
    contents matches Ok(bytes) ==> {
        &&& !decode_faults(bytes)
        &&& meta_of(bytes) matches Ok(meta) ==> {
            &&& mode_size(meta.info.mode) <= u64::MAX
            &&& first_with(s.torrents, hex_text(meta.info_hash)) is None && is_cached(s.config, path) ==> s.next_id
                > 0
        }
    }
}

/// What is shown of a torrent. Rates and uploads are shown as zero.
pub open spec fn status_of(t: StateView) -> StatusView {
    StatusView {
        id: t.id,
        name: t.name,
        info_hash: t.info_hash,
        size: t.size,
        downloaded: t.downloaded,
        uploaded: 0,
        status: t.status,
        download_rate: 0,
        upload_rate: 0,
        peers_connected: t.peers_connected,
    }
}

/// What is shown of all torrents, in the order of their numbers.
pub open spec fn status_list(torrents: Map<u32, HandleView>) -> Seq<StatusView> {
    keys_of(torrents).map_values(|id: u32| status_of(torrents[id].state))
}

/// The server with a torrent whose worker is stopped or not, and whose status is
/// another.
pub open spec fn with_status(s: ServerView, id: u32, running: bool, status: Seq<char>) -> ServerView {
    ServerView {
        torrents: s.torrents.insert(
            id,
            HandleView { state: StateView { status, ..s.torrents[id].state }, running, ..s.torrents[id] },
        ),
        ..s
    }
}

/// The order to stop the worker of a torrent, if there is one.
pub open spec fn abort_of(s: ServerView, id: u32) -> Seq<EffectView> {
    if s.torrents[id].running {
        seq![EffectView::AbortWorker { id }]
    } else {
        seq![]
    }
}

/// What it comes to that a torrent is to be loaded again.
pub open spec fn reloaded(s: ServerView, id: u32, before: Seq<EffectView>) -> OutcomeView {
    if s.saved.contains_key(id) {
        OutcomeView::Done {
            response: ResponseView::Success,
            effects: before.push(EffectView::RestoreTorrent { id, path: s.saved[id] }),
        }
    } else {
        OutcomeView::Done { response: ResponseView::Error("Torrent data path not found"@), effects: before }
    }
}

/// The version as it is shown.
pub open spec fn version_text(version: Seq<char>, git_hash: Seq<char>, git_date: Seq<char>) -> Seq<char> {
    version + " (Git: "@ + git_hash + " | Date: "@ + git_date + ")"@
}

/// The order to delete the files of a torrent, if that is asked for.
pub open spec fn deletion_of(s: ServerView, id: u32, delete_data: bool) -> Seq<EffectView> {
    if delete_data {
        seq![
            EffectView::DeleteData {
                id,
                download_dir: s.config.download_dir,
                files: s.torrents[id].files,
            },
        ]
    } else {
        seq![]
    }
}

/// The server without a torrent that is there, and what is left to do then: its
/// worker is stopped, the other torrents are recorded, and its files are deleted,
/// if that is asked for.
pub open spec fn removed(s: ServerView, id: u32, delete_data: bool) -> (ServerView, OutcomeView) {
    let after = ServerView { torrents: s.torrents.remove(id), saved: s.saved.remove(id), ..s };
    (
        after,
        OutcomeView::Done {
            response: ResponseView::TorrentRemoved,
            effects: abort_of(s, id).push(EffectView::SaveState { entries: saved_entries(after.saved) })
                + deletion_of(s, id, delete_data),
        },
    )
}

/// Where the `.torrent` file for a file or folder is written: beside it.
pub open spec fn torrent_path(path: Seq<char>) -> Seq<char> {
    without_slashes(path) + ".torrent"@
}

/// A `.torrent` file that is to be made, with no trackers where none are named.
pub open spec fn making(path: Seq<char>, trackers: Option<Vec<String>>, add: bool) -> OutcomeView {
    OutcomeView::MakeTorrent(
        PendingTorrentView {
            path,
            output: torrent_path(path),
            trackers: match trackers {
                Some(list) => texts(list@),
                None => seq![],
            },
            add,
        },
    )
}

/// How making a `.torrent` file goes on once its data was found, or why it could
/// not be: its bytes are to be written.
pub open spec fn after_data(pending: PendingTorrentView, data: Result<FoundData, String>) -> OutcomeView {
    match data {
        Err(e) => failed(e@),
        Ok(found) => OutcomeView::WriteTorrent {
            pending,
            bytes: encoding(meta_value(created(found.name@, found.mode@, found.hasher@, pending.trackers))),
        },
    }
}

/// How making a `.torrent` file ends once it was written, or why it could not be:
/// with success, or with adding it.
pub open spec fn after_making(pending: PendingTorrentView, made: Result<(), String>) -> OutcomeView {
    match made {
        Err(e) => failed(e@),
        Ok(_) => if pending.add {
            OutcomeView::ReadFile { path: pending.output, effects: seq![] }
        } else {
            told(ResponseView::Success)
        },
    }
}

/// The state of the server after a request, and what the request comes to.
pub open spec fn answered(s: ServerView, request: Request, build: BuildInfo) -> (ServerView, OutcomeView) {
    match request {
        Request::Version => (
            s,
            told(ResponseView::Version(version_text(build.version@, build.git_hash@, build.git_date@))),
        ),
        Request::Add { path_or_magnet } => (s, added(s, path_or_magnet@)),
        Request::List => (s, told(ResponseView::TorrentList(status_list(s.torrents)))),
        Request::Status { id } => {
            let wanted: Option<u32> = match id {
                Some(i) => Some(i.0),
                None => if keys_of(s.torrents).len() > 0 {
                    Some(keys_of(s.torrents)[0])
                } else {
                    None
                },
            };
            match wanted {
                None => (s, failed("No torrents loaded"@)),
                Some(i) => if s.torrents.contains_key(i) {
                    (s, told(ResponseView::TorrentStatus(status_of(s.torrents[i].state))))
                } else {
                    (s, failed(not_found_text(i)))
                },
            }
        },
        Request::Remove { id, delete_data } => if s.torrents.contains_key(id.0) {
            removed(s, id.0, delete_data)
        } else {
            (s, failed(not_found_text(id.0)))
        },
        Request::Pause { id } => if s.torrents.contains_key(id.0) {
            (
                with_status(s, id.0, false, "Paused"@),
                OutcomeView::Done { response: ResponseView::Success, effects: abort_of(s, id.0) },
            )
        } else {
            (s, failed(not_found_text(id.0)))
        },
        Request::Resume { id } => if !s.torrents.contains_key(id.0) {
            (s, failed(not_found_text(id.0)))
        } else if s.torrents[id.0].running {
            (s, failed("Torrent ID "@ + decimal_text(id.0 as nat) + " is already running"@))
        } else {
            (with_status(s, id.0, false, "Checking"@), reloaded(s, id.0, seq![]))
        },
        Request::Verify { id } => if s.torrents.contains_key(id.0) {
            (with_status(s, id.0, false, "Checking"@), reloaded(s, id.0, abort_of(s, id.0)))
        } else {
            (s, failed(not_found_text(id.0)))
        },
        Request::Create { path, trackers } => (s, making(path@, trackers, false)),
        Request::CreateAdd { path, trackers } => (s, making(path@, trackers, true)),
        Request::Info { id } => if s.torrents.contains_key(id.0) {
            let t = s.torrents[id.0].state;
            (
                s,
                told(
                    ResponseView::Info {
                        name: t.name,
                        info_hash: t.info_hash,
                        size: t.size,
                        status: t.status,
                    },
                ),
            )
        } else {
            (s, failed(not_found_text(id.0)))
        },
        Request::Stats => (
            s,
            told(
                ResponseView::Stats(
                    SystemStats {
                        download_rate: 0,
                        upload_rate: 0,
                        total_downloaded: 0,
                        total_uploaded: 0,
                        num_torrents: s.torrents.len() as usize,
                    },
                ),
            ),
        ),
        Request::GetConfig => (s, told(ResponseView::Config(config_text(s.config)))),
    }
}

/// The largest number among entries, and zero where there are none.
pub open spec fn largest_id(entries: Seq<(u32, Seq<char>)>) -> u32
    decreases entries.len(),
{
    if entries.len() == 0 {
        0
    } else {
        let before = largest_id(entries.drop_last());
        if entries.last().0 > before {
            entries.last().0
        } else {
            before
        }
    }
}

/// What was recorded, with entries taken over one after the other.
pub open spec fn with_entries(saved: Map<u32, Seq<char>>, entries: Seq<(u32, Seq<char>)>) -> Map<u32, Seq<char>>
    decreases entries.len(),
{
    if entries.len() == 0 {
        saved
    } else {
        with_entries(saved, entries.drop_last()).insert(entries.last().0, entries.last().1)
    }
}

/// The server after entries were taken over: new torrents get numbers behind
/// theirs.
pub open spec fn restored(s: ServerView, entries: Seq<(u32, Seq<char>)>) -> ServerView {
    if entries.len() == 0 {
        s
    } else {
        ServerView {
            saved: with_entries(s.saved, entries),
            next_id: if largest_id(entries) + 1 > s.next_id {
                (largest_id(entries) + 1) as u32
            } else {
                s.next_id
            },
            ..s
        }
    }
}

/// The orders to load the torrents of entries.
pub open spec fn restore_orders(entries: Seq<(u32, Seq<char>)>) -> Seq<EffectView> {
    entries.map_values(|e: (u32, Seq<char>)| EffectView::RestoreTorrent { id: e.0, path: e.1 })
}

/// How far loading a torrent has come.
pub enum RestoreStep {
    /// It is to be found out whether there is a file `cache_path`; then
    /// `restore_cache_checked` goes on.
    CheckCache(PendingMagnet),
    /// The file is to be read; then `restore_file_read` goes on.
    ReadFile { path: String },
    /// The torrent is loaded; this is left to do.
    Done(Effect),
    /// The torrent is not loaded, for this reason.
    Failed(String),
}

/// What a `RestoreStep` says.
pub enum RestoreView {
    CheckCache { link: Seq<char>, magnet: MagnetView, cache_path: Seq<char> },
    ReadFile { path: Seq<char> },
    Done(EffectView),
    Failed(Seq<char>),
}

impl RestoreStep {
    pub open spec fn view(&self) -> RestoreView {
        match self {
            RestoreStep::CheckCache(p) => RestoreView::CheckCache {
                link: p.link@,
                magnet: p.magnet@,
                cache_path: p.cache_path@,
            },
            RestoreStep::ReadFile { path } => RestoreView::ReadFile { path: path@ },
            RestoreStep::Done(e) => RestoreView::Done(e@),
            RestoreStep::Failed(text) => RestoreView::Failed(text@),
        }
    }
}

/// How loading a torrent starts.
pub open spec fn restore_start(s: ServerView, path: Seq<char>) -> RestoreView {
    if begins(path, "magnet:?"@) {
        match magnet_of(encode_utf8(path)) {
            Err(e) => RestoreView::Failed("Restore: failed to parse magnet link: "@ + e.text()),
            Ok(magnet) => RestoreView::CheckCache {
                link: path,
                magnet,
                cache_path: cache_path_of(s.config, hex_text(magnet.info_hash)),
            },
        }
    } else {
        RestoreView::ReadFile { path }
    }
}

/// How loading a magnet link goes on.
pub open spec fn restore_after_cache(
    s: ServerView,
    id: u32,
    magnet: MagnetView,
    cache_path: Seq<char>,
    exists_in_cache: bool,
) -> (ServerView, RestoreView) {
    if exists_in_cache {
        (s, RestoreView::ReadFile { path: cache_path })
    } else {
        (with_magnet(s, id, magnet), RestoreView::Done(magnet_worker(s, id, magnet)))
    }
}

/// How loading a torrent ends.
pub open spec fn restore_after_file(
    s: ServerView,
    id: u32,
    path: Seq<char>,
    contents: Result<Seq<u8>, Seq<char>>,
) -> (ServerView, RestoreView) {
    match contents {
        Err(e) => (s, RestoreView::Failed("Restore: failed to read "@ + path + ": "@ + e)),
        Ok(bytes) => match meta_of(bytes) {
            Err(e) => (s, RestoreView::Failed("Restore: failed to parse "@ + path + ": "@ + meta_failure_text(e))),
            Ok(meta) => (with_torrent(s, id, meta), RestoreView::Done(downloader(s, id, meta))),
        },
    }
}

/// Whether what a file holds can be handled: its values end within it, and the
/// size of a torrent is a 64-bit number.
pub open spec fn may_restore(contents: Result<Seq<u8>, Seq<char>>) -> bool {
    contents matches Ok(bytes) ==> {
        &&& !decode_faults(bytes)
        &&& meta_of(bytes) matches Ok(meta) ==> mode_size(meta.info.mode) <= u64::MAX
    }
}

/// The torrents that are loaded, as far as it is recorded what they were added
/// from, in the order of their numbers.
pub open spec fn loaded_entries_of(s: ServerView) -> Seq<(u32, Seq<char>)> {
    saved_entries(s.saved.restrict(s.torrents.dom()))
}

/// What was read of a file, or why it could not be read.
pub open spec fn contents_view(contents: Result<Vec<u8>, String>) -> Result<Seq<u8>, Seq<char>> {
    match contents {
        Ok(bytes) => Ok(bytes@),
        Err(e) => Err(e@),
    }
}

/// No number among entries is larger than the largest.
pub proof fn lemma_largest(entries: Seq<(u32, Seq<char>)>)
    ensures
        forall|i: int| 0 <= i < entries.len() ==> (#[trigger] entries[i]).0 <= largest_id(entries),
    decreases entries.len(),
{
    if entries.len() > 0 {
        lemma_largest(entries.drop_last());
        assert forall|i: int| 0 <= i < entries.len() implies (#[trigger] entries[i]).0 <= largest_id(entries) by {
            if i < entries.len() - 1 {
                assert(entries.drop_last()[i] == entries[i]);
            }
        }
    }
}

} // verus!
