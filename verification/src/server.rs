//! The torrents that the daemon knows, and what requests do to them.
use vstd::prelude::*;
use vstd::string::*;
use crate::bencode::Bencode;
use crate::config::{texts, Config};
use crate::creator::create_torrent;
use crate::engine::TorrentDownloader;
use crate::ids::TorrentId;
use crate::magnet::{magnet_link_for_hash, MagnetLink};
use crate::meta::{InfoDict, TorrentMeta};
use crate::persist::entry_views;
use crate::rpc::{Request, Response, SystemStats, TorrentDetails, TorrentStatus};
use crate::server_model::{
    abort_of, added, after_cache, after_data, after_file, after_making, answered, cache_path_of,
    client_peer_id, contents_view, downloaded_files, downloader, duplicate_text, effect_views, failed,
    first_with, is_bare_hash, is_cached, is_first_with, is_hex_digit, largest_id, lemma_largest, loaded_entries_of,
    magnet_worker, making, may_add, may_restore, not_found_text, path_views, reloaded, removed,
    restore_after_cache, restore_after_file, restore_orders, restore_start, restored, saved_entries,
    status_list, status_of, status_views, told, with_entries, with_magnet, with_next_id, with_status,
    with_torrent, BuildInfo, Effect, EffectView, FoundData, HandleView, Outcome, OutcomeView, PendingMagnet,
    PendingTorrent, ResponseView, RestoreStep, ServerView, TorrentHandle,
};
use crate::state::TorrentState;
use crate::storage::{make_views, mode_size};
use crate::strings::{
    holds, text_begins, text_begins_in_any_case, text_holds, text_trimmed, text_without_slashes,
};
use crate::table::{are_keys, keys_are_unique, keys_of, keys_of_lists_the_keys, IdTable};
use crate::text::{append_decimal, decimal_text, to_chars};
use crate::worker::MagnetWorker;

verus! {

/// The torrents that the daemon knows.
pub struct RpcServer {
    config: Config,
    torrents: IdTable<TorrentHandle>,
    saved_paths: IdTable<String>,
    next_id: u32,
}

proof fn lemma_keys_of<V>(ids: Seq<u32>, m: Map<u32, V>)
    requires
        are_keys(ids, m),
    ensures
        keys_of(m) == ids,
{
    keys_of_lists_the_keys(m);
    keys_are_unique(keys_of(m), ids, m);
}

proof fn lemma_same_keys<V, W>(ids: Seq<u32>, m: Map<u32, V>, other: Map<u32, W>)
    requires
        are_keys(ids, m),
        forall|k: u32| m.contains_key(k) <==> other.contains_key(k),
    ensures
        are_keys(ids, other),
{
}

/// An effect behind others.
proof fn lemma_one_more_effect(effects: Seq<Effect>, e: Effect)
    ensures
        effect_views(effects.push(e)) == effect_views(effects).push(e@),
{
    assert(effect_views(effects.push(e)) =~= effect_views(effects).push(e@));
}

/// Text with more text behind it.
fn joined2(a: &str, b: &str) -> (r: String)
    ensures
        r@ == a@ + b@,
{
    let mut text = String::from_str(a);
    text.append(b);
    text
}

/// The refusal to add a torrent twice.
fn duplicate(name: &str, id: u32) -> (r: String)
    ensures
        r@ == duplicate_text(name@, id),
{
    let mut text = String::from_str("Torrent '");
    text.append(name);
    text.append("' is already added (ID ");
    append_decimal(&mut text, id as u64);
    text.append(")");
    text
}

/// A text with a number in its midst.
fn about_id(before: &str, id: u32, after: &str) -> (r: String)
    ensures
        r@ == before@ + decimal_text(id as nat) + after@,
{
    let mut text = String::from_str(before);
    append_decimal(&mut text, id as u64);
    text.append(after);
    text
}

/// An error message as an answer.
fn fail(text: String) -> (r: Outcome)
    ensures
        r@ == failed(text@),
{
    tell(Response::Error(text))
}

/// An answer with nothing left to do.
fn tell(response: Response) -> (r: Outcome)
    ensures
        r@ == told(response@),
{
    let effects: Vec<Effect> = Vec::new();
    assert(effect_views(effects@) =~= Seq::<EffectView>::empty());
    Outcome::Done { response, effects }
}

/// The name under which the client is known to peers.
pub fn peer_id() -> (r: [u8; 20])
    ensures
        r@ == client_peer_id(),
{
    let id: [u8; 20] = [45, 65, 71, 48, 48, 48, 49, 45, 0, 0, 0, 0, 0, 0, 0, 0, 0, 0, 0, 0];
    proof {
        reveal_strlit("-AG0001-");
        is_ascii_spec_bytes("-AG0001-");
        assert(id@ =~= client_peer_id());
    }
    id
}

/// Whether a text is forty hexadecimal digits.
fn bare_hash(s: &str) -> (r: bool)
    ensures
        r == is_bare_hash(s@),
{
    let chars = to_chars(s);
    if chars.len() != 40 {
        return false;
    }
    let mut i: usize = 0;
    while i < 40
        invariant
            i <= 40 == chars@.len(),
            chars@ == s@,
            forall|k: int| 0 <= k < i ==> is_hex_digit(#[trigger] s@[k]),
        decreases 40 - i,
    {
        let c: char = chars[i];
        if !(('0' <= c && c <= '9') || ('a' <= c && c <= 'f') || ('A' <= c && c <= 'F')) {
            assert(!is_hex_digit(s@[i as int]));
            return false;
        }
        i += 1;
    }
    true
}

/// What is shown of a torrent.
fn show(t: &TorrentState) -> (r: TorrentStatus)
    ensures
        r@ == status_of(t@),
{
    TorrentStatus {
        id: TorrentId(t.id.0),
        name: t.name.clone(),
        info_hash: t.info_hash.clone(),
        size: t.size,
        downloaded: t.downloaded,
        uploaded: 0,
        status: t.status.clone(),
        download_rate: 0,
        upload_rate: 0,
        peers_connected: t.peers_connected,
    }
}

/// The files that a torrent is downloaded to.
fn files_of(info: &InfoDict) -> (r: Vec<Vec<String>>)
    ensures
        path_views(r@) == downloaded_files(info@),
{
    let made = info.initialize_files();
    let mut files: Vec<Vec<String>> = Vec::new();
    let mut i: usize = 0;
    while i < made.len()
        invariant
            i <= made@.len(),
            files@.len() == i,
            forall|k: int| 0 <= k < i ==> texts((#[trigger] files@[k])@) == made@[k]@.path,
        decreases made@.len() - i,
    {
        let path: Vec<String> = made[i].path.clone();
        assert(texts(path@) =~= texts(made@[i as int].path@));
        files.push(path);
        i += 1;
    }
    assert forall|k: int| 0 <= k < made@.len() implies #[trigger] downloaded_files(info@)[k] == made@[k]@.path by {
        assert(make_views(made@)[k] == made@[k]@);
    }
    assert(path_views(files@) =~= downloaded_files(info@)) by {
        assert(make_views(made@).len() == made@.len());
    }
    files
}

impl RpcServer {
    pub closed spec fn view(&self) -> ServerView {
        ServerView {
            config: self.config@,
            torrents: self.torrents@.map_values(|h: TorrentHandle| h@),
            saved: self.saved_paths@.map_values(|p: String| p@),
            next_id: self.next_id,
        }
    }

    /// The tables are in order, and every torrent knows its number.
    pub closed spec fn wf(&self) -> bool {
        &&& self.torrents.wf()
        &&& self.saved_paths.wf()
        &&& forall|id: u32| #[trigger]
            self.torrents@.contains_key(id) ==> self.torrents@[id].state.id.0 == id
    }

    /// No torrents; the first one gets the number one.
    pub fn new(config: Config) -> (r: Self)
        ensures
            r.wf(),
            r@ == (ServerView {
                config: config@,
                torrents: Map::empty(),
                saved: Map::empty(),
                next_id: 1,
            }),
    {
        let server = RpcServer { config, torrents: IdTable::new(), saved_paths: IdTable::new(), next_id: 1 };
        assert(server@.torrents =~= Map::empty());
        assert(server@.saved =~= Map::empty());
        server
    }

    /// What is recorded of the torrents that were added.
    fn entries(&self) -> (r: Vec<(u32, String)>)
        requires
            self.wf(),
        ensures
            entry_views(r@) == saved_entries(self@.saved),
    {
        let ids = self.saved_paths.ids();
        proof {
            lemma_same_keys(ids@, self.saved_paths@, self@.saved);
            lemma_keys_of(ids@, self@.saved);
        }
        let mut entries: Vec<(u32, String)> = Vec::new();
        let mut i: usize = 0;
        while i < ids.len()
            invariant
                self.wf(),
                i <= ids@.len(),
                are_keys(ids@, self.saved_paths@),
                entries@.len() == i,
                forall|k: int| 0 <= k < i ==> (#[trigger] entries@[k]).0 == ids@[k] && entries@[k].1@ == self@.saved[ids@[k]],
            decreases ids@.len() - i,
        {
            if let Some(path) = self.saved_paths.get(ids[i]) {
                entries.push((ids[i], path.clone()));
            } else {
                assert(self.saved_paths@.contains_key(ids@[i as int]));
            }
            i += 1;
        }
        assert(entry_views(entries@) =~= saved_entries(self@.saved));
        entries
    }

    /// The first torrent with a hash.
    fn find_hash(&self, hash: &String) -> (r: Option<&TorrentState>)
        requires
            self.wf(),
        ensures
            match first_with(self@.torrents, hash@) {
                Some(id) => r matches Some(t) && t@ == self@.torrents[id].state,
                None => r is None,
            },
    {
        let ghost torrents = self@.torrents;
        let ids = self.torrents.ids();
        let mut i: usize = 0;
        while i < ids.len()
            invariant
                self.wf(),
                torrents == self@.torrents,
                i <= ids@.len(),
                are_keys(ids@, self.torrents@),
                forall|k: int| 0 <= k < i ==> torrents[#[trigger] ids@[k]].state.info_hash != hash@,
            decreases ids@.len() - i,
        {
            if let Some(handle) = self.torrents.get(ids[i]) {
                if handle.state.info_hash.eq(hash) {
                    proof {
                        let id = ids@[i as int];
                        assert(is_first_with(torrents, hash@, id)) by {
                            assert forall|other: u32| #[trigger]
                                torrents.contains_key(other) && torrents[other].state.info_hash == hash@ implies id
                                <= other by {
                                assert(self.torrents@.contains_key(other));
                                let k = choose|k: int| 0 <= k < ids@.len() && ids@[k] == other;
                                if k > i {
                                    assert(ids@[i as int] < ids@[k]);
                                }
                            }
                        }
                        let chosen = first_with(torrents, hash@)->0;
                        assert(is_first_with(torrents, hash@, chosen));
                        assert(chosen == id);
                    }
                    return Some(&handle.state);
                }
            } else {
                assert(self.torrents@.contains_key(ids@[i as int]));
            }
            i += 1;
        }
        proof {
            assert forall|id: u32| !is_first_with(torrents, hash@, id) by {
                if is_first_with(torrents, hash@, id) {
                    assert(self.torrents@.contains_key(id));
                    let k = choose|k: int| 0 <= k < ids@.len() && ids@[k] == id;
                    assert(torrents[ids@[k]].state.info_hash != hash@);
                }
            }
        }
        None
    }

    /// Puts a torrent under its number.
    fn put(&mut self, id: u32, state: TorrentState, running: bool, files: Vec<Vec<String>>)
        requires
            old(self).wf(),
            state.id.0 == id,
        ensures
            final(self).wf(),
            final(self)@ == (ServerView {
                torrents: old(self)@.torrents.insert(
                    id,
                    HandleView { state: state@, running, files: path_views(files@) },
                ),
                ..old(self)@
            }),
    {
        let handle = TorrentHandle { state, running, files };
        let ghost before = self.torrents@;
        self.torrents.insert(id, handle);
        assert(self@.torrents =~= before.map_values(|h: TorrentHandle| h@).insert(id, handle@));
    }

    /// Gives the next number to what is added from `path`.
    fn take_next_id(&mut self, path: &String) -> (r: u32)
        requires
            old(self).wf(),
        ensures
            final(self).wf(),
            r == old(self)@.next_id,
            final(self)@ == with_next_id(old(self)@, path@),
    {
        let id: u32 = self.next_id;
        let ghost before = self.saved_paths@;
        self.next_id = if id == 0xffff_ffff {
            0
        } else {
            id + 1
        };
        self.saved_paths.insert(id, path.clone());
        assert(self@.saved =~= before.map_values(|p: String| p@).insert(id, path@));
        id
    }

    /// The path at which the metainfo of a hash is kept.
    fn cache_path(&self, hash: &String) -> (r: String)
        ensures
            r@ == cache_path_of(self@.config, hash@),
    {
        let mut path = self.config.metadata_dir.clone();
        path.append("/");
        path.append(hash.as_str());
        path.append(".torrent");
        path
    }

    /// Puts the torrent of a magnet link under a number and names its worker.
    fn start_magnet(&mut self, id: u32, magnet: MagnetLink) -> (r: Effect)
        requires
            old(self).wf(),
        ensures
            final(self).wf(),
            final(self)@ == with_magnet(old(self)@, id, magnet@),
            r@ == magnet_worker(old(self)@, id, magnet@),
    {
        let hash = magnet.info_hash.to_hex();
        let name: String = match &magnet.name {
            Some(name) => name.clone(),
            None => hash.clone(),
        };
        let state = TorrentState {
            id: TorrentId(id),
            name,
            info_hash: hash,
            size: 0,
            downloaded: 0,
            uploaded: 0,
            status: String::from_str("Fetching Metadata"),
            peers_connected: 0,
        };
        let files: Vec<Vec<String>> = Vec::new();
        assert(path_views(files@) =~= Seq::<Seq<Seq<char>>>::empty());
        self.put(id, state, true, files);
        Effect::StartMagnetWorker(
            MagnetWorker {
                id: TorrentId(id),
                magnet,
                download_dir: self.config.download_dir.clone(),
                metadata_dir: self.config.metadata_dir.clone(),
            },
        )
    }

    /// Puts a torrent whose metainfo is known under a number and names its
    /// downloader.
    fn start_download(&mut self, id: u32, meta: TorrentMeta) -> (r: Effect)
        requires
            old(self).wf(),
            mode_size(meta@.info.mode) <= u64::MAX,
        ensures
            final(self).wf(),
            final(self)@ == with_torrent(old(self)@, id, meta@),
            r@ == downloader(old(self)@, id, meta@),
    {
        let state = TorrentState {
            id: TorrentId(id),
            name: meta.info.name.clone(),
            info_hash: meta.info_hash.to_hex(),
            size: meta.info.mode.total_size(),
            downloaded: 0,
            uploaded: 0,
            status: String::from_str("Checking"),
            peers_connected: 0,
        };
        let files = files_of(&meta.info);
        self.put(id, state, true, files);
        let worker = TorrentDownloader::new(TorrentId(id), meta, self.config.download_dir.clone(), peer_id());
        let effect = Effect::StartDownloader(worker);
        assert(effect@->StartDownloader_have =~= Seq::new(meta@.info.pieces.len(), |i: int| false));
        effect
    }

    /// Starts to add a torrent.
    fn add(&self, path_or_magnet: &String) -> (r: Outcome)
        requires
            self.wf(),
        ensures
            r@ == added(self@, path_or_magnet@),
    {
        let mut text = text_trimmed(path_or_magnet.as_str());
        if bare_hash(text.as_str()) {
            text = magnet_link_for_hash(text.as_str(), &self.config.default_trackers);
        }
        if !text_begins_in_any_case(text.as_str(), "magnet:?") {
            let effects: Vec<Effect> = Vec::new();
            assert(effect_views(effects@) =~= Seq::<EffectView>::empty());
            return Outcome::ReadFile { path: text, effects };
        }
        match MagnetLink::parse(text.as_str()) {
            Err(e) => fail(joined2("Invalid magnet link: ", e.message().as_str())),
            Ok(magnet) => {
                let hash = magnet.info_hash.to_hex();
                match self.find_hash(&hash) {
                    Some(t) => fail(duplicate(t.name.as_str(), t.id.0)),
                    None => {
                        let cache_path = self.cache_path(&hash);
                        Outcome::CheckCache(PendingMagnet { link: text, magnet, cache_path })
                    },
                }
            },
        }
    }

    /// Goes on with adding a magnet link once it is known whether its metainfo is
    /// at hand.
    pub fn cache_checked(&mut self, pending: PendingMagnet, exists_in_cache: bool) -> (r: Outcome)
        requires
            old(self).wf(),
        ensures
            final(self).wf(),
            (final(self)@, r@) == after_cache(
                old(self)@,
                pending.link@,
                pending.magnet@,
                pending.cache_path@,
                exists_in_cache,
            ),
    {
        let id: u32 = self.take_next_id(&pending.link);
        let mut effects: Vec<Effect> = Vec::new();
        assert(effect_views(effects@) =~= Seq::<EffectView>::empty());
        let save = Effect::SaveState { entries: self.entries() };
        proof {
            lemma_one_more_effect(effects@, save);
        }
        let ghost saved = save@;
        effects.push(save);
        if exists_in_cache {
            assert(effect_views(effects@) =~= seq![saved]);
            return Outcome::ReadFile { path: pending.cache_path, effects };
        }
        let worker = self.start_magnet(id, pending.magnet);
        proof {
            lemma_one_more_effect(effects@, worker);
        }
        let ghost started = worker@;
        effects.push(worker);
        assert(effect_views(effects@) =~= seq![saved, started]);
        Outcome::Done { response: Response::TorrentAdded { id: TorrentId(id) }, effects }
    }

    /// Whether what a file holds can be handled.
    pub fn can_add(&self, path: &String, contents: &Result<Vec<u8>, String>) -> (r: bool)
        requires
            self.wf(),
        ensures
            r == may_add(self@, path@, contents_view(*contents)),
    {
        match contents {
            Err(_) => true,
            Ok(bytes) => {
                if Bencode::runs_past_end(bytes.as_slice()) {
                    return false;
                }
                match TorrentMeta::from_bytes(bytes.as_slice()) {
                    Err(_) => true,
                    Ok(meta) => {
                        if !meta.info.mode.size_fits() {
                            return false;
                        }
                        let hash = meta.info_hash.to_hex();
                        let known: bool = self.find_hash(&hash).is_some();
                        known || !self.in_cache(path) || self.next_id > 0
                    },
                }
            },
        }
    }

    /// Whether a path lies in the directory for metainfo.
    fn in_cache(&self, path: &String) -> (r: bool)
        ensures
            r == is_cached(self@.config, path@),
    {
        let dir = joined2(self.config.metadata_dir.as_str(), "/");
        text_begins(path.as_str(), dir.as_str())
    }

    /// Goes on with adding once the file was read, or why it could not be.
    pub fn file_read(&mut self, path: String, contents: Result<Vec<u8>, String>) -> (r: Outcome)
        requires
            old(self).wf(),
            may_add(old(self)@, path@, contents_view(contents)),
        ensures
            final(self).wf(),
            (final(self)@, r@) == after_file(old(self)@, path@, contents_view(contents)),
    {
        let bytes: Vec<u8> = match contents {
            Ok(bytes) => bytes,
            Err(e) => {
                return fail(joined2("Failed to read torrent file: ", e.as_str()));
            },
        };
        let meta: TorrentMeta = match TorrentMeta::from_bytes(bytes.as_slice()) {
            Ok(meta) => meta,
            Err(e) => {
                return fail(joined2("Failed to parse torrent metainfo: ", e.message().as_str()));
            },
        };
        let hash = meta.info_hash.to_hex();
        if let Some(t) = self.find_hash(&hash) {
            return fail(duplicate(t.name.as_str(), t.id.0));
        }
        let mut effects: Vec<Effect> = Vec::new();
        assert(effect_views(effects@) =~= Seq::<EffectView>::empty());
        let cached: bool = self.in_cache(&path);
        let ghost mut before: Seq<EffectView> = seq![];
        let id: u32 = if cached {
            self.next_id - 1
        } else {
            let id: u32 = self.take_next_id(&path);
            let save = Effect::SaveState { entries: self.entries() };
            proof {
                lemma_one_more_effect(effects@, save);
                before = seq![save@];
            }
            effects.push(save);
            assert(effect_views(effects@) =~= before);
            id
        };
        let worker = self.start_download(id, meta);
        proof {
            lemma_one_more_effect(effects@, worker);
        }
        let ghost started = worker@;
        effects.push(worker);
        assert(cached ==> effect_views(effects@) =~= seq![started]);
        assert(!cached ==> effect_views(effects@) =~= seq![before[0], started]);
        Outcome::Done { response: Response::TorrentAdded { id: TorrentId(id) }, effects }
    }
}

impl RpcServer {
    /// Goes on with adding once the file was read, if what it holds can be
    /// handled; nothing happens where it cannot.
    pub fn try_file_read(&mut self, path: String, contents: Result<Vec<u8>, String>) -> (r: Option<Outcome>)
        requires
            old(self).wf(),
        ensures
            final(self).wf(),
            match r {
                Some(outcome) => may_add(old(self)@, path@, contents_view(contents)) && (final(self)@, outcome@)
                    == after_file(old(self)@, path@, contents_view(contents)),
                None => !may_add(old(self)@, path@, contents_view(contents)) && final(self)@ == old(self)@,
            },
    {
        if self.can_add(&path, &contents) {
            Some(self.file_read(path, contents))
        } else {
            None
        }
    }

    /// Goes on with making a `.torrent` file once its data was found, or why it
    /// could not be.
    pub fn data_found(&self, pending: PendingTorrent, data: Result<FoundData, String>) -> (r: Outcome)
        requires
            data matches Ok(found) ==> found.hasher.wf(),
        ensures
            r@ == after_data(pending@, data),
    {
        match data {
            Err(e) => fail(e),
            Ok(found) => {
                let bytes = create_torrent(found.name, found.mode, found.hasher, &pending.trackers);
                Outcome::WriteTorrent { pending, bytes }
            },
        }
    }

    /// Ends making a `.torrent` file once it was written, or why it could not be.
    pub fn torrent_made(&self, pending: PendingTorrent, made: Result<(), String>) -> (r: Outcome)
        ensures
            r@ == after_making(pending@, made),
    {
        match made {
            Err(e) => fail(e),
            Ok(_) => {
                if !pending.add {
                    return tell(Response::Success);
                }
                let effects: Vec<Effect> = Vec::new();
                assert(effect_views(effects@) =~= Seq::<EffectView>::empty());
                Outcome::ReadFile { path: pending.output, effects }
            },
        }
    }

    /// Goes on with loading a torrent once the file was read, if what it holds
    /// can be handled; nothing happens where it cannot.
    pub fn try_restore_file_read(&mut self, id: u32, path: String, contents: Result<Vec<u8>, String>) -> (r: Option<
        RestoreStep,
    >)
        requires
            old(self).wf(),
        ensures
            final(self).wf(),
            match r {
                Some(step) => may_restore(contents_view(contents)) && (final(self)@, step@) == restore_after_file(
                    old(self)@,
                    id,
                    path@,
                    contents_view(contents),
                ),
                None => !may_restore(contents_view(contents)) && final(self)@ == old(self)@,
            },
    {
        if Self::can_restore(&contents) {
            Some(self.restore_file_read(id, path, contents))
        } else {
            None
        }
    }
}

impl RpcServer {
    /// Answers a request as far as that is possible without looking at files.
    pub fn process_request(&mut self, request: Request, build: &BuildInfo) -> (r: Outcome)
        requires
            old(self).wf(),
        ensures
            final(self).wf(),
            (final(self)@, r@) == answered(old(self)@, request, *build),
    {
        match request {
            Request::Version => {
                let mut version = build.version.clone();
                version.append(" (Git: ");
                version.append(build.git_hash.as_str());
                version.append(" | Date: ");
                version.append(build.git_date.as_str());
                version.append(")");
                tell(Response::Version { version })
            },
            Request::Add { path_or_magnet } => self.add(&path_or_magnet),
            Request::List => tell(Response::TorrentList(self.list())),
            Request::Status { id } => self.status(
                match id {
                    Some(i) => Some(i.0),
                    None => None,
                },
            ),
            Request::Remove { id, delete_data } => self.remove(id.0, delete_data),
            Request::Pause { id } => self.pause(id.0),
            Request::Resume { id } => self.resume(id.0),
            Request::Verify { id } => self.verify(id.0),
            Request::Create { path, trackers } => make(path, trackers, false),
            Request::CreateAdd { path, trackers } => make(path, trackers, true),
            Request::Info { id } => self.info(id.0),
            Request::Stats => {
                let num_torrents: usize = self.torrents.len();
                assert(self@.torrents.dom() =~= self.torrents@.dom());
                tell(
                    Response::Stats(
                        SystemStats {
                            download_rate: 0,
                            upload_rate: 0,
                            total_downloaded: 0,
                            total_uploaded: 0,
                            num_torrents,
                        },
                    ),
                )
            },
            Request::GetConfig => tell(Response::Config(self.config.describe())),
        }
    }

    /// What is shown of all torrents, in the order of their numbers.
    fn list(&self) -> (r: Vec<TorrentStatus>)
        requires
            self.wf(),
        ensures
            status_views(r@) == status_list(self@.torrents),
    {
        let ids = self.torrents.ids();
        proof {
            lemma_same_keys(ids@, self.torrents@, self@.torrents);
            lemma_keys_of(ids@, self@.torrents);
        }
        let mut list: Vec<TorrentStatus> = Vec::new();
        let mut i: usize = 0;
        while i < ids.len()
            invariant
                self.wf(),
                i <= ids@.len(),
                are_keys(ids@, self.torrents@),
                list@.len() == i,
                forall|k: int| 0 <= k < i ==> (#[trigger] list@[k])@ == status_of(self@.torrents[ids@[k]].state),
            decreases ids@.len() - i,
        {
            if let Some(handle) = self.torrents.get(ids[i]) {
                list.push(show(&handle.state));
            } else {
                assert(self.torrents@.contains_key(ids@[i as int]));
            }
            i += 1;
        }
        assert(status_views(list@) =~= status_list(self@.torrents));
        list
    }

    /// Shows one torrent, the first one where none is named.
    fn status(&self, id: Option<u32>) -> (r: Outcome)
        requires
            self.wf(),
        ensures
            r@ == ({
                let wanted: Option<u32> = match id {
                    Some(i) => Some(i),
                    None => if keys_of(self@.torrents).len() > 0 {
                        Some(keys_of(self@.torrents)[0])
                    } else {
                        None
                    },
                };
                match wanted {
                    None => failed("No torrents loaded"@),
                    Some(i) => if self@.torrents.contains_key(i) {
                        told(ResponseView::TorrentStatus(status_of(self@.torrents[i].state)))
                    } else {
                        failed(not_found_text(i))
                    },
                }
            }),
    {
        let wanted: u32 = match id {
            Some(i) => i,
            None => {
                let ids = self.torrents.ids();
                proof {
                    lemma_same_keys(ids@, self.torrents@, self@.torrents);
                    lemma_keys_of(ids@, self@.torrents);
                }
                if ids.len() == 0 {
                    return fail(String::from_str("No torrents loaded"));
                }
                ids[0]
            },
        };
        match self.torrents.get(wanted) {
            Some(handle) => tell(Response::TorrentStatus(show(&handle.state))),
            None => fail(about_id("Torrent ID ", wanted, " not found")),
        }
    }

    /// Forgets a torrent.
    fn remove(&mut self, id: u32, delete_data: bool) -> (r: Outcome)
        requires
            old(self).wf(),
        ensures
            final(self).wf(),
            (final(self)@, r@) == if old(self)@.torrents.contains_key(id) {
                removed(old(self)@, id, delete_data)
            } else {
                (old(self)@, failed(not_found_text(id)))
            },
    {
        let ghost torrents = self.torrents@;
        let ghost saved = self.saved_paths@;
        match self.torrents.remove(id) {
            Some(handle) => {
                let mut effects: Vec<Effect> = abort(id, handle.running);
                let _ = self.saved_paths.remove(id);
                assert(self@.torrents =~= torrents.map_values(|h: TorrentHandle| h@).remove(id));
                assert(self@.saved =~= saved.map_values(|p: String| p@).remove(id));
                let save = Effect::SaveState { entries: self.entries() };
                proof {
                    lemma_one_more_effect(effects@, save);
                }
                effects.push(save);
                let ghost before = effect_views(effects@);
                if delete_data {
                    let delete = Effect::DeleteData {
                        id: TorrentId(id),
                        download_dir: self.config.download_dir.clone(),
                        files: handle.files,
                    };
                    proof {
                        lemma_one_more_effect(effects@, delete);
                    }
                    let ghost deleted = delete@;
                    effects.push(delete);
                    assert(before.push(deleted) =~= before + seq![deleted]);
                } else {
                    assert(before =~= before + Seq::<EffectView>::empty());
                }
                Outcome::Done { response: Response::TorrentRemoved, effects }
            },
            None => {
                assert(self@.torrents =~= torrents.map_values(|h: TorrentHandle| h@));
                fail(about_id("Torrent ID ", id, " not found"))
            },
        }
    }

    /// Whether there is a torrent and its worker is running.
    fn is_running(&self, id: u32) -> (r: Option<bool>)
        requires
            self.wf(),
        ensures
            r == if self@.torrents.contains_key(id) {
                Some(self@.torrents[id].running)
            } else {
                None::<bool>
            },
    {
        match self.torrents.get(id) {
            Some(handle) => Some(handle.running),
            None => None,
        }
    }

    /// Gives a torrent that is there another status, with its worker stopped.
    fn stop_with_status(&mut self, id: u32, status: &str)
        requires
            old(self).wf(),
            old(self)@.torrents.contains_key(id),
        ensures
            final(self).wf(),
            final(self)@ == with_status(old(self)@, id, false, status@),
    {
        let ghost torrents = self.torrents@;
        if let Some(handle) = self.torrents.remove(id) {
            let mut state = handle.state;
            state.status = String::from_str(status);
            assert(torrents[id].state.id.0 == id);
            self.put(id, state, false, handle.files);
            assert(self@.torrents =~= torrents.map_values(|h: TorrentHandle| h@).insert(id, self@.torrents[id]));
        }
    }

    /// Stops a torrent.
    fn pause(&mut self, id: u32) -> (r: Outcome)
        requires
            old(self).wf(),
        ensures
            final(self).wf(),
            (final(self)@, r@) == ({
                let s = old(self)@;
                if s.torrents.contains_key(id) {
                    (
                        with_status(s, id, false, "Paused"@),
                        OutcomeView::Done { response: ResponseView::Success, effects: abort_of(s, id) },
                    )
                } else {
                    (s, failed(not_found_text(id)))
                }
            }),
    {
        match self.is_running(id) {
            Some(running) => {
                self.stop_with_status(id, "Paused");
                Outcome::Done { response: Response::Success, effects: abort(id, running) }
            },
            None => fail(about_id("Torrent ID ", id, " not found")),
        }
    }

    /// Orders a torrent to be loaded again.
    fn reload(&self, id: u32, before: Vec<Effect>) -> (r: Outcome)
        requires
            self.wf(),
        ensures
            r@ == reloaded(self@, id, effect_views(before@)),
    {
        let mut effects = before;
        match self.saved_paths.get(id) {
            Some(path) => {
                let restore = Effect::RestoreTorrent { id, path: path.clone() };
                proof {
                    lemma_one_more_effect(effects@, restore);
                }
                effects.push(restore);
                Outcome::Done { response: Response::Success, effects }
            },
            None => Outcome::Done {
                response: Response::Error(String::from_str("Torrent data path not found")),
                effects,
            },
        }
    }

    /// Starts a torrent that was stopped.
    fn resume(&mut self, id: u32) -> (r: Outcome)
        requires
            old(self).wf(),
        ensures
            final(self).wf(),
            (final(self)@, r@) == ({
                let s = old(self)@;
                if !s.torrents.contains_key(id) {
                    (s, failed(not_found_text(id)))
                } else if s.torrents[id].running {
                    (s, failed("Torrent ID "@ + decimal_text(id as nat) + " is already running"@))
                } else {
                    (with_status(s, id, false, "Checking"@), reloaded(s, id, seq![]))
                }
            }),
    {
        match self.is_running(id) {
            None => fail(about_id("Torrent ID ", id, " not found")),
            Some(true) => fail(about_id("Torrent ID ", id, " is already running")),
            Some(false) => {
                self.stop_with_status(id, "Checking");
                let none: Vec<Effect> = Vec::new();
                assert(effect_views(none@) =~= Seq::<EffectView>::empty());
                self.reload(id, none)
            },
        }
    }

    /// Checks a torrent anew.
    fn verify(&mut self, id: u32) -> (r: Outcome)
        requires
            old(self).wf(),
        ensures
            final(self).wf(),
            (final(self)@, r@) == ({
                let s = old(self)@;
                if s.torrents.contains_key(id) {
                    (with_status(s, id, false, "Checking"@), reloaded(s, id, abort_of(s, id)))
                } else {
                    (s, failed(not_found_text(id)))
                }
            }),
    {
        match self.is_running(id) {
            None => fail(about_id("Torrent ID ", id, " not found")),
            Some(running) => {
                self.stop_with_status(id, "Checking");
                self.reload(id, abort(id, running))
            },
        }
    }

    /// Shows a torrent in detail.
    fn info(&self, id: u32) -> (r: Outcome)
        requires
            self.wf(),
        ensures
            r@ == if self@.torrents.contains_key(id) {
                let t = self@.torrents[id].state;
                told(
                    ResponseView::Info {
                        name: t.name,
                        info_hash: t.info_hash,
                        size: t.size,
                        status: t.status,
                    },
                )
            } else {
                failed(not_found_text(id))
            },
    {
        match self.torrents.get(id) {
            Some(handle) => tell(
                Response::Info(
                    TorrentDetails {
                        name: handle.state.name.clone(),
                        info_hash: handle.state.info_hash.clone(),
                        size: handle.state.size,
                        status: handle.state.status.clone(),
                    },
                ),
            ),
            None => fail(about_id("Torrent ID ", id, " not found")),
        }
    }

    /// How far a torrent is.
    pub fn state(&self, id: u32) -> (r: Option<TorrentState>)
        requires
            self.wf(),
        ensures
            match r {
                Some(state) => self@.torrents.contains_key(id) && state@ == self@.torrents[id].state && state.id.0
                    == id,
                None => !self@.torrents.contains_key(id),
            },
    {
        match self.torrents.get(id) {
            Some(handle) => {
                assert(self.torrents@[id].state.id.0 == id);
                Some(handle.state.clone())
            },
            None => None,
        }
    }

    /// Takes note of how far a torrent is, if there is such a torrent.
    pub fn set_state(&mut self, state: TorrentState)
        requires
            old(self).wf(),
        ensures
            final(self).wf(),
            final(self)@ == if old(self)@.torrents.contains_key(state.id.0) {
                ServerView {
                    torrents: old(self)@.torrents.insert(
                        state.id.0,
                        HandleView { state: state@, ..old(self)@.torrents[state.id.0] },
                    ),
                    ..old(self)@
                }
            } else {
                old(self)@
            },
    {
        let id: u32 = state.id.0;
        let ghost torrents = self.torrents@;
        if let Some(handle) = self.torrents.remove(id) {
            self.put(id, state, handle.running, handle.files);
            assert(self@.torrents =~= torrents.map_values(|h: TorrentHandle| h@).insert(id, self@.torrents[id]));
        } else {
            assert(self@.torrents =~= torrents.map_values(|h: TorrentHandle| h@));
        }
    }
}

/// Starts to make a `.torrent` file.
fn make(path: String, trackers: Option<Vec<String>>, add: bool) -> (r: Outcome)
    ensures
        r@ == making(path@, trackers, add),
{
    let output = joined2(text_without_slashes(path.as_str()).as_str(), ".torrent");
    let named: Vec<String> = match trackers {
        Some(list) => list,
        None => {
            let none: Vec<String> = Vec::new();
            assert(texts(none@) =~= Seq::<Seq<char>>::empty());
            none
        },
    };
    Outcome::MakeTorrent(PendingTorrent { path, output, trackers: named, add })
}

/// The order to stop a worker, if it is running.
fn abort(id: u32, running: bool) -> (r: Vec<Effect>)
    ensures
        effect_views(r@) == if running {
            seq![EffectView::AbortWorker { id }]
        } else {
            seq![]
        },
{
    let mut effects: Vec<Effect> = Vec::new();
    if running {
        effects.push(Effect::AbortWorker { id: TorrentId(id) });
        assert(effect_views(effects@) =~= seq![EffectView::AbortWorker { id }]);
    } else {
        assert(effect_views(effects@) =~= Seq::<EffectView>::empty());
    }
    effects
}

/// `before`, `path`, a colon and the reason.
fn restore_failure(before: &str, path: &str, reason: &str) -> (r: String)
    ensures
        r@ == before@ + path@ + ": "@ + reason@,
{
    let mut text = String::from_str(before);
    text.append(path);
    text.append(": ");
    text.append(reason);
    text
}

impl RpcServer {
    /// Takes over the torrents that were recorded and orders each to be loaded.
    pub fn restore_state(&mut self, entries: Vec<(u32, String)>) -> (r: Vec<Effect>)
        requires
            old(self).wf(),
            largest_id(entry_views(entries@)) < u32::MAX,
        ensures
            final(self).wf(),
            final(self)@ == restored(old(self)@, entry_views(entries@)),
            effect_views(r@) == restore_orders(entry_views(entries@)),
    {
        let ghost all = entry_views(entries@);
        let ghost before = self@;
        let mut orders: Vec<Effect> = Vec::new();
        let mut max_id: u32 = 0;
        let mut i: usize = 0;
        assert(all.take(0) =~= Seq::<(u32, Seq<char>)>::empty());
        while i < entries.len()
            invariant
                i <= entries@.len(),
                all == entry_views(entries@),
                self.wf(),
                self@ == (ServerView { saved: with_entries(before.saved, all.take(i as int)), ..before }),
                max_id == largest_id(all.take(i as int)),
                orders@.len() == i,
                forall|k: int| 0 <= k < i ==> (#[trigger] orders@[k])@ == restore_orders(all)[k],
            decreases entries@.len() - i,
        {
            let id: u32 = entries[i].0;
            let path: String = entries[i].1.clone();
            assert(all.take(i + 1).drop_last() =~= all.take(i as int));
            assert(all[i as int] == (id, path@));
            if id > max_id {
                max_id = id;
            }
            let ghost saved = self.saved_paths@;
            self.saved_paths.insert(id, path.clone());
            assert(self@.saved =~= saved.map_values(|p: String| p@).insert(id, path@));
            orders.push(Effect::RestoreTorrent { id, path });
            i += 1;
        }
        assert(all.take(i as int) =~= all);
        assert(effect_views(orders@) =~= restore_orders(all));
        proof {
            lemma_largest(all);
        }
        if entries.len() > 0 && max_id + 1 > self.next_id {
            self.next_id = max_id + 1;
        }
        orders
    }

    /// Whether the numbers behind recorded torrents can be given to new ones.
    pub fn can_restore_state(entries: &Vec<(u32, String)>) -> (r: bool)
        ensures
            r == (largest_id(entry_views(entries@)) < u32::MAX),
    {
        let ghost all = entry_views(entries@);
        let mut max_id: u32 = 0;
        let mut i: usize = 0;
        assert(all.take(0) =~= Seq::<(u32, Seq<char>)>::empty());
        while i < entries.len()
            invariant
                i <= entries@.len(),
                all == entry_views(entries@),
                max_id == largest_id(all.take(i as int)),
            decreases entries@.len() - i,
        {
            assert(all.take(i + 1).drop_last() =~= all.take(i as int));
            if entries[i].0 > max_id {
                max_id = entries[i].0;
            }
            i += 1;
        }
        assert(all.take(i as int) =~= all);
        max_id < 0xffff_ffff
    }

    /// Starts to load a torrent.
    pub fn restore_torrent(&self, path: &String) -> (r: RestoreStep)
        requires
            self.wf(),
        ensures
            r@ == restore_start(self@, path@),
    {
        if !text_begins(path.as_str(), "magnet:?") {
            return RestoreStep::ReadFile { path: path.clone() };
        }
        match MagnetLink::parse(path.as_str()) {
            Err(e) => RestoreStep::Failed(
                joined2("Restore: failed to parse magnet link: ", e.message().as_str()),
            ),
            Ok(magnet) => {
                let cache_path = self.cache_path(&magnet.info_hash.to_hex());
                RestoreStep::CheckCache(PendingMagnet { link: path.clone(), magnet, cache_path })
            },
        }
    }

    /// Goes on with loading a magnet link once it is known whether its metainfo
    /// is at hand.
    pub fn restore_cache_checked(&mut self, id: u32, pending: PendingMagnet, exists_in_cache: bool) -> (r: RestoreStep)
        requires
            old(self).wf(),
        ensures
            final(self).wf(),
            (final(self)@, r@) == restore_after_cache(
                old(self)@,
                id,
                pending.magnet@,
                pending.cache_path@,
                exists_in_cache,
            ),
    {
        if exists_in_cache {
            RestoreStep::ReadFile { path: pending.cache_path }
        } else {
            RestoreStep::Done(self.start_magnet(id, pending.magnet))
        }
    }

    /// Whether what a file holds can be handled.
    pub fn can_restore(contents: &Result<Vec<u8>, String>) -> (r: bool)
        ensures
            r == may_restore(contents_view(*contents)),
    {
        match contents {
            Err(_) => true,
            Ok(bytes) => {
                if Bencode::runs_past_end(bytes.as_slice()) {
                    return false;
                }
                match TorrentMeta::from_bytes(bytes.as_slice()) {
                    Err(_) => true,
                    Ok(meta) => meta.info.mode.size_fits(),
                }
            },
        }
    }

    /// Goes on with loading a torrent once the file was read, or why it could
    /// not be.
    pub fn restore_file_read(&mut self, id: u32, path: String, contents: Result<Vec<u8>, String>) -> (r: RestoreStep)
        requires
            old(self).wf(),
            may_restore(contents_view(contents)),
        ensures
            final(self).wf(),
            (final(self)@, r@) == restore_after_file(old(self)@, id, path@, contents_view(contents)),
    {
        match contents {
            Err(e) => RestoreStep::Failed(
                restore_failure("Restore: failed to read ", path.as_str(), e.as_str()),
            ),
            Ok(bytes) => match TorrentMeta::from_bytes(bytes.as_slice()) {
                Err(e) => RestoreStep::Failed(
                    restore_failure("Restore: failed to parse ", path.as_str(), e.message().as_str()),
                ),
                Ok(meta) => RestoreStep::Done(self.start_download(id, meta)),
            },
        }
    }

    /// What is to be recorded from time to time: the torrents that are loaded.
    /// There is nothing to record where there are none.
    pub fn flush_progress(&self) -> (r: Option<Vec<(u32, String)>>)
        requires
            self.wf(),
        ensures
            match r {
                Some(entries) => entry_views(entries@) == loaded_entries_of(self@) && entries@.len() > 0,
                None => loaded_entries_of(self@).len() == 0,
            },
    {
        let ghost kept = self@.saved.restrict(self@.torrents.dom());
        let ids = self.saved_paths.ids();
        let mut entries: Vec<(u32, String)> = Vec::new();
        let ghost mut found: Seq<u32> = seq![];
        let mut i: usize = 0;
        while i < ids.len()
            invariant
                self.wf(),
                i <= ids@.len(),
                are_keys(ids@, self.saved_paths@),
                kept == self@.saved.restrict(self@.torrents.dom()),
                found.len() == entries@.len(),
                forall|k: int|
                    0 <= k < found.len() ==> (#[trigger] entries@[k]).0 == found[k] && entries@[k].1@ == kept[found[k]],
                forall|k: int| 0 <= k < found.len() ==> kept.contains_key(#[trigger] found[k]),
                forall|k: int| 0 <= k < found.len() ==> i > 0 && #[trigger] found[k] <= ids@[i - 1],
                forall|a: int, b: int| 0 <= a < b < found.len() ==> #[trigger] found[a] < #[trigger] found[b],
                forall|k: int| 0 <= k < i && kept.contains_key(#[trigger] ids@[k]) ==> found.contains(ids@[k]),
            decreases ids@.len() - i,
        {
            let id: u32 = ids[i];
            assert(self.saved_paths@.contains_key(ids@[i as int]));
            let ghost before = found;
            assert(i > 0 ==> ids@[i - 1] < ids@[i as int]);
            if self.torrents.get(id).is_some() {
                if let Some(path) = self.saved_paths.get(id) {
                    entries.push((id, path.clone()));
                    proof {
                        found = found.push(id);
                        assert(found[before.len() as int] == id);
                        assert forall|k: int| 0 <= k < i + 1 && kept.contains_key(#[trigger] ids@[k]) implies found.contains(
                            ids@[k],
                        ) by {
                            if k < i {
                                assert(before.contains(ids@[k]));
                                let j = choose|j: int| 0 <= j < before.len() && before[j] == ids@[k];
                                assert(found[j] == ids@[k]);
                            }
                        }
                    }
                }
            } else {
                assert(!kept.contains_key(id));
            }
            i += 1;
        }
        proof {
            assert forall|k: u32| #[trigger] kept.contains_key(k) implies found.contains(k) by {
                assert(self.saved_paths@.contains_key(k));
                let j = choose|j: int| 0 <= j < ids@.len() && ids@[j] == k;
                assert(kept.contains_key(ids@[j]));
            }
            lemma_keys_of(found, kept);
        }
        assert(entry_views(entries@) =~= saved_entries(kept));
        if entries.len() == 0 {
            None
        } else {
            Some(entries)
        }
    }
}

/// Whether an error of a connection only says that the client has gone.
pub open spec fn means_disconnected(message: Seq<char>, windows: bool) -> bool {
    ||| holds(message, "early eof"@)
    ||| holds(message, "connection reset"@)
    ||| holds(message, "Broken pipe"@)
    ||| windows && holds(message, "pipe"@)
}

/// Whether an error of a connection only says that the client has gone.
pub fn is_disconnect(message: &str, windows: bool) -> (r: bool)
    ensures
        r == means_disconnected(message@, windows),
{
    text_holds(message, "early eof") || text_holds(message, "connection reset") || text_holds(message, "Broken pipe")
        || (windows && text_holds(message, "pipe"))
}

/// Whether an error in reading a request ends a connection without further ado.
pub open spec fn means_end_of_requests(message: Seq<char>) -> bool {
    ||| holds(message, "early eof"@)
    ||| holds(message, "connection reset"@)
    ||| holds(message, "Broken pipe"@)
    ||| holds(message, "Failed to read request packet"@)
    ||| holds(message, "os error 109"@)
    ||| holds(message, "os error 232"@)
}

/// Whether an error in reading a request ends a connection without further ado.
pub fn is_end_of_requests(message: &str) -> (r: bool)
    ensures
        r == means_end_of_requests(message@),
{
    text_holds(message, "early eof") || text_holds(message, "connection reset") || text_holds(message, "Broken pipe")
        || text_holds(message, "Failed to read request packet") || text_holds(message, "os error 109") || text_holds(
        message,
        "os error 232",
    )
}

} // verus!
