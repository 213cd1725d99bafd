//! What each request comes to, and what is left to do then.
use vstd::prelude::*;
use vstd::string::*;
use vstd::utf8::encode_utf8;
use crate::bencode::parse_value;
use crate::ids::{hex_text, TorrentId};
use crate::magnet::{magnet_of, MagnetView};
use crate::meta::{meta_failure_text, meta_of, InfoView, MetaView};
use crate::rpc::Request;
use crate::server::{means_disconnected, means_end_of_requests};
use crate::server_model::{
    after_cache, after_data, after_file, after_making, answered, client_peer_id, downloaded_files, first_with,
    is_bare_hash, largest_id, loaded_entries_of, making, may_add, may_restore, restore_after_cache,
    restore_after_file, restore_orders, restore_start, restored, saved_entries, what_to_add, with_entries, BuildInfo,
    EffectView, HandleView, OutcomeView, PendingTorrentView, ResponseView, RestoreView, ServerView, StatusView,
};
use crate::state::StateView;
use crate::storage::{file_lengths, files_to_make, mode_size};
use crate::string_laws::what_a_text_holds;
use crate::strings::{begins, begins_in_any_case, holds, trimmed, without_slashes};
use crate::table::{are_keys, keys_of, keys_of_lists_the_keys};
use crate::text::decimal_text;

verus! {

/// Whether a request was answered at once with nothing left to do.
pub open spec fn is_answer(outcome: OutcomeView, response: ResponseView) -> bool {
    outcome matches OutcomeView::Done { response: r, effects } && r == response && effects.len() == 0
}

/// Whether `v` shows what is known of a torrent; uploads and rates are not shown.
pub open spec fn shows(v: StatusView, t: StateView) -> bool {
    &&& v.id == t.id
    &&& v.name == t.name
    &&& v.info_hash == t.info_hash
    &&& v.size == t.size
    &&& v.downloaded == t.downloaded
    &&& v.uploaded == 0
    &&& v.status == t.status
    &&& v.download_rate == 0
    &&& v.upload_rate == 0
    &&& v.peers_connected == t.peers_connected
}

/// Whether `id` is the smallest number of a torrent.
pub open spec fn is_smallest(s: ServerView, id: u32) -> bool {
    s.torrents.contains_key(id) && forall|other: u32| #[trigger] s.torrents.contains_key(other) ==> id <= other
}

/// A torrent that is asked for is shown as it is.
pub proof fn what_is_shown_of_a_torrent(s: ServerView, id: u32, build: BuildInfo)
    requires
        s.torrents.contains_key(id),
    ensures
        answered(s, Request::Status { id: Some(TorrentId(id)) }, build).1 matches OutcomeView::Done {
            response: ResponseView::TorrentStatus(v),
            effects,
        } && shows(v, s.torrents[id].state) && effects.len() == 0,
        answered(s, Request::Info { id: TorrentId(id) }, build).1 matches OutcomeView::Done {
            response: ResponseView::Info { name, info_hash, size, status },
            effects,
        } && name == s.torrents[id].state.name && info_hash == s.torrents[id].state.info_hash && size
            == s.torrents[id].state.size && status == s.torrents[id].state.status && effects.len() == 0,
{
}

/// A torrent that is not there is named in the answer to whatever is asked of it.
pub proof fn what_is_said_of_a_torrent_that_is_not_there(s: ServerView, id: u32, delete_data: bool, build: BuildInfo)
    requires
        !s.torrents.contains_key(id),
    ensures
        ({
            let answer = ResponseView::Error("Torrent ID "@ + decimal_text(id as nat) + " not found"@);
            &&& is_answer(answered(s, Request::Status { id: Some(TorrentId(id)) }, build).1, answer)
            &&& is_answer(answered(s, Request::Remove { id: TorrentId(id), delete_data }, build).1, answer)
            &&& is_answer(answered(s, Request::Pause { id: TorrentId(id) }, build).1, answer)
            &&& is_answer(answered(s, Request::Resume { id: TorrentId(id) }, build).1, answer)
            &&& is_answer(answered(s, Request::Verify { id: TorrentId(id) }, build).1, answer)
            &&& is_answer(answered(s, Request::Info { id: TorrentId(id) }, build).1, answer)
        }),
{
}

/// Where no torrent is named, the one with the smallest number is shown, if there is
/// any.
pub proof fn the_first_torrent_is_shown(s: ServerView, id: u32, build: BuildInfo)
    ensures
        is_smallest(s, id) ==> answered(s, Request::Status { id: None }, build) == answered(
            s,
            Request::Status { id: Some(TorrentId(id)) },
            build,
        ),
        (forall|other: u32| !#[trigger] s.torrents.contains_key(other)) ==> is_answer(
            answered(s, Request::Status { id: None }, build).1,
            ResponseView::Error("No torrents loaded"@),
        ),
{
    keys_of_lists_the_keys(s.torrents);
    let keys = keys_of(s.torrents);
    if is_smallest(s, id) {
        assert(keys.contains(id));
        let i = choose|i: int| 0 <= i < keys.len() && keys[i] == id;
        assert(s.torrents.contains_key(keys[0]));
        assert(keys[0] <= keys[i]);
    } else if forall|other: u32| !#[trigger] s.torrents.contains_key(other) {
        if keys.len() > 0 {
            assert(s.torrents.contains_key(keys[0]));
        }
    }
}

/// A list shows every torrent as it is when it is asked for alone, in the order of the
/// numbers.
pub proof fn a_list_shows_each_torrent_as_it_is(s: ServerView, build: BuildInfo)
    ensures
        answered(s, Request::List, build).1 matches OutcomeView::Done {
            response: ResponseView::TorrentList(list),
            effects,
        } && effects.len() == 0 && exists|ids: Seq<u32>|
            #[trigger] are_keys(ids, s.torrents) && ids.len() == list.len() && forall|i: int|
                0 <= i < ids.len() ==> shows(#[trigger] list[i], s.torrents[ids[i]].state),
{
    keys_of_lists_the_keys(s.torrents);
    assert(are_keys(keys_of(s.torrents), s.torrents));
}

/// The number of torrents is told, and no rate or amount.
pub proof fn what_the_statistics_say(s: ServerView, build: BuildInfo)
    requires
        s.torrents.len() <= usize::MAX,
    ensures
        answered(s, Request::Stats, build).1 matches OutcomeView::Done { response: ResponseView::Stats(stats), effects }
            && stats.num_torrents == s.torrents.len() && stats.download_rate == 0 && stats.upload_rate == 0
            && stats.total_downloaded == 0 && stats.total_uploaded == 0 && effects.len() == 0,
{
}

/// The version is told with the commit and its date, and the settings with where
/// downloads go and the port.
pub proof fn what_the_daemon_says_of_itself(s: ServerView, build: BuildInfo)
    ensures
        is_answer(
            answered(s, Request::Version, build).1,
            ResponseView::Version(
                build.version@ + " (Git: "@ + build.git_hash@ + " | Date: "@ + build.git_date@ + ")"@,
            ),
        ),
        is_answer(
            answered(s, Request::GetConfig, build).1,
            ResponseView::Config(
                "download_dir"@ + " = \""@ + s.config.download_dir + "\"\n"@ + ("listen_port"@ + " = "@ + decimal_text(
                    6881,
                ) + "\n"@),
            ),
        ),
{
}

/// Whether nothing but one torrent differs, and of that nothing but its status and
/// whether it is running.
pub open spec fn only_the_status_differs(s: ServerView, after: ServerView, id: u32) -> bool {
    &&& after.config == s.config
    &&& after.saved == s.saved
    &&& after.next_id == s.next_id
    &&& forall|other: u32| #[trigger] after.torrents.contains_key(other) <==> s.torrents.contains_key(other)
    &&& forall|other: u32| #[trigger]
        s.torrents.contains_key(other) && other != id ==> after.torrents[other] == s.torrents[other]
    &&& after.torrents[id].files == s.torrents[id].files
    &&& after.torrents[id].state == (StateView {
        status: after.torrents[id].state.status,
        ..s.torrents[id].state
    })
}

/// A pause stops the worker of a torrent, if there is one, and notes that the torrent
/// is paused.
pub proof fn what_a_pause_does(s: ServerView, id: u32, build: BuildInfo)
    requires
        s.torrents.contains_key(id),
    ensures
        ({
            let (after, outcome) = answered(s, Request::Pause { id: TorrentId(id) }, build);
            &&& only_the_status_differs(s, after, id)
            &&& after.torrents[id].state.status == "Paused"@
            &&& !after.torrents[id].running
            &&& outcome matches OutcomeView::Done { response, effects } && response is Success && effects
                == if s.torrents[id].running {
                seq![EffectView::AbortWorker { id }]
            } else {
                seq![]
            }
        }),
{
}

/// A torrent that is resumed or verified is to be loaded again from where it was added
/// from, and is being checked meanwhile; its worker is stopped before. One of which it
/// is not recorded where it was added from cannot be.
pub proof fn what_loading_again_does(s: ServerView, id: u32, build: BuildInfo)
    requires
        s.torrents.contains_key(id),
    ensures
        ({
            let (after, outcome) = answered(s, Request::Verify { id: TorrentId(id) }, build);
            let stop = if s.torrents[id].running {
                seq![EffectView::AbortWorker { id }]
            } else {
                seq![]
            };
            &&& only_the_status_differs(s, after, id)
            &&& after.torrents[id].state.status == "Checking"@
            &&& !after.torrents[id].running
            &&& s.saved.contains_key(id) ==> (outcome matches OutcomeView::Done { response, effects }
                && response is Success && effects == stop + seq![
                EffectView::RestoreTorrent { id, path: s.saved[id] },
            ])
            &&& !s.saved.contains_key(id) ==> (outcome matches OutcomeView::Done { response, effects } && response
                == ResponseView::Error("Torrent data path not found"@) && effects == stop)
        }),
        !s.torrents[id].running ==> answered(s, Request::Resume { id: TorrentId(id) }, build) == answered(
            s,
            Request::Verify { id: TorrentId(id) },
            build,
        ),
        s.torrents[id].running ==> {
            &&& answered(s, Request::Resume { id: TorrentId(id) }, build).0 == s
            &&& is_answer(
                answered(s, Request::Resume { id: TorrentId(id) }, build).1,
                ResponseView::Error("Torrent ID "@ + decimal_text(id as nat) + " is already running"@),
            )
        },
{
    let before = if s.torrents[id].running {
        seq![EffectView::AbortWorker { id }]
    } else {
        seq![]
    };
    let load = EffectView::RestoreTorrent { id, path: s.saved[id] };
    assert(before.push(load) =~= before + seq![load]);
}

/// Whether `entries` are what is recorded of the torrents: each once, in the order of
/// the numbers, with what it was added from.
pub open spec fn are_the_recorded(entries: Seq<(u32, Seq<char>)>, saved: Map<u32, Seq<char>>) -> bool {
    &&& forall|i: int, j: int| 0 <= i < j < entries.len() ==> (#[trigger] entries[i]).0 < (#[trigger] entries[j]).0
    &&& forall|i: int|
        0 <= i < entries.len() ==> saved.contains_key((#[trigger] entries[i]).0) && saved[entries[i].0] == entries[i].1
    &&& forall|id: u32| #[trigger] saved.contains_key(id) ==> entries.contains((id, saved[id]))
}

/// What is recorded are all torrents with what they were added from.
pub proof fn everything_is_recorded(saved: Map<u32, Seq<char>>)
    ensures
        are_the_recorded(saved_entries(saved), saved),
{
    keys_of_lists_the_keys(saved);
    let keys = keys_of(saved);
    let entries = saved_entries(saved);
    assert forall|id: u32| #[trigger] saved.contains_key(id) implies entries.contains((id, saved[id])) by {
        let i = choose|i: int| 0 <= i < keys.len() && keys[i] == id;
        assert(keys.contains(id));
        assert(entries[i] == (id, saved[id]));
    }
}

/// Whether an effect is the order to record what is known.
pub open spec fn records(e: EffectView, saved: Map<u32, Seq<char>>) -> bool {
    e matches EffectView::SaveState { entries } && are_the_recorded(entries, saved)
}

/// A removal stops the worker, if there is one, records what is left, and deletes the
/// files, if that is asked for, in this order and nothing else.
pub proof fn what_a_removal_leaves_to_do(s: ServerView, id: u32, delete_data: bool, build: BuildInfo)
    requires
        s.torrents.contains_key(id),
    ensures
        ({
            let (after, outcome) = answered(s, Request::Remove { id: TorrentId(id), delete_data }, build);
            let first = if s.torrents[id].running {
                1int
            } else {
                0
            };
            &&& after == (ServerView { torrents: s.torrents.remove(id), saved: s.saved.remove(id), ..s })
            &&& outcome matches OutcomeView::Done { response, effects } && {
                &&& response is TorrentRemoved
                &&& effects.len() == first + 1 + if delete_data {
                    1int
                } else {
                    0
                }
                &&& s.torrents[id].running ==> effects[0] == (EffectView::AbortWorker { id })
                &&& records(effects[first], s.saved.remove(id))
                &&& delete_data ==> effects.last() == (EffectView::DeleteData {
                    id,
                    download_dir: s.config.download_dir,
                    files: s.torrents[id].files,
                })
            }
        }),
{
    everything_is_recorded(s.saved.remove(id));
}

/// The first torrent with a hash is the one with the smallest number among those that
/// have it; there is none exactly where no torrent has it.
pub proof fn which_torrent_has_a_hash(s: ServerView, hash: Seq<char>)
    ensures
        match first_with(s.torrents, hash) {
            Some(id) => s.torrents.contains_key(id) && s.torrents[id].state.info_hash == hash && forall|other: u32|
                #[trigger] s.torrents.contains_key(other) && s.torrents[other].state.info_hash == hash ==> id <= other,
            None => forall|other: u32| #[trigger]
                s.torrents.contains_key(other) ==> s.torrents[other].state.info_hash != hash,
        },
{
    if first_with(s.torrents, hash) is None {
        assert forall|other: u32| #[trigger]
            s.torrents.contains_key(other) implies s.torrents[other].state.info_hash != hash by {
            if s.torrents[other].state.info_hash == hash {
                lemma_there_is_a_first(s, hash, other);
            }
        }
    }
}

proof fn lemma_there_is_a_first(s: ServerView, hash: Seq<char>, id: u32)
    requires
        s.torrents.contains_key(id),
        s.torrents[id].state.info_hash == hash,
    ensures
        first_with(s.torrents, hash) is Some,
    decreases id,
{
    if !crate::server_model::is_first_with(s.torrents, hash, id) {
        let other = choose|other: u32| #[trigger]
            s.torrents.contains_key(other) && s.torrents[other].state.info_hash == hash && other < id;
        lemma_there_is_a_first(s, hash, other);
    }
}

/// What is to be added: the text without the white space around it, unless that is
/// forty digits.
pub proof fn what_is_added(s: ServerView, text: Seq<char>)
    ensures
        trimmed(text).len() != 40 ==> what_to_add(s.config, text) == trimmed(text),
        (exists|i: int|
            0 <= i < trimmed(text).len() && {
                let c = #[trigger] trimmed(text)[i];
                !('0' <= c <= '9') && !('a' <= c <= 'f') && !('A' <= c <= 'F')
            }) ==> what_to_add(s.config, text) == trimmed(text),
{
    let t = trimmed(text);
    if is_bare_hash(t) {
        assert forall|i: int| 0 <= i < t.len() implies {
            let c = #[trigger] t[i];
            '0' <= c <= '9' || 'a' <= c <= 'f' || 'A' <= c <= 'F'
        } by {
            assert(crate::server_model::is_hex_digit(t[i]));
        }
    }
}

/// A file is read before it is added, and nothing changes until then. A magnet link is
/// looked up among the metainfo that is kept, if it can be read and no torrent has its
/// hash.
pub proof fn how_adding_starts(s: ServerView, text: String, build: BuildInfo)
    ensures
        ({
            let link = what_to_add(s.config, text@);
            let (after, outcome) = answered(s, Request::Add { path_or_magnet: text }, build);
            &&& after == s
            &&& !begins_in_any_case(link, "magnet:?"@) ==> (outcome matches OutcomeView::ReadFile { path, effects } && path
                == link && effects.len() == 0)
            &&& begins_in_any_case(link, "magnet:?"@) ==> match magnet_of(encode_utf8(link)) {
                Err(e) => is_answer(outcome, ResponseView::Error("Invalid magnet link: "@ + e.text())),
                Ok(magnet) => match first_with(s.torrents, hex_text(magnet.info_hash)) {
                    Some(id) => is_answer(
                        outcome,
                        ResponseView::Error(
                            "Torrent '"@ + s.torrents[id].state.name + "' is already added (ID "@ + decimal_text(
                                s.torrents[id].state.id as nat,
                            ) + ")"@,
                        ),
                    ),
                    None => outcome matches OutcomeView::CheckCache { link: kept, magnet: read, cache_path } && kept == link
                        && read == magnet && cache_path == s.config.metadata_dir + "/"@ + hex_text(magnet.info_hash)
                        + ".torrent"@,
                },
            }
        }),
{
}

/// Whether a torrent is noted of which nothing has been transferred and whose worker
/// is running.
pub open spec fn is_new(
    t: HandleView,
    id: u32,
    name: Seq<char>,
    hash: Seq<char>,
    size: int,
    status: Seq<char>,
) -> bool {
    &&& t.state.id == id
    &&& t.state.name == name
    &&& t.state.info_hash == hash
    &&& t.state.size == size
    &&& t.state.downloaded == 0
    &&& t.state.uploaded == 0
    &&& t.state.status == status
    &&& t.state.peers_connected == 0
    &&& t.running
}

/// Whether one torrent was added to those that were there.
pub open spec fn only_one_is_added(before: Map<u32, HandleView>, after: Map<u32, HandleView>, id: u32) -> bool {
    &&& after.contains_key(id)
    &&& forall|other: u32| other != id ==> (#[trigger] after.contains_key(other) <==> before.contains_key(other))
    &&& forall|other: u32| other != id && #[trigger] before.contains_key(other) ==> after[other] == before[other]
}

/// A magnet link gets the next number and is recorded under it. Where its metainfo is
/// at hand, that is read next; otherwise it is noted with its name, or its hash where
/// it has none, and its worker is started.
pub proof fn how_a_magnet_link_is_added(
    s: ServerView,
    link: Seq<char>,
    magnet: MagnetView,
    cache_path: Seq<char>,
    at_hand: bool,
)
    ensures
        ({
            let (after, outcome) = after_cache(s, link, magnet, cache_path, at_hand);
            let hash = hex_text(magnet.info_hash);
            let id = s.next_id;
            &&& after.config == s.config
            &&& after.saved == s.saved.insert(id, link)
            &&& id < u32::MAX ==> after.next_id == id + 1
            &&& id == u32::MAX ==> after.next_id == 0
            &&& at_hand ==> after.torrents == s.torrents && (outcome matches OutcomeView::ReadFile { path, effects }
                && path == cache_path && effects.len() == 1 && records(effects[0], s.saved.insert(id, link)))
            &&& !at_hand ==> {
                &&& only_one_is_added(s.torrents, after.torrents, id)
                &&& is_new(
                    after.torrents[id],
                    id,
                    match magnet.name {
                        Some(name) => name,
                        None => hash,
                    },
                    hash,
                    0,
                    "Fetching Metadata"@,
                )
                &&& after.torrents[id].files.len() == 0
                &&& outcome matches OutcomeView::Done { response, effects } && response == (ResponseView::TorrentAdded {
                    id,
                }) && effects.len() == 2 && records(effects[0], s.saved.insert(id, link)) && effects[1] == (
                EffectView::StartMagnetWorker {
                    id,
                    magnet,
                    download_dir: s.config.download_dir,
                    metadata_dir: s.config.metadata_dir,
                })
            }
        }),
{
    everything_is_recorded(s.saved.insert(s.next_id, link));
}

/// Whether an effect starts the download of a torrent from nothing.
pub open spec fn starts(e: EffectView, s: ServerView, id: u32, meta: MetaView) -> bool {
    e matches EffectView::StartDownloader { id: number, meta: m, download_dir, peer_id, missing, have } && {
        &&& number == id
        &&& m == meta
        &&& download_dir == s.config.download_dir
        &&& peer_id == "-AG0001-".spec_bytes() + seq![0u8, 0, 0, 0, 0, 0, 0, 0, 0, 0, 0, 0]
        &&& missing.len() == 0
        &&& have.len() == meta.info.pieces.len()
        &&& forall|i: int| 0 <= i < have.len() ==> !#[trigger] have[i]
    }
}

/// The client goes by twenty bytes: its mark and twelve zeros.
pub proof fn the_name_of_the_client()
    ensures
        client_peer_id() == "-AG0001-".spec_bytes() + seq![0u8, 0, 0, 0, 0, 0, 0, 0, 0, 0, 0, 0],
        client_peer_id().len() == 20,
{
    reveal_strlit("-AG0001-");
    is_ascii_spec_bytes("-AG0001-");
    assert(Seq::new(12, |i: int| 0u8) =~= seq![0u8, 0, 0, 0, 0, 0, 0, 0, 0, 0, 0, 0]);
}

/// A file that could be read and understood is added where no torrent has its hash: it
/// gets the next number and is recorded under it, it is noted with what its metainfo
/// says, and its download is started.
pub proof fn how_a_file_is_added(s: ServerView, path: Seq<char>, bytes: Seq<u8>)
    requires
        meta_of(bytes) is Ok,
        mode_size(meta_of(bytes)->Ok_0.info.mode) <= u64::MAX,
        0 <= mode_size(meta_of(bytes)->Ok_0.info.mode),
        first_with(s.torrents, hex_text(meta_of(bytes)->Ok_0.info_hash)) is None,
    ensures
        ({
            let meta = meta_of(bytes)->Ok_0;
            let (after, outcome) = after_file(s, path, Ok(bytes));
            let kept = begins(path, s.config.metadata_dir + "/"@);
            let id = if kept {
                (s.next_id - 1) as u32
            } else {
                s.next_id
            };
            &&& after.config == s.config
            &&& only_one_is_added(s.torrents, after.torrents, id)
            &&& is_new(
                after.torrents[id],
                id,
                meta.info.name,
                hex_text(meta.info_hash),
                mode_size(meta.info.mode),
                "Checking"@,
            )
            &&& after.torrents[id].files == downloaded_files(meta.info)
            &&& outcome matches OutcomeView::Done { response, effects } && {
                &&& response == (ResponseView::TorrentAdded { id })
                &&& kept ==> effects.len() == 1 && after.saved == s.saved && after.next_id == s.next_id
                &&& !kept ==> effects.len() == 2 && records(effects[0], s.saved.insert(id, path)) && after.saved
                    == s.saved.insert(id, path) && after.next_id == (id + 1) % 0x1_0000_0000
                &&& starts(effects.last(), s, id, meta)
            }
        }),
{
    everything_is_recorded(s.saved.insert(s.next_id, path));
    the_name_of_the_client();
}

/// A file that could not be read or understood is not added: nothing changes, and the
/// answer says why.
pub proof fn why_a_file_is_not_added(s: ServerView, path: Seq<char>, fault: Seq<char>, bytes: Seq<u8>)
    ensures
        after_file(s, path, Err(fault)).0 == s,
        is_answer(
            after_file(s, path, Err(fault)).1,
            ResponseView::Error("Failed to read torrent file: "@ + fault),
        ),
        meta_of(bytes) matches Err(e) ==> after_file(s, path, Ok(bytes)).0 == s && is_answer(
            after_file(s, path, Ok(bytes)).1,
            ResponseView::Error("Failed to parse torrent metainfo: "@ + meta_failure_text(e)),
        ),
{
}

/// A `.torrent` file is made for what is at the path, beside it, with the trackers that
/// are named. What could not be found or written is told.
pub proof fn how_a_torrent_is_made(
    path: Seq<char>,
    trackers: Option<Vec<String>>,
    add: bool,
    pending: PendingTorrentView,
    fault: String,
)
    ensures
        making(path, trackers, add) matches OutcomeView::MakeTorrent(p) && {
            &&& p.path == path
            &&& p.output == without_slashes(path) + ".torrent"@
            &&& p.add == add
            &&& trackers is None ==> p.trackers.len() == 0
            &&& trackers matches Some(list) ==> p.trackers.len() == list@.len() && forall|i: int|
                0 <= i < list@.len() ==> #[trigger] p.trackers[i] == list@[i]@
        },
        is_answer(after_data(pending, Err(fault)), ResponseView::Error(fault@)),
        is_answer(after_making(pending, Err(fault)), ResponseView::Error(fault@)),
        !pending.add ==> is_answer(after_making(pending, Ok(())), ResponseView::Success),
        pending.add ==> (after_making(pending, Ok(())) matches OutcomeView::ReadFile { path: written, effects } && written
            == pending.output && effects.len() == 0),
{
}

/// The largest number among entries is one of theirs, and none is above it.
pub proof fn which_number_is_the_largest(entries: Seq<(u32, Seq<char>)>)
    ensures
        entries.len() == 0 ==> largest_id(entries) == 0,
        entries.len() > 0 ==> exists|i: int| 0 <= i < entries.len() && (#[trigger] entries[i]).0 == largest_id(entries),
        forall|i: int| 0 <= i < entries.len() ==> (#[trigger] entries[i]).0 <= largest_id(entries),
    decreases entries.len(),
{
    crate::server_model::lemma_largest(entries);
    if entries.len() > 0 {
        let last = entries.len() - 1;
        let fewer = entries.drop_last();
        which_number_is_the_largest(fewer);
        if largest_id(entries) == entries[last].0 {
            assert(entries[last].0 == largest_id(entries));
        } else {
            if fewer.len() == 0 {
                assert(entries[last].0 > 0 || largest_id(entries) == 0);
                assert(entries[last].0 == largest_id(entries));
            } else {
                let i = choose|i: int| 0 <= i < fewer.len() && (#[trigger] fewer[i]).0 == largest_id(fewer);
                assert(entries[i].0 == largest_id(entries));
            }
        }
    }
}

proof fn lemma_with_entries(saved: Map<u32, Seq<char>>, entries: Seq<(u32, Seq<char>)>, id: u32)
    ensures
        (forall|i: int| 0 <= i < entries.len() ==> (#[trigger] entries[i]).0 != id) ==> with_entries(saved, entries).contains_key(id)
            == saved.contains_key(id) && with_entries(saved, entries)[id] == saved[id],
        forall|i: int|
            0 <= i < entries.len() && (#[trigger] entries[i]).0 == id && (forall|j: int|
                i < j < entries.len() ==> (#[trigger] entries[j]).0 != id) ==> with_entries(saved, entries).contains_key(id)
                && with_entries(saved, entries)[id] == entries[i].1,
    decreases entries.len(),
{
    if entries.len() > 0 {
        let fewer = entries.drop_last();
        let last = entries.len() - 1;
        lemma_with_entries(saved, fewer, id);
        if forall|i: int| 0 <= i < entries.len() ==> (#[trigger] entries[i]).0 != id {
            assert forall|i: int| 0 <= i < fewer.len() implies (#[trigger] fewer[i]).0 != id by {
                assert(entries[i].0 != id);
            }
            assert(entries[last].0 != id);
        }
        assert forall|i: int|
            0 <= i < entries.len() && (#[trigger] entries[i]).0 == id && (forall|j: int|
                i < j < entries.len() ==> (#[trigger] entries[j]).0 != id) implies with_entries(saved, entries).contains_key(id)
            && with_entries(saved, entries)[id] == entries[i].1 by {
            if i < last {
                assert(fewer[i].0 == id);
                assert forall|j: int| i < j < fewer.len() implies (#[trigger] fewer[j]).0 != id by {
                    assert(entries[j].0 != id);
                }
                assert(entries[last].0 != id);
            }
        }
    }
}

/// Entries that are taken over are recorded, the last one where a number comes more
/// than once; what was recorded before under other numbers stays. The next number is
/// behind all of theirs, and is not set back. Nothing is loaded by that: for each
/// entry there is an order to load it.
pub proof fn how_entries_are_taken_over(s: ServerView, entries: Seq<(u32, Seq<char>)>, id: u32)
    requires
        largest_id(entries) < u32::MAX,
    ensures
        ({
            let after = restored(s, entries);
            &&& after.config == s.config
            &&& after.torrents == s.torrents
            &&& (forall|i: int| 0 <= i < entries.len() ==> (#[trigger] entries[i]).0 != id) ==> after.saved.contains_key(id)
                == s.saved.contains_key(id) && (s.saved.contains_key(id) ==> after.saved[id] == s.saved[id])
            &&& forall|i: int|
                0 <= i < entries.len() && (#[trigger] entries[i]).0 == id && (forall|j: int|
                    i < j < entries.len() ==> (#[trigger] entries[j]).0 != id) ==> after.saved.contains_key(id)
                    && after.saved[id] == entries[i].1
            &&& after.next_id >= s.next_id
            &&& forall|i: int| 0 <= i < entries.len() ==> (#[trigger] entries[i]).0 < after.next_id
            &&& after.next_id == s.next_id || exists|i: int|
                0 <= i < entries.len() && (#[trigger] entries[i]).0 + 1 == after.next_id
        }),
        restore_orders(entries).len() == entries.len(),
        forall|i: int|
            0 <= i < entries.len() ==> #[trigger] restore_orders(entries)[i] == (EffectView::RestoreTorrent {
                id: entries[i].0,
                path: entries[i].1,
            }),
{
    lemma_with_entries(s.saved, entries, id);
    which_number_is_the_largest(entries);
}

/// How a torrent is loaded: a magnet link is looked up among the metainfo that is kept,
/// and anything else is a file that is read.
pub proof fn how_loading_starts(s: ServerView, path: Seq<char>)
    ensures
        !begins(path, "magnet:?"@) ==> (restore_start(s, path) matches RestoreView::ReadFile { path: file } && file == path),
        begins(path, "magnet:?"@) ==> match magnet_of(encode_utf8(path)) {
            Err(e) => restore_start(s, path) matches RestoreView::Failed(text) && text
                == "Restore: failed to parse magnet link: "@ + e.text(),
            Ok(magnet) => restore_start(s, path) matches RestoreView::CheckCache { link, magnet: read, cache_path } && link
                == path && read == magnet && cache_path == s.config.metadata_dir + "/"@ + hex_text(magnet.info_hash)
                + ".torrent"@,
        },
{
}

/// How a torrent that was recorded is loaded under its number: as it would be added,
/// but for the number and the record, which stay as they are.
pub proof fn how_loading_ends(
    s: ServerView,
    id: u32,
    magnet: MagnetView,
    cache_path: Seq<char>,
    path: Seq<char>,
    fault: Seq<char>,
    bytes: Seq<u8>,
)
    requires
        meta_of(bytes) matches Ok(meta) ==> 0 <= mode_size(meta.info.mode) <= u64::MAX,
    ensures
        restore_after_cache(s, id, magnet, cache_path, true).0 == s,
        restore_after_cache(s, id, magnet, cache_path, true).1 matches RestoreView::ReadFile { path: file } && file
            == cache_path,
        ({
            let (after, step) = restore_after_cache(s, id, magnet, cache_path, false);
            let hash = hex_text(magnet.info_hash);
            &&& after == (ServerView { torrents: after.torrents, ..s })
            &&& only_one_is_added(s.torrents, after.torrents, id)
            &&& is_new(
                after.torrents[id],
                id,
                match magnet.name {
                    Some(name) => name,
                    None => hash,
                },
                hash,
                0,
                "Fetching Metadata"@,
            )
            &&& after.torrents[id].files.len() == 0
            &&& step == RestoreView::Done(
                EffectView::StartMagnetWorker {
                    id,
                    magnet,
                    download_dir: s.config.download_dir,
                    metadata_dir: s.config.metadata_dir,
                },
            )
        }),
        restore_after_file(s, id, path, Err(fault)) == (
            s,
            RestoreView::Failed("Restore: failed to read "@ + path + ": "@ + fault),
        ),
        match meta_of(bytes) {
            Err(e) => restore_after_file(s, id, path, Ok(bytes)) == (
                s,
                RestoreView::Failed("Restore: failed to parse "@ + path + ": "@ + meta_failure_text(e)),
            ),
            Ok(meta) => {
                let (after, step) = restore_after_file(s, id, path, Ok(bytes));
                &&& after == (ServerView { torrents: after.torrents, ..s })
                &&& only_one_is_added(s.torrents, after.torrents, id)
                &&& is_new(
                    after.torrents[id],
                    id,
                    meta.info.name,
                    hex_text(meta.info_hash),
                    mode_size(meta.info.mode),
                    "Checking"@,
                )
                &&& after.torrents[id].files == downloaded_files(meta.info)
                &&& step matches RestoreView::Done(e) && starts(e, s, id, meta)
            },
        },
{
    the_name_of_the_client();
}

/// Forty hexadecimal digits, in either case, are added as the magnet link for that hash.
pub proof fn forty_digits_are_a_hash(s: ServerView, text: Seq<char>)
    requires
        trimmed(text).len() == 40,
        forall|i: int|
            0 <= i < 40 ==> {
                let c = #[trigger] trimmed(text)[i];
                '0' <= c <= '9' || 'a' <= c <= 'f' || 'A' <= c <= 'F'
            },
    ensures
        begins(what_to_add(s.config, text), "magnet:?xt=urn:btih:"@ + trimmed(text)),
        s.config.default_trackers.len() == 0 ==> what_to_add(s.config, text) == "magnet:?xt=urn:btih:"@ + trimmed(text),
{
    let t = trimmed(text);
    assert forall|i: int| 0 <= i < t.len() implies crate::server_model::is_hex_digit(#[trigger] t[i]) by {
        let c = trimmed(text)[i];
        assert('0' <= c <= '9' || 'a' <= c <= 'f' || 'A' <= c <= 'F');
    }
    let front = "magnet:?xt=urn:btih:"@ + t;
    assert(is_bare_hash(t));
    assert(what_to_add(s.config, text).subrange(0, front.len() as int) =~= front);
    if s.config.default_trackers.len() == 0 {
        assert(what_to_add(s.config, text) =~= front);
    }
}

/// The files that a torrent is downloaded to are those that are made, in the same
/// order.
pub proof fn downloads_go_to_the_files_that_are_made(info: InfoView, k: int)
    ensures
        ({
            let made = files_to_make(info, file_lengths(info.mode).len() as int);
            &&& downloaded_files(info).len() == made.len()
            &&& 0 <= k < made.len() ==> downloaded_files(info)[k] == made[k].path
        }),
{
}

/// What is recorded from time to time are the torrents that are loaded, in the order of
/// their numbers.
pub proof fn what_is_loaded_is_recorded_in_order(s: ServerView)
    ensures
        are_the_recorded(loaded_entries_of(s), s.saved.restrict(s.torrents.dom())),
{
    everything_is_recorded(s.saved.restrict(s.torrents.dom()));
}

/// Whatever comes of reading a file can be handled, but for values that run past what
/// can be addressed, torrents whose size is no 64-bit number, and a file that has got
/// its number already where none was given.
pub proof fn what_can_be_added(s: ServerView, path: Seq<char>, fault: Seq<char>, bytes: Seq<u8>)
    ensures
        may_add(s, path, Err(fault)),
        may_restore(Err(fault)),
        !(parse_value(bytes, 0) is Fault) && meta_of(bytes) is Err ==> may_add(s, path, Ok(bytes)) && may_restore(
            Ok(bytes),
        ),
        !(parse_value(bytes, 0) is Fault) ==> (meta_of(bytes) matches Ok(meta) ==> mode_size(meta.info.mode) <= u64::MAX
            ==> may_restore(Ok(bytes)) && (s.next_id > 0 ==> may_add(s, path, Ok(bytes))) && (!begins(
            path,
            s.config.metadata_dir + "/"@,
        ) ==> may_add(s, path, Ok(bytes)))),
{
}

/// Which errors only say that a client has gone, and which end a connection without
/// further ado: those in which one of these words stands.
pub proof fn which_errors_are_no_faults(before: Seq<char>, after: Seq<char>, windows: bool)
    ensures
        means_disconnected(before + "early eof"@ + after, windows),
        means_disconnected(before + "connection reset"@ + after, windows),
        means_disconnected(before + "Broken pipe"@ + after, windows),
        means_disconnected(before + "pipe"@ + after, true),
        means_end_of_requests(before + "early eof"@ + after),
        means_end_of_requests(before + "connection reset"@ + after),
        means_end_of_requests(before + "Broken pipe"@ + after),
        means_end_of_requests(before + "Failed to read request packet"@ + after),
        means_end_of_requests(before + "os error 109"@ + after),
        means_end_of_requests(before + "os error 232"@ + after),
{
    what_a_text_holds(before, before, "early eof"@, after);
    what_a_text_holds(before, before, "connection reset"@, after);
    what_a_text_holds(before, before, "Broken pipe"@, after);
    what_a_text_holds(before, before, "pipe"@, after);
    what_a_text_holds(before, before, "Failed to read request packet"@, after);
    what_a_text_holds(before, before, "os error 109"@, after);
    what_a_text_holds(before, before, "os error 232"@, after);
}

/// An error in which none of these words stands is a fault.
pub proof fn which_errors_are_faults(message: Seq<char>, windows: bool)
    requires
        !holds(message, "early eof"@),
        !holds(message, "connection reset"@),
        !holds(message, "Broken pipe"@),
    ensures
        !means_disconnected(message, false),
        !holds(message, "pipe"@) ==> !means_disconnected(message, windows),
        !holds(message, "Failed to read request packet"@) && !holds(message, "os error 109"@) && !holds(
            message,
            "os error 232"@,
        ) ==> !means_end_of_requests(message),
{
}

} // verus!
