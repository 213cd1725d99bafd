//! What holds of the daemon as a whole.
use vstd::prelude::*;
use vstd::string::*;
use vstd::utf8::{encode_utf8, is_ascii_chars, is_ascii_chars_encode_utf8};
use crate::bencode::encoding;
use crate::creator::created;
use crate::ids::{hex_text, TorrentId};
use crate::magnet::{hex_decoded, hex_value, link_for_hash, magnet_of, MagnetError, MagnetView};
use crate::magnet_laws::{link_for_hash_reads_back, plus_texts, without_spaces_nothing_changes};
use crate::meta::{meta_of, MetaView, ModeView};
use crate::metainfo::{coherent, meta_value, metainfo_reads_back};
use crate::rpc::Request;
use crate::server_model::{
    added, after_cache, after_data, after_file, after_making, answered, cache_path_of, downloaded_files, duplicate_text,
    failed, first_with, fresh_state, is_bare_hash, is_cached, is_first_with, is_hex_digit, largest_id, lemma_largest,
    loaded_entries_of, magnet_name, making, not_found_text, restore_after_cache, restore_after_file,
    restored, saved_entries, status_list, status_of, told, torrent_path, what_to_add, with_entries,
    with_magnet, with_next_id, with_status, with_torrent, BuildInfo, EffectView, FoundData, HandleView,
    OutcomeView, ResponseView, ServerView,
};
use crate::storage::{file_lengths, files_to_make, mode_size, path_on_disk};
use crate::storage_laws::every_file_with_a_path_is_made;
use crate::strings::{ascii_lower, begins_in_any_case, trimmed};
use crate::table::{keys_of, keys_of_lists_the_keys};
use crate::text::decimal_text;

verus! {

/// Every number that was given is smaller than the next one.
pub open spec fn is_numbered(s: ServerView) -> bool {
    &&& forall|id: u32| #[trigger] s.torrents.contains_key(id) ==> id < s.next_id
    &&& forall|id: u32| #[trigger] s.saved.contains_key(id) ==> id < s.next_id
}

/// Every torrent knows its number.
pub open spec fn knows_its_number(s: ServerView) -> bool {
    forall|id: u32| #[trigger] s.torrents.contains_key(id) ==> s.torrents[id].state.id == id
}

/// No two torrents have the same hash.
pub open spec fn has_no_twins(s: ServerView) -> bool {
    forall|a: u32, b: u32| #[trigger]
        s.torrents.contains_key(a) && #[trigger] s.torrents.contains_key(b) && a != b
            ==> s.torrents[a].state.info_hash != s.torrents[b].state.info_hash
}

/// A request that is answered at once keeps the numbers in order, makes no twins
/// and leaves the settings and the next number alone.
pub proof fn requests_keep_order(s: ServerView, request: Request, build: BuildInfo)
    requires
        is_numbered(s),
        knows_its_number(s),
        has_no_twins(s),
    ensures
        ({
            let after = answered(s, request, build).0;
            &&& is_numbered(after)
            &&& knows_its_number(after)
            &&& has_no_twins(after)
            &&& after.next_id == s.next_id
            &&& after.config == s.config
        }),
{
    let after = answered(s, request, build).0;
    assert forall|a: u32, b: u32| #[trigger]
        after.torrents.contains_key(a) && #[trigger] after.torrents.contains_key(b) && a != b
        implies after.torrents[a].state.info_hash != after.torrents[b].state.info_hash by {
        assert(s.torrents.contains_key(a) && s.torrents.contains_key(b));
    }
}

/// A torrent that is added gets a number that no torrent has or had since the
/// start, as long as there are numbers left. (A file that is named by its place
/// in the directory for metainfo is the exception: it takes the last number.)
pub proof fn added_torrents_get_new_numbers(
    s: ServerView,
    path: Seq<char>,
    contents: Result<Seq<u8>, Seq<char>>,
    magnet: MagnetView,
    cache_path: Seq<char>,
    exists_in_cache: bool,
)
    requires
        is_numbered(s),
        s.next_id < u32::MAX,
        !is_cached(s.config, path),
    ensures
        !s.torrents.contains_key(s.next_id),
        !s.saved.contains_key(s.next_id),
        is_numbered(after_cache(s, path, magnet, cache_path, exists_in_cache).0),
        after_cache(s, path, magnet, cache_path, exists_in_cache).0.saved.contains_key(s.next_id),
        is_numbered(after_file(s, path, contents).0),
        after_file(s, path, contents).1 matches OutcomeView::Done {
            response: ResponseView::TorrentAdded { id },
            ..
        } ==> {
            let after = after_file(s, path, contents).0;
            &&& id == s.next_id
            &&& after.torrents.contains_key(id)
            &&& after.saved == s.saved.insert(id, path)
            &&& forall|other: u32| #[trigger]
                s.torrents.contains_key(other) ==> after.torrents.contains_key(other) && after.torrents[other]
                    == s.torrents[other]
        },
{
}

/// Metainfo that is at hand is added under the number that its magnet link has
/// got.
pub proof fn cached_metainfo_gets_the_number_of_its_link(
    s: ServerView,
    link: Seq<char>,
    magnet: MagnetView,
    cache_path: Seq<char>,
    bytes: Seq<u8>,
)
    requires
        s.next_id < u32::MAX,
        is_cached(s.config, cache_path),
        meta_of(bytes) is Ok,
        first_with(s.torrents, hex_text(meta_of(bytes)->Ok_0.info_hash)) is None,
    ensures
        ({
            let numbered = after_cache(s, link, magnet, cache_path, true).0;
            let (after, outcome) = after_file(numbered, cache_path, Ok(bytes));
            &&& outcome matches OutcomeView::Done { response: ResponseView::TorrentAdded { id }, .. } && id
                == s.next_id
            &&& after.torrents.contains_key(s.next_id)
            &&& after.saved.contains_key(s.next_id) && after.saved[s.next_id] == link
        }),
{
}

/// Where the metainfo of a link is kept lies in the directory for metainfo.
pub proof fn cache_paths_are_cached(s: ServerView, hash: Seq<char>)
    ensures
        is_cached(s.config, cache_path_of(s.config, hash)),
{
    let dir = s.config.metadata_dir + "/"@;
    assert(cache_path_of(s.config, hash).subrange(0, dir.len() as int) =~= dir);
}

proof fn lemma_first_with(torrents: Map<u32, HandleView>, hash: Seq<char>, id: u32)
    requires
        torrents.contains_key(id),
        torrents[id].state.info_hash == hash,
    ensures
        first_with(torrents, hash) matches Some(first) && is_first_with(torrents, hash, first),
    decreases id,
{
    if exists|other: u32| #[trigger]
        torrents.contains_key(other) && torrents[other].state.info_hash == hash && other < id {
        let other = choose|other: u32| #[trigger]
            torrents.contains_key(other) && torrents[other].state.info_hash == hash && other < id;
        lemma_first_with(torrents, hash, other);
    } else {
        assert(is_first_with(torrents, hash, id));
    }
}

/// What is answered to the attempt to add a torrent with a hash that is known.
pub open spec fn refusal(s: ServerView, hash: Seq<char>) -> OutcomeView {
    let known = s.torrents[first_with(s.torrents, hash)->0].state;
    failed(duplicate_text(known.name, known.id))
}

/// A torrent that is known is not added again, neither as a magnet link nor as a
/// file: nothing changes, nothing is left to do, and the answer names the torrent
/// that is there, which is the only one with its hash where there are no twins.
pub proof fn a_known_torrent_is_refused(
    s: ServerView,
    id: u32,
    text: Seq<char>,
    path: Seq<char>,
    bytes: Seq<u8>,
)
    requires
        s.torrents.contains_key(id),
    ensures
        ({
            let hash = s.torrents[id].state.info_hash;
            let link = what_to_add(s.config, text);
            &&& first_with(s.torrents, hash) matches Some(first) && is_first_with(s.torrents, hash, first)
            &&& has_no_twins(s) ==> first_with(s.torrents, hash) == Some(id)
            &&& begins_in_any_case(link, "magnet:?"@) && (magnet_of(encode_utf8(link)) matches Ok(magnet) && hex_text(
                magnet.info_hash,
            ) == hash) ==> added(s, text) == refusal(s, hash)
            &&& (meta_of(bytes) matches Ok(meta) && hex_text(meta.info_hash) == hash) ==> after_file(
                s,
                path,
                Ok(bytes),
            ) == (s, refusal(s, hash))
        }),
{
    lemma_first_with(s.torrents, s.torrents[id].state.info_hash, id);
}

/// Adding makes no twins.
pub proof fn adding_makes_no_twins(
    s: ServerView,
    path: Seq<char>,
    contents: Result<Seq<u8>, Seq<char>>,
    magnet: MagnetView,
    cache_path: Seq<char>,
    exists_in_cache: bool,
)
    requires
        has_no_twins(s),
        first_with(s.torrents, hex_text(magnet.info_hash)) is None,
    ensures
        has_no_twins(after_file(s, path, contents).0),
        has_no_twins(after_cache(s, path, magnet, cache_path, exists_in_cache).0),
{
    lemma_nobody_has(s.torrents, hex_text(magnet.info_hash));
    if let Ok(bytes) = contents {
        if let Ok(meta) = meta_of(bytes) {
            let hash = hex_text(meta.info_hash);
            if first_with(s.torrents, hash) is None {
                lemma_nobody_has(s.torrents, hash);
            }
        }
    }
}

proof fn lemma_nobody_has(torrents: Map<u32, HandleView>, hash: Seq<char>)
    requires
        first_with(torrents, hash) is None,
    ensures
        forall|id: u32| #[trigger] torrents.contains_key(id) ==> torrents[id].state.info_hash != hash,
{
    assert forall|id: u32| #[trigger] torrents.contains_key(id) implies torrents[id].state.info_hash != hash by {
        if torrents[id].state.info_hash == hash {
            lemma_first_with(torrents, hash, id);
        }
    }
}

/// Whether an effect is an order to delete files.
pub open spec fn deletes(e: EffectView) -> bool {
    e is DeleteData
}

/// A torrent that was removed is not there any more, and is not recorded; all
/// others are as they were. Its files are to be deleted if and only if that was
/// asked for: once, after its worker was stopped, and no other files. The same
/// request again is answered with an error and changes nothing.
pub proof fn a_removed_torrent_is_gone(s: ServerView, id: u32, other: u32, delete_data: bool, build: BuildInfo)
    requires
        s.torrents.contains_key(id),
        other != id,
    ensures
        ({
            let request = Request::Remove { id: TorrentId(id), delete_data };
            let (after, outcome) = answered(s, request, build);
            &&& outcome is Done && outcome->Done_response == ResponseView::TorrentRemoved
            &&& !after.torrents.contains_key(id)
            &&& !after.saved.contains_key(id)
            &&& answered(after, request, build) == (after, failed(not_found_text(id)))
            &&& answered(after, Request::Status { id: Some(TorrentId(id)) }, build) == (
                after,
                failed(not_found_text(id)),
            )
            &&& after.torrents.contains_key(other) == s.torrents.contains_key(other)
            &&& s.torrents.contains_key(other) ==> after.torrents[other] == s.torrents[other]
            &&& after.saved.contains_key(other) == s.saved.contains_key(other)
            &&& s.saved.contains_key(other) ==> after.saved[other] == s.saved[other]
        }),
        ({
            let effects = answered(s, Request::Remove { id: TorrentId(id), delete_data }, build).1->Done_effects;
            &&& forall|i: int|
                0 <= i < effects.len() && deletes(#[trigger] effects[i]) ==> delete_data && i == effects.len() - 1
            &&& delete_data ==> effects.len() > 0 && effects.last() == (EffectView::DeleteData {
                id,
                download_dir: s.config.download_dir,
                files: s.torrents[id].files,
            })
            &&& s.torrents[id].running ==> effects.len() > 0 && effects[0] == (EffectView::AbortWorker { id })
        }),
{
}

/// The files of a torrent are those that are made for it: every file that has a
/// path, where it is read and written. They stay the same, whatever is noted of
/// the torrent, and a magnet link has none.
pub proof fn a_torrent_knows_its_files(
    s: ServerView,
    id: u32,
    meta: MetaView,
    magnet: MagnetView,
    i: int,
    running: bool,
    status: Seq<char>,
)
    requires
        0 <= i < file_lengths(meta.info.mode).len(),
        meta.info.mode matches ModeView::Multi { files } ==> files[i].path.len() > 0,
    ensures
        with_torrent(s, id, meta).torrents[id].files == downloaded_files(meta.info),
        downloaded_files(meta.info).contains(path_on_disk(meta.info, i)),
        with_status(s, id, running, status).torrents[id].files == s.torrents[id].files,
        with_magnet(s, id, magnet).torrents[id].files.len() == 0,
{
    every_file_with_a_path_is_made(meta.info, i);
    let made = files_to_make(meta.info, file_lengths(meta.info.mode).len() as int);
    let k = choose|k: int|
        0 <= k < made.len() && ({
            let f = #[trigger] made[k];
            f.path == path_on_disk(meta.info, i) && f.length == file_lengths(meta.info.mode)[i]
        });
    assert(downloaded_files(meta.info)[k] == made[k].path);
}

/// The request to make a `.torrent` file changes nothing, and nothing is told
/// until the data was found. What is to be written then is the metainfo of the
/// data. Success is told if and only if it was written, and where it is to be
/// added, adding it goes on as with any other file.
pub proof fn success_is_told_once_the_torrent_is_written(
    s: ServerView,
    path: String,
    trackers: Option<Vec<String>>,
    found: FoundData,
    made: Result<(), String>,
    build: BuildInfo,
)
    ensures
        answered(s, Request::Create { path, trackers }, build) == (s, making(path@, trackers, false)),
        answered(s, Request::CreateAdd { path, trackers }, build) == (s, making(path@, trackers, true)),
        making(path@, trackers, false) matches OutcomeView::MakeTorrent(pending) && {
            &&& pending.path == path@
            &&& pending.output == torrent_path(path@)
            &&& after_data(pending, Ok(found)) matches OutcomeView::WriteTorrent { pending: kept, bytes } && kept
                == pending && bytes == encoding(
                meta_value(created(found.name@, found.mode@, found.hasher@, pending.trackers)),
            )
            &&& after_making(pending, made) == told(ResponseView::Success) <==> made is Ok
        },
        making(path@, trackers, true) matches OutcomeView::MakeTorrent(pending) && (made is Ok ==> after_making(
            pending,
            made,
        ) == (OutcomeView::ReadFile { path: torrent_path(path@), effects: seq![] })),
{
}

/// A `.torrent` file that was made is added with the name and the files of its
/// data, where no torrent has its hash and it does not lie in the directory for
/// metainfo.
pub proof fn a_torrent_that_was_made_can_be_added(
    s: ServerView,
    path: Seq<char>,
    name: Seq<char>,
    mode: ModeView,
    data: Seq<u8>,
    trackers: Seq<Seq<char>>,
)
    requires
        coherent(created(name, mode, data, trackers)),
        encoding(meta_value(created(name, mode, data, trackers))).len() <= usize::MAX,
        first_with(s.torrents, hex_text(created(name, mode, data, trackers).info_hash)) is None,
        !is_cached(s.config, path),
    ensures
        ({
            let meta = created(name, mode, data, trackers);
            let (after, outcome) = after_file(s, path, Ok(encoding(meta_value(meta))));
            &&& outcome matches OutcomeView::Done { response: ResponseView::TorrentAdded { id }, .. } && id
                == s.next_id
            &&& after == with_torrent(with_next_id(s, path), s.next_id, meta)
        }),
{
    metainfo_reads_back(created(name, mode, data, trackers));
}

/// A request for a torrent that is not there is answered with an error and
/// changes nothing.
pub proof fn an_unknown_torrent_is_not_found(s: ServerView, id: u32, delete_data: bool, build: BuildInfo)
    requires
        !s.torrents.contains_key(id),
    ensures
        ({
            let nothing = (s, failed(not_found_text(id)));
            &&& answered(s, Request::Status { id: Some(TorrentId(id)) }, build) == nothing
            &&& answered(s, Request::Remove { id: TorrentId(id), delete_data }, build) == nothing
            &&& answered(s, Request::Pause { id: TorrentId(id) }, build) == nothing
            &&& answered(s, Request::Resume { id: TorrentId(id) }, build) == nothing
            &&& answered(s, Request::Verify { id: TorrentId(id) }, build) == nothing
            &&& answered(s, Request::Info { id: TorrentId(id) }, build) == nothing
        }),
{
}

/// A torrent that was paused is not running and says so; it can be resumed, which
/// loads it again from where it was added from. One that is running cannot.
pub proof fn a_paused_torrent_can_be_resumed(s: ServerView, id: u32, build: BuildInfo)
    requires
        s.torrents.contains_key(id),
        s.saved.contains_key(id),
    ensures
        ({
            let paused = answered(s, Request::Pause { id: TorrentId(id) }, build).0;
            let (after, outcome) = answered(paused, Request::Resume { id: TorrentId(id) }, build);
            &&& !paused.torrents[id].running
            &&& paused.torrents[id].state.status == "Paused"@
            &&& outcome == (OutcomeView::Done {
                response: ResponseView::Success,
                effects: seq![EffectView::RestoreTorrent { id, path: s.saved[id] }],
            })
            &&& after.torrents[id].state.status == "Checking"@
        }),
        s.torrents[id].running ==> answered(s, Request::Resume { id: TorrentId(id) }, build) == (
            s,
            failed("Torrent ID "@ + decimal_text(id as nat) + " is already running"@),
        ),
{
    let none = Seq::<EffectView>::empty();
    assert(none.push(EffectView::RestoreTorrent { id, path: s.saved[id] }) =~= seq![
        EffectView::RestoreTorrent { id, path: s.saved[id] },
    ]);
}

/// A question changes nothing.
pub proof fn questions_change_nothing(s: ServerView, id: Option<TorrentId>, which: TorrentId, build: BuildInfo)
    ensures
        answered(s, Request::List, build).0 == s,
        answered(s, Request::Status { id }, build).0 == s,
        answered(s, Request::Info { id: which }, build).0 == s,
        answered(s, Request::Stats, build).0 == s,
        answered(s, Request::GetConfig, build).0 == s,
        answered(s, Request::Version, build).0 == s,
{
}

/// A list shows every torrent once, in the order of the numbers.
pub proof fn a_list_shows_every_torrent(s: ServerView)
    requires
        knows_its_number(s),
    ensures
        forall|i: int, j: int|
            0 <= i < j < status_list(s.torrents).len() ==> #[trigger] status_list(s.torrents)[i].id
                < #[trigger] status_list(s.torrents)[j].id,
        forall|id: u32| #[trigger]
            s.torrents.contains_key(id) ==> status_list(s.torrents).contains(status_of(s.torrents[id].state)),
        forall|i: int|
            0 <= i < status_list(s.torrents).len() ==> s.torrents.contains_key(
                (#[trigger] status_list(s.torrents)[i]).id,
            ),
{
    keys_of_lists_the_keys(s.torrents);
    let ids = keys_of(s.torrents);
    let list = status_list(s.torrents);
    assert forall|i: int| 0 <= i < list.len() implies (#[trigger] list[i]).id == ids[i] by {
        assert(s.torrents.contains_key(ids[i]));
    }
    assert forall|i: int, j: int| 0 <= i < j < list.len() implies #[trigger] list[i].id < #[trigger] list[j].id by {
        assert(ids[i] < ids[j]);
    }
    assert forall|id: u32| #[trigger] s.torrents.contains_key(id) implies list.contains(
        status_of(s.torrents[id].state),
    ) by {
        let k = choose|k: int| 0 <= k < ids.len() && ids[k] == id;
        assert(list[k] == status_of(s.torrents[id].state));
    }
    assert forall|i: int| 0 <= i < list.len() implies s.torrents.contains_key((#[trigger] list[i]).id) by {
        assert(s.torrents.contains_key(ids[i]));
    }
}

proof fn lemma_with_entries(saved: Map<u32, Seq<char>>, m: Map<u32, Seq<char>>, ids: Seq<u32>)
    requires
        forall|i: int| 0 <= i < ids.len() ==> m.contains_key(#[trigger] ids[i]),
    ensures
        ({
            let entries = ids.map_values(|id: u32| (id, m[id]));
            let after = with_entries(saved, entries);
            &&& forall|k: u32| #[trigger] after.contains_key(k) <==> saved.contains_key(k) || ids.contains(k)
            &&& forall|k: u32| ids.contains(k) ==> #[trigger] after[k] == m[k]
            &&& forall|k: u32| saved.contains_key(k) && !ids.contains(k) ==> #[trigger] after[k] == saved[k]
        }),
    decreases ids.len(),
{
    let entries = ids.map_values(|id: u32| (id, m[id]));
    if ids.len() > 0 {
        let front = ids.drop_last();
        assert forall|i: int| 0 <= i < front.len() implies m.contains_key(#[trigger] front[i]) by {
            assert(m.contains_key(ids[i]));
        }
        lemma_with_entries(saved, m, front);
        assert(entries.drop_last() =~= front.map_values(|id: u32| (id, m[id])));
        assert(entries.last() == (ids.last(), m[ids.last()]));
        assert forall|k: u32| ids.contains(k) <==> front.contains(k) || k == ids.last() by {
            if ids.contains(k) {
                let i = choose|i: int| 0 <= i < ids.len() && ids[i] == k;
                if i < ids.len() - 1 {
                    assert(front[i] == k);
                }
            }
            if front.contains(k) {
                let i = choose|i: int| 0 <= i < front.len() && front[i] == k;
                assert(ids[i] == k);
            }
            if k == ids.last() {
                assert(ids[ids.len() - 1] == k);
            }
        }
        let before = with_entries(saved, entries.drop_last());
        let after = with_entries(saved, entries);
        assert(after == before.insert(ids.last(), m[ids.last()]));
        assert forall|k: u32| ids.contains(k) implies #[trigger] after[k] == m[k] by {
            if k != ids.last() {
                assert(front.contains(k));
                assert(before[k] == m[k]);
            }
        }
        assert forall|k: u32| saved.contains_key(k) && !ids.contains(k) implies #[trigger] after[k] == saved[k] by {
            assert(!front.contains(k));
            assert(before[k] == saved[k]);
        }
    } else {
        assert(entries.len() == 0);
        assert(with_entries(saved, entries) == saved);
    }
}

/// What was recorded is taken over at the next start: the same torrents under
/// the same numbers, each to be loaded from where it was added from, and numbers
/// for new torrents behind them.
pub proof fn a_restart_takes_over_what_was_recorded(s: ServerView, empty: ServerView)
    requires
        empty.torrents == Map::<u32, HandleView>::empty(),
        empty.saved == Map::<u32, Seq<char>>::empty(),
        empty.next_id == 1,
        is_numbered(s),
        s.next_id < u32::MAX,
    ensures
        restored(empty, saved_entries(s.saved)).saved == s.saved,
        is_numbered(restored(empty, saved_entries(s.saved))),
        largest_id(saved_entries(s.saved)) < u32::MAX,
{
    let entries = saved_entries(s.saved);
    let ids = keys_of(s.saved);
    keys_of_lists_the_keys(s.saved);
    lemma_with_entries(empty.saved, s.saved, ids);
    lemma_largest(entries);
    let after = restored(empty, entries);
    assert forall|k: u32| after.saved.contains_key(k) <==> s.saved.contains_key(k) by {
        if ids.contains(k) {
            let i = choose|i: int| 0 <= i < ids.len() && ids[i] == k;
            assert(s.saved.contains_key(ids[i]));
        }
    }
    assert forall|k: u32| after.saved.contains_key(k) implies after.saved[k] == s.saved[k] by {
        assert(ids.contains(k));
    }
    assert(after.saved =~= s.saved);
    lemma_largest_is_one(entries);
    if entries.len() > 0 {
        let top = choose|i: int| 0 <= i < entries.len() && (#[trigger] entries[i]).0 == largest_id(entries);
        assert(s.saved.contains_key(ids[top]));
    }
    assert forall|id: u32| #[trigger] after.saved.contains_key(id) implies id < after.next_id by {
        let i = choose|i: int| 0 <= i < ids.len() && ids[i] == id;
        assert(entries[i].0 == id);
    }
}

proof fn lemma_largest_is_one(entries: Seq<(u32, Seq<char>)>)
    ensures
        entries.len() > 0 ==> exists|i: int| 0 <= i < entries.len() && (#[trigger] entries[i]).0 == largest_id(entries),
    decreases entries.len(),
{
    if entries.len() > 0 {
        let front = entries.drop_last();
        lemma_largest_is_one(front);
        if entries.last().0 == largest_id(entries) {
            assert(entries[entries.len() - 1].0 == largest_id(entries));
        } else if front.len() > 0 {
            let i = choose|i: int| 0 <= i < front.len() && (#[trigger] front[i]).0 == largest_id(front);
            assert(entries[i] == front[i]);
            assert(entries[i].0 == largest_id(entries));
        } else {
            assert(largest_id(front) == 0);
        }
    }
}

/// Loading a torrent keeps the numbers in order, if it has been given one.
pub proof fn loading_keeps_order(
    s: ServerView,
    id: u32,
    magnet: MagnetView,
    path: Seq<char>,
    exists_in_cache: bool,
    contents: Result<Seq<u8>, Seq<char>>,
)
    requires
        is_numbered(s),
        knows_its_number(s),
        id < s.next_id,
    ensures
        is_numbered(restore_after_cache(s, id, magnet, path, exists_in_cache).0),
        knows_its_number(restore_after_cache(s, id, magnet, path, exists_in_cache).0),
        is_numbered(restore_after_file(s, id, path, contents).0),
        knows_its_number(restore_after_file(s, id, path, contents).0),
{
}

/// Taking over what was recorded keeps the numbers in order.
pub proof fn taking_over_keeps_order(s: ServerView, entries: Seq<(u32, Seq<char>)>)
    requires
        is_numbered(s),
        largest_id(entries) < u32::MAX,
    ensures
        is_numbered(restored(s, entries)),
{
    lemma_largest(entries);
    lemma_taken_over(s.saved, entries);
    let after = restored(s, entries);
    assert forall|id: u32| #[trigger] after.saved.contains_key(id) implies id < after.next_id by {
        if !s.saved.contains_key(id) {
            let i = choose|i: int| 0 <= i < entries.len() && (#[trigger] entries[i]).0 == id;
            assert(entries[i].0 <= largest_id(entries));
        }
    }
}

proof fn lemma_taken_over(saved: Map<u32, Seq<char>>, entries: Seq<(u32, Seq<char>)>)
    ensures
        forall|k: u32| #[trigger]
            with_entries(saved, entries).contains_key(k) ==> saved.contains_key(k) || exists|i: int|
                0 <= i < entries.len() && (#[trigger] entries[i]).0 == k,
    decreases entries.len(),
{
    if entries.len() > 0 {
        let front = entries.drop_last();
        lemma_taken_over(saved, front);
        assert forall|k: u32| #[trigger] with_entries(saved, entries).contains_key(k) implies saved.contains_key(k)
            || exists|i: int| 0 <= i < entries.len() && (#[trigger] entries[i]).0 == k by {
            if k == entries.last().0 {
                assert(entries[entries.len() - 1].0 == k);
            } else if !saved.contains_key(k) {
                assert(with_entries(saved, front).contains_key(k));
                let i = choose|i: int| 0 <= i < front.len() && (#[trigger] front[i]).0 == k;
                assert(entries[i] == front[i]);
            }
        }
    }
}

/// A bare hash is added as a magnet link for that hash with the default trackers.
/// Only a space in a tracker comes back as a plus sign; trackers without one come
/// back as they are.
pub proof fn a_bare_hash_is_a_magnet_link(s: ServerView, text: Seq<char>)
    requires
        is_bare_hash(trimmed(text)),
    ensures
        ({
            let link = what_to_add(s.config, text);
            &&& begins_in_any_case(link, "magnet:?"@)
            &&& hex_decoded(encode_utf8(trimmed(text))) is Some
            &&& magnet_of(encode_utf8(link)) == Ok::<MagnetView, MagnetError>(
                MagnetView {
                    info_hash: hex_decoded(encode_utf8(trimmed(text)))->0,
                    trackers: plus_texts(s.config.default_trackers),
                    name: None,
                },
            )
        }),
        (forall|i: int, j: int|
            0 <= i < s.config.default_trackers.len() && 0 <= j < s.config.default_trackers[i].len()
                ==> #[trigger] s.config.default_trackers[i][j] != ' ') ==> plus_texts(s.config.default_trackers)
            == s.config.default_trackers,
{
    let hash = trimmed(text);
    let link = link_for_hash(hash, s.config.default_trackers);
    assert(is_ascii_chars(hash)) by {
        assert forall|i: int| 0 <= i < hash.len() implies '\u{0}' <= #[trigger] hash[i] <= '\u{7f}' by {
            assert(is_hex_digit(hash[i]));
        }
    }
    is_ascii_chars_encode_utf8(hash);
    let bytes = encode_utf8(hash);
    assert forall|i: int| 0 <= i < bytes.len() implies hex_value(#[trigger] bytes[i]) is Some by {
        assert(is_hex_digit(hash[i]));
        assert(bytes[i] == hash[i] as u8);
    }
    link_for_hash_reads_back(hash, s.config.default_trackers);
    if forall|i: int, j: int|
        0 <= i < s.config.default_trackers.len() && 0 <= j < s.config.default_trackers[i].len()
            ==> #[trigger] s.config.default_trackers[i][j] != ' ' {
        without_spaces_nothing_changes(s.config.default_trackers);
    }
    reveal_strlit("magnet:?");
    reveal_strlit("magnet:?xt=urn:btih:");
    assert forall|i: int| 0 <= i < 8 implies ascii_lower(#[trigger] link[i]) == "magnet:?"@[i] by {
        assert(link[i] == "magnet:?xt=urn:btih:"@[i]);
    }
}

/// A torrent that was added is shown under the number that it has got, as yet
/// unchecked; the same holds of a magnet link whose metainfo is not at hand.
pub proof fn an_added_torrent_is_shown(
    s: ServerView,
    path: Seq<char>,
    bytes: Seq<u8>,
    magnet: MagnetView,
    cache_path: Seq<char>,
    build: BuildInfo,
)
    requires
        meta_of(bytes) is Ok,
        first_with(s.torrents, hex_text(meta_of(bytes)->Ok_0.info_hash)) is None,
    ensures
        ({
            let meta = meta_of(bytes)->Ok_0;
            let (after, outcome) = after_file(s, path, Ok(bytes));
            outcome matches OutcomeView::Done { response: ResponseView::TorrentAdded { id }, .. } && answered(
                after,
                Request::Status { id: Some(TorrentId(id)) },
                build,
            ) == (
                after,
                told(
                    ResponseView::TorrentStatus(
                        status_of(
                            fresh_state(
                                id,
                                meta.info.name,
                                hex_text(meta.info_hash),
                                mode_size(meta.info.mode) as u64,
                                "Checking"@,
                            ),
                        ),
                    ),
                ),
            )
        }),
        ({
            let (after, outcome) = after_cache(s, path, magnet, cache_path, false);
            outcome matches OutcomeView::Done { response: ResponseView::TorrentAdded { id }, .. } && answered(
                after,
                Request::Status { id: Some(TorrentId(id)) },
                build,
            ) == (
                after,
                told(
                    ResponseView::TorrentStatus(
                        status_of(
                            fresh_state(id, magnet_name(magnet), hex_text(magnet.info_hash), 0, "Fetching Metadata"@),
                        ),
                    ),
                ),
            )
        }),
{
}

/// What is recorded from time to time are exactly the torrents that are loaded
/// and of which it is known what they were added from.
pub proof fn loaded_torrents_are_recorded(s: ServerView, id: u32)
    ensures
        s.torrents.contains_key(id) && s.saved.contains_key(id) ==> loaded_entries_of(s).contains((id, s.saved[id])),
        forall|i: int|
            0 <= i < loaded_entries_of(s).len() ==> {
                let e = #[trigger] loaded_entries_of(s)[i];
                s.torrents.contains_key(e.0) && s.saved.contains_key(e.0) && e.1 == s.saved[e.0]
            },
{
    let kept = s.saved.restrict(s.torrents.dom());
    let ids = keys_of(kept);
    let entries = loaded_entries_of(s);
    keys_of_lists_the_keys(kept);
    if s.torrents.contains_key(id) && s.saved.contains_key(id) {
        assert(kept.contains_key(id));
        let k = choose|k: int| 0 <= k < ids.len() && ids[k] == id;
        assert(entries[k] == (id, s.saved[id]));
    }
    assert forall|i: int| 0 <= i < entries.len() implies {
        let e = #[trigger] entries[i];
        s.torrents.contains_key(e.0) && s.saved.contains_key(e.0) && e.1 == s.saved[e.0]
    } by {
        assert(kept.contains_key(ids[i]));
    }
}

} // verus!
