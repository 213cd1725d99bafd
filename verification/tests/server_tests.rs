use torrent::config::Config;
use torrent::creator::{create_torrent, PieceHasher};
use torrent::ids::TorrentId;
use torrent::magnet::MagnetLink;
use torrent::meta::{FileMode, TorrentFile};
use torrent::rpc::{Request, Response, SystemStats};
use torrent::server::{is_disconnect, is_end_of_requests, peer_id, RpcServer};
use torrent::server_model::{
    BuildInfo, Effect, FoundData, Outcome, PendingMagnet, PendingTorrent, RestoreStep,
};
use torrent::state::TorrentState;
use torrent::worker::MagnetWorker;

const HASH: &str = "0123456789abcdef0123456789abcdef01234567";

fn build() -> BuildInfo {
    BuildInfo {
        version: "0.1.0".to_string(),
        git_hash: "abc".to_string(),
        git_date: "today".to_string(),
    }
}

fn server() -> RpcServer {
    RpcServer::new(Config::default())
}

fn ask(server: &mut RpcServer, request: Request) -> (Response, Vec<Effect>) {
    match server.process_request(request, &build()) {
        Outcome::Done { response, effects } => (response, effects),
        Outcome::CheckCache(p) => panic!("asked for {}", p.cache_path),
        Outcome::ReadFile { path, .. } => panic!("asked for {}", path),
        Outcome::MakeTorrent(p) => panic!("asked for {}", p.path),
        Outcome::WriteTorrent { pending, .. } => panic!("asked for {}", pending.path),
    }
}

fn add(server: &mut RpcServer, what: &str) -> Outcome {
    server.process_request(Request::Add { path_or_magnet: what.to_string() }, &build())
}

fn torrent_file(name: &str) -> Vec<u8> {
    let mut hasher = PieceHasher::new();
    hasher.update(b"abc");
    create_torrent(
        name.to_string(),
        FileMode::Single { length: 3 },
        hasher,
        &vec![],
    )
}

/// Adds a torrent file and gives its number.
fn add_file(server: &mut RpcServer, path: &str, name: &str) -> u32 {
    let contents = Ok(torrent_file(name));
    assert!(server.can_add(&path.to_string(), &contents));
    match server.file_read(path.to_string(), contents) {
        Outcome::Done { response: Response::TorrentAdded { id }, .. } => id.0,
        _ => panic!("not added"),
    }
}

#[test]
fn a_bare_hash_is_looked_up_as_a_magnet_link() {
    let mut s = server();
    match add(&mut s, &format!("  {}\n", HASH)) {
        Outcome::CheckCache(PendingMagnet { link, magnet, cache_path }) => {
            assert_eq!(
                link,
                format!(
                    "magnet:?xt=urn:btih:{}&tr=udp%3A%2F%2Ftracker.opentrackr.org%3A1337%2Fannounce&tr=udp%3A%2F%2Ftracker.openbittorrent.com%3A80%2Fannounce",
                    HASH
                )
            );
            assert_eq!(magnet.info_hash.to_hex(), HASH);
            assert_eq!(magnet.trackers, Config::default().default_trackers);
            assert_eq!(cache_path, format!("metadata/{}.torrent", HASH));
        }
        _ => panic!("not a magnet link"),
    }
}

#[test]
fn a_magnet_link_without_metainfo_is_fetched() {
    let mut s = server();
    let link = format!("magnet:?xt=urn:btih:{}&dn=Name", HASH);
    let pending = match add(&mut s, &link) {
        Outcome::CheckCache(p) => p,
        _ => panic!("not a magnet link"),
    };
    match s.cache_checked(pending, false) {
        Outcome::Done { response, effects } => {
            assert_eq!(response, Response::TorrentAdded { id: TorrentId(1) });
            assert_eq!(effects.len(), 2);
            match &effects[0] {
                Effect::SaveState { entries } => assert_eq!(entries, &vec![(1, link.clone())]),
                _ => panic!("not saved"),
            }
            match &effects[1] {
                Effect::StartMagnetWorker(w) => {
                    assert_eq!(w.id, TorrentId(1));
                    assert_eq!(w.download_dir, "downloads");
                    assert_eq!(w.metadata_dir, "metadata");
                }
                _ => panic!("not started"),
            }
        }
        _ => panic!("not added"),
    }
    let state = s.state(1).unwrap();
    assert_eq!(state.name, "Name");
    assert_eq!(state.status, "Fetching Metadata");
    assert_eq!(state.size, 0);

    let (response, effects) = ask(
        &mut s,
        Request::Add { path_or_magnet: format!("magnet:?xt=urn:btih:{}", HASH) },
    );
    assert_eq!(
        response,
        Response::Error("Torrent 'Name' is already added (ID 1)".to_string())
    );
    assert!(effects.is_empty());
}

#[test]
fn cached_metainfo_takes_the_number_of_its_link() {
    let mut s = server();
    let link = format!("magnet:?xt=urn:btih:{}", HASH);
    let pending = match add(&mut s, &link) {
        Outcome::CheckCache(p) => p,
        _ => panic!("not a magnet link"),
    };
    let path = match s.cache_checked(pending, true) {
        Outcome::ReadFile { path, effects } => {
            assert_eq!(effects.len(), 1);
            path
        }
        _ => panic!("not cached"),
    };
    assert_eq!(path, format!("metadata/{}.torrent", HASH));
    match s.file_read(path, Ok(torrent_file("cached"))) {
        Outcome::Done { response: Response::TorrentAdded { id }, effects } => {
            assert_eq!(id, TorrentId(1));
            assert!(matches!(effects.as_slice(), [Effect::StartDownloader(_)]));
        }
        _ => panic!("not added"),
    }
    assert_eq!(s.state(1).unwrap().name, "cached");
    assert_eq!(s.flush_progress(), Some(vec![(1, link)]));
    assert_eq!(add_file(&mut s, "other.torrent", "other"), 2);
}

#[test]
fn a_file_in_the_metadata_directory_takes_the_last_number() {
    let mut s = server();
    assert_eq!(add_file(&mut s, "a", "first"), 1);
    assert_eq!(add_file(&mut s, "metadata/x.torrent", "second"), 1);
    assert_eq!(s.state(1).unwrap().name, "second");
    assert_eq!(s.flush_progress(), Some(vec![(1, "a".to_string())]));
    assert_eq!(add_file(&mut s, "b", "third"), 2);
}

#[test]
fn a_torrent_file_is_added() {
    let mut s = server();
    match add(&mut s, " some/file.torrent ") {
        Outcome::ReadFile { path, effects } => {
            assert_eq!(path, "some/file.torrent");
            assert!(effects.is_empty());
        }
        _ => panic!("not a file"),
    }
    match s.file_read("some/file.torrent".to_string(), Ok(torrent_file("f"))) {
        Outcome::Done { response, effects } => {
            assert_eq!(response, Response::TorrentAdded { id: TorrentId(1) });
            match &effects[0] {
                Effect::SaveState { entries } => {
                    assert_eq!(entries, &vec![(1, "some/file.torrent".to_string())])
                }
                _ => panic!("not saved"),
            }
            match &effects[1] {
                Effect::StartDownloader(d) => {
                    assert_eq!(d.id, TorrentId(1));
                    assert_eq!(d.meta.info.name, "f");
                    assert_eq!(d.peer_id, peer_id());
                    assert_eq!(d.have_pieces, vec![false]);
                }
                _ => panic!("not started"),
            }
        }
        _ => panic!("not added"),
    }
    let state = s.state(1).unwrap();
    assert_eq!(state.status, "Checking");
    assert_eq!(state.size, 3);
    match s.file_read("again.torrent".to_string(), Ok(torrent_file("f"))) {
        Outcome::Done { response, .. } => assert_eq!(
            response,
            Response::Error("Torrent 'f' is already added (ID 1)".to_string())
        ),
        _ => panic!("not refused"),
    }
}

#[test]
fn what_cannot_be_added_is_said() {
    let mut s = server();
    let (response, _) = ask(&mut s, Request::Add { path_or_magnet: "magnet:?x".to_string() });
    assert_eq!(
        response,
        Response::Error("Invalid magnet link: Missing exact topic (xt)".to_string())
    );
    let (response, _) = ask(
        &mut s,
        Request::Add { path_or_magnet: format!("MAGNET:?xt=urn:btih:{}", HASH) },
    );
    assert_eq!(
        response,
        Response::Error("Invalid magnet link: Invalid magnet link prefix".to_string())
    );
    match s.file_read("x".to_string(), Err("no such file".to_string())) {
        Outcome::Done { response, .. } => assert_eq!(
            response,
            Response::Error("Failed to read torrent file: no such file".to_string())
        ),
        _ => panic!("not refused"),
    }
    match s.file_read("x".to_string(), Ok(b"le".to_vec())) {
        Outcome::Done { response, .. } => assert_eq!(
            response,
            Response::Error(
                "Failed to parse torrent metainfo: Invalid field type for 'root'".to_string()
            )
        ),
        _ => panic!("not refused"),
    }
    assert!(!s.can_add(&"x".to_string(), &Ok(b"di1e".to_vec())));
    assert!(s.state(1).is_none());
}

#[test]
fn torrents_are_listed_in_order() {
    let mut s = server();
    let (response, _) = ask(&mut s, Request::Status { id: None });
    assert_eq!(response, Response::Error("No torrents loaded".to_string()));
    add_file(&mut s, "a", "first");
    add_file(&mut s, "b", "second");
    match ask(&mut s, Request::List).0 {
        Response::TorrentList(list) => {
            assert_eq!(list.len(), 2);
            assert_eq!((list[0].id, list[0].name.as_str()), (TorrentId(1), "first"));
            assert_eq!((list[1].id, list[1].name.as_str()), (TorrentId(2), "second"));
            assert_eq!(list[1].size, 3);
            assert_eq!(list[1].status, "Checking");
        }
        other => panic!("{:?}", other),
    }
    match ask(&mut s, Request::Status { id: None }).0 {
        Response::TorrentStatus(t) => assert_eq!(t.name, "first"),
        other => panic!("{:?}", other),
    }
    match ask(&mut s, Request::Status { id: Some(TorrentId(2)) }).0 {
        Response::TorrentStatus(t) => assert_eq!(t.name, "second"),
        other => panic!("{:?}", other),
    }
    match ask(&mut s, Request::Info { id: TorrentId(2) }).0 {
        Response::Info(d) => {
            assert_eq!((d.name.as_str(), d.size, d.status.as_str()), ("second", 3, "Checking"))
        }
        other => panic!("{:?}", other),
    }
    assert_eq!(
        ask(&mut s, Request::Stats).0,
        Response::Stats(SystemStats {
            download_rate: 0,
            upload_rate: 0,
            total_downloaded: 0,
            total_uploaded: 0,
            num_torrents: 2,
        })
    );
}

#[test]
fn a_torrent_is_paused_resumed_and_verified() {
    let mut s = server();
    add_file(&mut s, "a", "first");
    let (response, effects) = ask(&mut s, Request::Resume { id: TorrentId(1) });
    assert_eq!(
        response,
        Response::Error("Torrent ID 1 is already running".to_string())
    );
    assert!(effects.is_empty());

    let (response, effects) = ask(&mut s, Request::Pause { id: TorrentId(1) });
    assert_eq!(response, Response::Success);
    assert!(matches!(effects.as_slice(), [Effect::AbortWorker { id: TorrentId(1) }]));
    assert_eq!(s.state(1).unwrap().status, "Paused");

    let (response, effects) = ask(&mut s, Request::Resume { id: TorrentId(1) });
    assert_eq!(response, Response::Success);
    match effects.as_slice() {
        [Effect::RestoreTorrent { id: 1, path }] => assert_eq!(path, "a"),
        _ => panic!("not restored"),
    }
    assert_eq!(s.state(1).unwrap().status, "Checking");

    match s.restore_file_read(1, "a".to_string(), Ok(torrent_file("first"))) {
        RestoreStep::Done(Effect::StartDownloader(d)) => assert_eq!(d.id, TorrentId(1)),
        _ => panic!("not started"),
    }
    let (response, effects) = ask(&mut s, Request::Verify { id: TorrentId(1) });
    assert_eq!(response, Response::Success);
    assert_eq!(effects.len(), 2);
}

#[test]
fn a_torrent_that_is_not_recorded_cannot_be_resumed() {
    let mut s = server();
    let pending = match s.restore_torrent(&format!("magnet:?xt=urn:btih:{}", HASH)) {
        RestoreStep::CheckCache(p) => p,
        _ => panic!("not a magnet link"),
    };
    match s.restore_cache_checked(9, pending, false) {
        RestoreStep::Done(Effect::StartMagnetWorker(w)) => assert_eq!(w.id, TorrentId(9)),
        _ => panic!("not started"),
    }
    ask(&mut s, Request::Pause { id: TorrentId(9) });
    let (response, effects) = ask(&mut s, Request::Resume { id: TorrentId(9) });
    assert_eq!(
        response,
        Response::Error("Torrent data path not found".to_string())
    );
    assert!(effects.is_empty());
    assert_eq!(s.state(9).unwrap().status, "Checking");
    assert!(s.flush_progress().is_none());
}

#[test]
fn a_torrent_is_removed() {
    let mut s = server();
    add_file(&mut s, "a", "first");
    add_file(&mut s, "b", "second");
    let (response, effects) = ask(
        &mut s,
        Request::Remove { id: TorrentId(1), delete_data: false },
    );
    assert_eq!(response, Response::TorrentRemoved);
    match effects.as_slice() {
        [Effect::AbortWorker { id: TorrentId(1) }, Effect::SaveState { entries }] => {
            assert_eq!(entries, &vec![(2, "b".to_string())])
        }
        _ => panic!("not saved"),
    }
    assert!(s.state(1).is_none());
    assert!(s.state(2).is_some());
    assert_eq!(add_file(&mut s, "a", "first"), 3);
}

#[test]
fn the_files_of_a_removed_torrent_are_deleted_on_request() {
    let mut s = server();
    add_file(&mut s, "a", "first");
    let mut hasher = PieceHasher::new();
    hasher.update(b"abcdef");
    let files = vec![
        TorrentFile { length: 3, path: vec!["x".to_string()] },
        TorrentFile { length: 0, path: vec![] },
        TorrentFile { length: 3, path: vec!["y".to_string(), "z".to_string()] },
    ];
    let bytes = create_torrent("several".to_string(), FileMode::Multi { files }, hasher, &vec![]);
    s.file_read("b".to_string(), Ok(bytes));
    ask(&mut s, Request::Pause { id: TorrentId(2) });
    let mut state = s.state(2).unwrap();
    state.peers_connected = 1;
    s.set_state(state);

    let request = Request::Remove { id: TorrentId(2), delete_data: true };
    let (response, effects) = ask(&mut s, request.clone());
    assert_eq!(response, Response::TorrentRemoved);
    match effects.as_slice() {
        [Effect::SaveState { .. }, Effect::DeleteData { id: TorrentId(2), download_dir, files }] => {
            assert_eq!(download_dir, "downloads");
            assert_eq!(
                files,
                &vec![
                    vec!["several".to_string(), "x".to_string()],
                    vec!["several".to_string(), "y".to_string(), "z".to_string()],
                ]
            );
        }
        _ => panic!("not deleted"),
    }
    let (response, effects) = ask(&mut s, request);
    assert_eq!(response, Response::Error("Torrent ID 2 not found".to_string()));
    assert!(effects.is_empty());
    assert!(s.state(1).is_some());

    let (_, effects) = ask(&mut s, Request::Remove { id: TorrentId(1), delete_data: true });
    match effects.as_slice() {
        [Effect::AbortWorker { .. }, Effect::SaveState { .. }, Effect::DeleteData { files, .. }] => {
            assert_eq!(files, &vec![vec!["first".to_string()]])
        }
        _ => panic!("not deleted"),
    }
}

#[test]
fn a_magnet_link_without_metainfo_has_no_files() {
    let mut s = server();
    let pending = match add(&mut s, &format!("magnet:?xt=urn:btih:{}", HASH)) {
        Outcome::CheckCache(p) => p,
        _ => panic!("not a magnet link"),
    };
    s.cache_checked(pending, false);
    let (_, effects) = ask(&mut s, Request::Remove { id: TorrentId(1), delete_data: true });
    match effects.last() {
        Some(Effect::DeleteData { files, .. }) => assert!(files.is_empty()),
        _ => panic!("not deleted"),
    }
}

/// What making a torrent from a path starts with.
fn making(s: &mut RpcServer, request: Request) -> PendingTorrent {
    match s.process_request(request, &build()) {
        Outcome::MakeTorrent(pending) => pending,
        _ => panic!("not to be made"),
    }
}

fn found() -> FoundData {
    let mut hasher = PieceHasher::new();
    hasher.update(b"abc");
    FoundData { name: "f".to_string(), mode: FileMode::Single { length: 3 }, hasher }
}

#[test]
fn a_torrent_is_made() {
    let mut s = server();
    let request = Request::Create {
        path: "some/f/".to_string(),
        trackers: Some(vec!["udp://one".to_string()]),
    };
    let pending = making(&mut s, request);
    assert_eq!(pending.path, "some/f/");
    assert_eq!(pending.output, "some/f.torrent");
    let (pending, bytes) = match s.data_found(pending, Ok(found())) {
        Outcome::WriteTorrent { pending, bytes } => (pending, bytes),
        _ => panic!("not to be written"),
    };
    let same = found();
    assert_eq!(
        bytes,
        create_torrent(same.name, same.mode, same.hasher, &vec!["udp://one".to_string()])
    );
    match s.torrent_made(pending, Ok(())) {
        Outcome::Done { response, effects } => {
            assert_eq!(response, Response::Success);
            assert!(effects.is_empty());
        }
        _ => panic!("not done"),
    }
    assert!(s.state(1).is_none());
}

#[test]
fn what_keeps_a_torrent_from_being_made_is_said() {
    let mut s = server();
    let request = Request::Create { path: "p".to_string(), trackers: None };
    let pending = making(&mut s, request.clone());
    match s.data_found(pending, Err("Path does not exist: p".to_string())) {
        Outcome::Done { response, .. } => assert_eq!(
            response,
            Response::Error("Path does not exist: p".to_string())
        ),
        _ => panic!("not refused"),
    }
    let pending = making(&mut s, request);
    match s.torrent_made(pending, Err("disk full".to_string())) {
        Outcome::Done { response, .. } => {
            assert_eq!(response, Response::Error("disk full".to_string()))
        }
        _ => panic!("not refused"),
    }
}

#[test]
fn a_torrent_is_made_and_added() {
    let mut s = server();
    let request = Request::CreateAdd { path: "f".to_string(), trackers: None };
    let pending = making(&mut s, request);
    let (pending, bytes) = match s.data_found(pending, Ok(found())) {
        Outcome::WriteTorrent { pending, bytes } => (pending, bytes),
        _ => panic!("not to be written"),
    };
    let path = match s.torrent_made(pending, Ok(())) {
        Outcome::ReadFile { path, effects } => {
            assert!(effects.is_empty());
            path
        }
        _ => panic!("not to be added"),
    };
    assert_eq!(path, "f.torrent");
    match s.file_read(path, Ok(bytes)) {
        Outcome::Done { response, .. } => {
            assert_eq!(response, Response::TorrentAdded { id: TorrentId(1) })
        }
        _ => panic!("not added"),
    }
    assert_eq!(s.state(1).unwrap().name, "f");
    assert_eq!(s.flush_progress(), Some(vec![(1, "f.torrent".to_string())]));
}

#[test]
fn requests_for_an_unknown_torrent() {
    let mut s = server();
    let not_found = Response::Error("Torrent ID 5 not found".to_string());
    let id = TorrentId(5);
    for request in vec![
        Request::Status { id: Some(id) },
        Request::Remove { id, delete_data: false },
        Request::Pause { id },
        Request::Resume { id },
        Request::Verify { id },
        Request::Info { id },
    ] {
        let (response, effects) = ask(&mut s, request);
        assert_eq!(response, not_found);
        assert!(effects.is_empty());
    }
}

#[test]
fn other_requests() {
    let mut s = server();
    assert_eq!(
        ask(&mut s, Request::Version).0,
        Response::Version { version: "0.1.0 (Git: abc | Date: today)".to_string() }
    );
    assert_eq!(
        ask(&mut s, Request::GetConfig).0,
        Response::Config("download_dir = \"downloads\"\nlisten_port = 6881\n".to_string())
    );
    let mine = Config { download_dir: "here".to_string(), ..Config::default() };
    assert_eq!(
        ask(&mut RpcServer::new(mine), Request::GetConfig).0,
        Response::Config("download_dir = \"here\"\nlisten_port = 6881\n".to_string())
    );
}

#[test]
fn recorded_torrents_are_taken_over() {
    let mut s = server();
    let entries = vec![(7, "a".to_string()), (2, "b".to_string())];
    assert!(RpcServer::can_restore_state(&entries));
    let orders = s.restore_state(entries);
    match orders.as_slice() {
        [Effect::RestoreTorrent { id: 7, path: a }, Effect::RestoreTorrent { id: 2, path: b }] => {
            assert_eq!((a.as_str(), b.as_str()), ("a", "b"))
        }
        _ => panic!("not ordered"),
    }
    assert_eq!(add_file(&mut s, "c", "new"), 8);
    assert_eq!(s.flush_progress(), Some(vec![(8, "c".to_string())]));
    s.restore_file_read(2, "b".to_string(), Ok(torrent_file("b")));
    assert_eq!(
        s.flush_progress(),
        Some(vec![(2, "b".to_string()), (8, "c".to_string())])
    );
    assert!(server().restore_state(vec![]).is_empty());
    assert!(!RpcServer::can_restore_state(&vec![(u32::MAX, "x".to_string())]));
}

#[test]
fn torrents_that_cannot_be_loaded() {
    let mut s = server();
    match s.restore_torrent(&"magnet:?x".to_string()) {
        RestoreStep::Failed(text) => assert_eq!(
            text,
            "Restore: failed to parse magnet link: Missing exact topic (xt)"
        ),
        _ => panic!("not refused"),
    }
    match s.restore_torrent(&"MAGNET:?x".to_string()) {
        RestoreStep::ReadFile { path } => assert_eq!(path, "MAGNET:?x"),
        _ => panic!("not a file"),
    }
    match s.restore_file_read(1, "p".to_string(), Err("gone".to_string())) {
        RestoreStep::Failed(text) => assert_eq!(text, "Restore: failed to read p: gone"),
        _ => panic!("not refused"),
    }
    match s.restore_file_read(1, "p".to_string(), Ok(b"le".to_vec())) {
        RestoreStep::Failed(text) => assert_eq!(
            text,
            "Restore: failed to parse p: Invalid field type for 'root'"
        ),
        _ => panic!("not refused"),
    }
    assert!(RpcServer::can_restore(&Ok(torrent_file("x"))));
    assert!(!RpcServer::can_restore(&Ok(b"di1e".to_vec())));
    let pending = match s.restore_torrent(&format!("magnet:?xt=urn:btih:{}", HASH)) {
        RestoreStep::CheckCache(p) => p,
        _ => panic!("not a magnet link"),
    };
    match s.restore_cache_checked(1, pending, true) {
        RestoreStep::ReadFile { path } => {
            assert_eq!(path, format!("metadata/{}.torrent", HASH))
        }
        _ => panic!("not cached"),
    }
}

#[test]
fn the_state_of_a_torrent_is_kept() {
    let mut s = server();
    add_file(&mut s, "a", "first");
    let mut state: TorrentState = s.state(1).unwrap();
    state.block_received(2);
    s.set_state(state.clone());
    assert_eq!(s.state(1).unwrap(), state);
    state.id = TorrentId(4);
    s.set_state(state);
    assert!(s.state(4).is_none());
}

#[test]
fn metainfo_is_not_fetched_from_peers() {
    let mut s = server();
    add_file(&mut s, "a", "first");
    let mut state = s.state(1).unwrap();
    MagnetWorker {
        id: TorrentId(1),
        magnet: MagnetLink::parse(&format!("magnet:?xt=urn:btih:{}", HASH)).unwrap(),
        download_dir: "d".to_string(),
        metadata_dir: "m".to_string(),
    }
    .start(&mut state);
    assert_eq!(state.status, "Failed (Metadata fetch not fully implemented)");
}

#[test]
fn errors_that_mean_that_the_client_has_gone() {
    assert!(is_disconnect("early eof", false));
    assert!(is_disconnect("x: connection reset by peer", false));
    assert!(is_disconnect("Broken pipe (os error 32)", false));
    assert!(!is_disconnect("the pipe is being closed", false));
    assert!(is_disconnect("the pipe is being closed", true));
    assert!(!is_disconnect("anything else", true));
    assert!(is_end_of_requests("Failed to read request packet"));
    assert!(is_end_of_requests("(os error 109)"));
    assert!(is_end_of_requests("(os error 232)"));
    assert!(!is_end_of_requests("os error 5"));
}

#[test]
fn the_client_has_a_name() {
    let mut id = [0u8; 20];
    id[..8].copy_from_slice(b"-AG0001-");
    assert_eq!(peer_id(), id);
}

#[test]
fn files_that_cannot_be_handled_change_nothing() {
    let mut s = server();
    assert!(s.try_file_read("x".to_string(), Ok(b"di1e".to_vec())).is_none());
    assert!(s.try_restore_file_read(1, "x".to_string(), Ok(b"di1e".to_vec())).is_none());
    assert!(s.state(1).is_none());
    match s.try_file_read("x".to_string(), Ok(torrent_file("x"))) {
        Some(Outcome::Done { response: Response::TorrentAdded { id }, .. }) => {
            assert_eq!(id, TorrentId(1))
        }
        _ => panic!("not added"),
    }
    match s.try_restore_file_read(1, "x".to_string(), Err("gone".to_string())) {
        Some(RestoreStep::Failed(text)) => assert_eq!(text, "Restore: failed to read x: gone"),
        _ => panic!("not refused"),
    }
}

#[test]
fn what_was_recorded_survives_a_restart() {
    let mut s = server();
    add_file(&mut s, "a", "first");
    add_file(&mut s, "b", "second");
    let (_, effects) = ask(&mut s, Request::Remove { id: TorrentId(1), delete_data: false });
    add_file(&mut s, "c", "third");
    assert_eq!(effects.len(), 2);
    let text = torrent::persist::save_state(&s.flush_progress().unwrap()).unwrap();

    let mut again = server();
    let entries = torrent::persist::load_state(Some(&text));
    assert_eq!(entries, vec![(2, "b".to_string()), (3, "c".to_string())]);
    assert_eq!(again.restore_state(entries).len(), 2);
    assert_eq!(add_file(&mut again, "d", "fourth"), 4);
}
