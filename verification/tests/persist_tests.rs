use torrent::persist::{entries_found, load_state, save_state, state_file_path};

#[test]
fn what_was_saved_is_loaded() {
    let entries = vec![
        (1, "a.torrent".to_string()),
        (7, "magnet:?xt=\"q\"\n\u{1f600}".to_string()),
    ];
    let text = save_state(&entries).unwrap();
    assert_eq!(load_state(Some(&text)), entries);
}

#[test]
fn the_file_is_indented_json() {
    assert_eq!(
        save_state(&vec![(3, "p".to_string())]).unwrap(),
        "[\n  [\n    3,\n    \"p\"\n  ]\n]"
    );
    assert_eq!(save_state(&vec![]).unwrap(), "[]");
}

#[test]
fn what_cannot_be_understood_counts_as_empty() {
    assert!(load_state(None).is_empty());
    assert!(load_state(Some("")).is_empty());
    assert!(load_state(Some("[[1]]")).is_empty());
    assert!(load_state(Some("[[-1, \"x\"]]")).is_empty());
    assert_eq!(load_state(Some("[[1,\"x\"]]")), vec![(1, "x".to_string())]);
    assert_eq!(entries_found(None), vec![]);
    assert_eq!(state_file_path(), "torrents.json");
}
