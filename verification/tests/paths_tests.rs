use torrent::meta::TorrentFile;
use torrent::paths::{file_entry, sort_files};

fn path(parts: &[&str]) -> Vec<Vec<u8>> {
    parts.iter().map(|p| p.as_bytes().to_vec()).collect()
}

#[test]
fn files_are_sorted_part_by_part() {
    let sorted = sort_files(vec![
        path(&["b"]),
        path(&["a", "z"]),
        path(&["a-", "a"]),
        path(&["a"]),
        path(&["a", "b", "c"]),
        path(&["B"]),
    ]);
    assert_eq!(
        sorted,
        vec![
            path(&["B"]),
            path(&["a"]),
            path(&["a", "b", "c"]),
            path(&["a", "z"]),
            path(&["a-", "a"]),
            path(&["b"]),
        ]
    );
    assert!(sort_files(vec![]).is_empty());
}

#[test]
fn the_order_is_that_of_paths() {
    let mut names = vec!["x/y", "x", "x.d/a", "x/y/z", "w/zz", "x/Y"];
    let parts: Vec<Vec<Vec<u8>>> = names
        .iter()
        .map(|n| n.split('/').map(|p| p.as_bytes().to_vec()).collect())
        .collect();
    names.sort_by_key(|n| std::path::PathBuf::from(n));
    let sorted: Vec<String> = sort_files(parts)
        .into_iter()
        .map(|p| {
            let parts: Vec<String> = p
                .into_iter()
                .map(|part| String::from_utf8(part).unwrap())
                .collect();
            parts.join("/")
        })
        .collect();
    assert_eq!(sorted, names);
}

#[test]
fn a_file_is_listed_with_replacements() {
    assert_eq!(
        file_entry(7, &vec![b"d\xff".to_vec(), b"f".to_vec()]),
        TorrentFile { length: 7, path: vec!["d\u{fffd}".to_string(), "f".to_string()] }
    );
}
