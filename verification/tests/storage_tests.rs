use torrent::meta::{FileMode, InfoDict, TorrentFile};
use torrent::storage::{Extent, FileToMake};

fn three_files() -> FileMode {
    FileMode::Multi {
        files: vec![
            TorrentFile { length: 4, path: vec!["a".to_string()] },
            TorrentFile { length: 0, path: vec![] },
            TorrentFile { length: 6, path: vec!["b".to_string(), "c".to_string()] },
            TorrentFile { length: 5, path: vec!["d".to_string()] },
        ],
    }
}

/// Reads what the extents say out of the files.
fn gather(disk: &Vec<Vec<u8>>, extents: &Vec<Extent>, len: usize) -> Vec<u8> {
    let mut buf = vec![0u8; len];
    for e in extents {
        let start = e.start as usize;
        buf[e.at..e.at + e.len].copy_from_slice(&disk[e.file][start..start + e.len]);
    }
    buf
}

/// Writes what the extents say into the files.
fn scatter(disk: &mut Vec<Vec<u8>>, extents: &Vec<Extent>, data: &[u8]) {
    for e in extents {
        let start = e.start as usize;
        disk[e.file][start..start + e.len].copy_from_slice(&data[e.at..e.at + e.len]);
    }
}

#[test]
fn the_size_of_a_torrent() {
    assert_eq!(FileMode::Single { length: 7 }.total_size(), 7);
    assert_eq!(three_files().total_size(), 15);
    assert!(three_files().size_fits());
    let huge = FileMode::Multi {
        files: vec![
            TorrentFile { length: u64::MAX, path: vec![] },
            TorrentFile { length: 1, path: vec![] },
        ],
    };
    assert!(!huge.size_fits());
}

#[test]
fn a_range_is_read_across_files() {
    let mode = three_files();
    let all = vec![true; 4];
    assert_eq!(
        mode.read_piece_from_disk(&all, 2, 10),
        Some(vec![
            Extent { file: 0, start: 2, at: 0, len: 2 },
            Extent { file: 2, start: 0, at: 2, len: 6 },
            Extent { file: 3, start: 0, at: 8, len: 2 },
        ])
    );
    let disk = vec![b"0123".to_vec(), vec![], b"456789".to_vec(), b"abcde".to_vec()];
    assert_eq!(
        gather(&disk, &mode.read_piece_from_disk(&all, 2, 10).unwrap(), 10),
        b"23456789ab"
    );
}

#[test]
fn what_was_written_is_read_back() {
    let mode = three_files();
    let all = vec![true; 4];
    let mut disk = vec![b"0123".to_vec(), vec![], b"456789".to_vec(), b"abcde".to_vec()];
    scatter(&mut disk, &mode.write_block(&all, 3, 8), b"HELLOYOU");
    assert_eq!(
        disk,
        vec![b"012H".to_vec(), vec![], b"ELLOYO".to_vec(), b"Ubcde".to_vec()]
    );
    assert_eq!(
        gather(&disk, &mode.read_piece_from_disk(&all, 3, 8).unwrap(), 8),
        b"HELLOYOU"
    );
}

#[test]
fn a_single_file_does_not_grow() {
    let mode = FileMode::Single { length: 10 };
    let none: Vec<bool> = vec![];
    assert_eq!(
        mode.read_piece_from_disk(&none, 8, 4),
        Some(vec![Extent { file: 0, start: 8, at: 0, len: 4 }])
    );
    assert_eq!(
        mode.write_block(&none, 8, 4),
        vec![Extent { file: 0, start: 8, at: 0, len: 2 }]
    );
    assert_eq!(
        mode.write_block(&none, 11, 4),
        vec![Extent { file: 0, start: 11, at: 0, len: 0 }]
    );
}

#[test]
fn a_write_past_the_end_writes_what_fits() {
    let mode = three_files();
    let all = vec![true; 4];
    let mut disk = vec![b"0123".to_vec(), vec![], b"456789".to_vec(), b"abcde".to_vec()];
    scatter(&mut disk, &mode.write_block(&all, 13, 5), b"VWXYZ");
    assert_eq!(
        disk,
        vec![b"0123".to_vec(), vec![], b"456789".to_vec(), b"abcVW".to_vec()]
    );
    assert_eq!(mode.write_block(&all, 15, 5), vec![]);
}

#[test]
fn a_range_in_a_file_that_is_not_there_cannot_be_read() {
    let mode = three_files();
    let present = vec![false, true, true, true];
    assert_eq!(mode.read_piece_from_disk(&present, 1, 3), None);
    assert_eq!(mode.read_piece_from_disk(&present, 3, 4), None);
    assert_eq!(
        mode.read_piece_from_disk(&present, 4, 3),
        Some(vec![Extent { file: 2, start: 0, at: 0, len: 3 }])
    );
    assert_eq!(mode.read_piece_from_disk(&present, 1, 0), Some(vec![]));
    assert_eq!(mode.read_piece_from_disk(&present, 15, 1), Some(vec![]));
    let last_gone = vec![true, true, true, false];
    assert_eq!(
        mode.read_piece_from_disk(&last_gone, 2, 8),
        Some(vec![
            Extent { file: 0, start: 2, at: 0, len: 2 },
            Extent { file: 2, start: 0, at: 2, len: 6 },
        ])
    );
    assert_eq!(mode.read_piece_from_disk(&last_gone, 2, 9), None);
}

#[test]
fn what_belongs_into_a_file_that_is_not_there_goes_into_the_next_one() {
    let mode = three_files();
    let present = vec![false, true, true, true];
    assert_eq!(
        mode.write_block(&present, 1, 3),
        vec![Extent { file: 2, start: 0, at: 0, len: 3 }]
    );
    assert_eq!(mode.write_block(&present, 1, 0), vec![]);
}

fn info(mode: FileMode) -> InfoDict {
    InfoDict { name: "top".to_string(), piece_length: 4, pieces: vec![], mode }
}

#[test]
fn files_stand_below_the_name_of_the_torrent() {
    assert_eq!(info(FileMode::Single { length: 3 }).file_path(0), vec!["top".to_string()]);
    assert_eq!(
        info(three_files()).file_path(2),
        vec!["top".to_string(), "b".to_string(), "c".to_string()]
    );
}

#[test]
fn files_without_a_path_are_not_made() {
    assert_eq!(
        info(FileMode::Single { length: 3 }).initialize_files(),
        vec![FileToMake { path: vec!["top".to_string()], length: 3 }]
    );
    let made = info(three_files()).initialize_files();
    assert_eq!(made.len(), 3);
    assert_eq!(
        made[1],
        FileToMake {
            path: vec!["top".to_string(), "b".to_string(), "c".to_string()],
            length: 6
        }
    );
}
