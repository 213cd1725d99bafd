use torrent::strings::{
    text_begins, text_begins_in_any_case, text_holds, text_replaced, text_trimmed,
    text_without_prefixes, text_without_slashes,
};

#[test]
fn beginnings() {
    assert!(text_begins("udp://x", "udp://"));
    assert!(text_begins("x", ""));
    assert!(!text_begins("ud", "udp://"));
    assert!(text_begins_in_any_case("MagNet:?x", "magnet:?"));
    assert!(!text_begins_in_any_case("magnet:", "magnet:?"));
    assert!(!text_begins_in_any_case("magnät:?", "magnet:?"));
}

#[test]
fn parts() {
    assert!(text_holds("an early eof here", "early eof"));
    assert!(text_holds("x", ""));
    assert!(text_holds("", ""));
    assert!(!text_holds("early  eof", "early eof"));
    assert!(text_holds("aab", "ab"));
}

#[test]
fn prefixes_are_taken_off_however_often_they_stand_there() {
    assert_eq!(text_without_prefixes("udp://udp://h:1", "udp://"), "h:1");
    assert_eq!(text_without_prefixes("h:1", "udp://"), "h:1");
    assert_eq!(text_without_prefixes("h", ""), "h");
}

#[test]
fn every_occurrence_is_replaced() {
    assert_eq!(
        text_replaced("udp://a/udp://b", "udp://", "http://"),
        "http://a/http://b"
    );
    assert_eq!(text_replaced("aaa", "aa", "b"), "ba");
    assert_eq!(text_replaced("", "aa", "b"), "");
}

#[test]
fn white_space_around_a_text_is_taken_off() {
    assert_eq!(text_trimmed(" \t\u{a0}\u{2003}a b\u{3000}\n"), "a b");
    assert_eq!(text_trimmed("  "), "");
    assert_eq!(text_trimmed("\u{200b}x"), "\u{200b}x");
    assert_eq!(text_trimmed(&text_trimmed(" x ")), "x");
}

#[test]
fn slashes_at_the_end_of_a_path_are_dropped() {
    assert_eq!(text_without_slashes("a/b//"), "a/b");
    assert_eq!(text_without_slashes("/a"), "/a");
    assert_eq!(text_without_slashes("/"), "");
    assert_eq!(text_without_slashes(""), "");
}
