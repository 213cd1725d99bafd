use torrent::magnet::{decode_hex, magnet_link_for_hash, MagnetError, MagnetLink};

const HASH: &str = "0123456789abcdefABCDEF0123456789abcdef01";

#[test]
fn a_full_link_is_read() {
    let link = MagnetLink::parse(&format!(
        "magnet:?xt=urn:btih:{}&dn=A%20name&tr=udp%3A%2F%2Ft%3A1&tr=plain",
        HASH
    ))
    .unwrap();
    assert_eq!(link.info_hash.to_hex(), HASH.to_lowercase());
    assert_eq!(link.name, Some("A name".to_string()));
    assert_eq!(link.trackers, vec!["udp://t:1".to_string(), "plain".to_string()]);
}

#[test]
fn parts_that_cannot_be_read_are_passed_over() {
    let link = MagnetLink::parse(&format!(
        "magnet:?tr=%zz&dn=%ff&xt=urn:btih:short&xt=urn:btih:{}&foo=bar&tr=%4",
        HASH
    ))
    .unwrap();
    assert_eq!(link.name, None);
    assert!(link.trackers.is_empty());
}

#[test]
fn a_plus_sign_stays_a_plus_sign() {
    let link = MagnetLink::parse(&format!("magnet:?xt=urn:btih:{}&dn=a+b", HASH)).unwrap();
    assert_eq!(link.name, Some("a+b".to_string()));
}

#[test]
fn magnet_errors_occur() {
    assert_eq!(
        MagnetLink::parse("http://x").unwrap_err(),
        MagnetError::InvalidPrefix
    );
    assert_eq!(
        MagnetLink::parse("MAGNET:?xt=urn:btih:").unwrap_err(),
        MagnetError::InvalidPrefix
    );
    assert_eq!(
        MagnetLink::parse("magnet:?dn=x").unwrap_err(),
        MagnetError::MissingXt
    );
    assert_eq!(
        MagnetLink::parse("magnet:?xt=urn:btih:0123").unwrap_err(),
        MagnetError::MissingXt
    );
}

#[test]
fn magnet_errors_in_words() {
    assert_eq!(MagnetError::InvalidPrefix.message(), "Invalid magnet link prefix");
    assert_eq!(MagnetError::MissingXt.message(), "Missing exact topic (xt)");
    assert_eq!(MagnetError::InvalidInfoHash.message(), "Invalid info hash format");
    assert_eq!(MagnetError::InvalidUrlEncoding.message(), "Invalid URL encoding");
}

#[test]
fn the_link_for_a_hash_names_the_trackers_as_in_a_form() {
    let link = magnet_link_for_hash(
        HASH,
        &vec!["udp://a b:1/x~ü".to_string(), "A-z_0.9*".to_string()],
    );
    assert_eq!(
        link,
        format!(
            "magnet:?xt=urn:btih:{}&tr=udp%3A%2F%2Fa+b%3A1%2Fx%7E%C3%BC&tr=A-z_0.9*",
            HASH
        )
    );
}

#[test]
fn the_link_for_a_hash_reads_back() {
    let trackers = vec![
        "udp://tracker.opentrackr.org:1337/announce".to_string(),
        "http://ü&=/".to_string(),
    ];
    let link = MagnetLink::parse(&magnet_link_for_hash(HASH, &trackers)).unwrap();
    assert_eq!(link.info_hash.to_hex(), HASH.to_lowercase());
    assert_eq!(link.trackers, trackers);
    assert_eq!(link.name, None);
}

#[test]
fn hexadecimal_digits_are_read_into_a_buffer() {
    let mut out = [7u8; 3];
    assert!(decode_hex(b"01aFf0", &mut out));
    assert_eq!(out, [0x01, 0xaf, 0xf0]);
    assert!(decode_hex(b"", &mut []));
}

#[test]
fn what_is_read_before_a_bad_pair_stays() {
    let mut out = [7u8; 3];
    assert!(!decode_hex(b"01agf0", &mut out));
    assert_eq!(out, [0x01, 7, 7]);
    for other in [&b"01aF"[..], b"01aFf", b"01aFf000", b""] {
        let mut out = [7u8; 3];
        assert!(!decode_hex(other, &mut out));
        assert_eq!(out, [7, 7, 7]);
    }
}

#[test]
fn a_space_in_a_tracker_comes_back_as_a_plus_sign() {
    let trackers = vec!["udp://a b".to_string(), "udp://c+d&e".to_string()];
    let link = MagnetLink::parse(&magnet_link_for_hash(HASH, &trackers)).unwrap();
    assert_eq!(link.info_hash.to_hex(), HASH.to_lowercase());
    assert_eq!(link.trackers, vec!["udp://a+b".to_string(), "udp://c+d&e".to_string()]);
    assert_eq!(link.name, None);
}
