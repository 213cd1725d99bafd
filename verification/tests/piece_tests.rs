use torrent::piece::{verify_piece, Bitfield, PiecePicker};

#[test]
fn a_new_bitfield_is_empty() {
    let b = Bitfield::new(10);
    assert_eq!(b.len(), 10);
    assert!(!b.is_empty());
    assert!(Bitfield::new(0).is_empty());
    assert_eq!(b.count_ones(), 0);
    assert_eq!(b.get(9), Some(false));
    assert_eq!(b.get(10), None);
    assert_eq!(b.to_bytes(), [0, 0]);
}

#[test]
fn bits_are_set_from_the_most_significant_one_on() {
    let mut b = Bitfield::new(10);
    b.set(0, true);
    b.set(9, true);
    b.set(10, true);
    assert_eq!(b.to_bytes(), [0x80, 0x40]);
    assert_eq!(b.count_ones(), 2);
    b.set(0, false);
    assert_eq!(b.to_bytes(), [0, 0x40]);
}

#[test]
fn bytes_are_read_as_bits() {
    let b = Bitfield::from_bytes(vec![0b1010_0000, 0xff], 11);
    assert_eq!(b.len(), 11);
    assert_eq!(b.get(0), Some(true));
    assert_eq!(b.get(1), Some(false));
    assert_eq!(b.get(2), Some(true));
    assert_eq!(b.get(10), Some(true));
    assert_eq!(b.count_ones(), 5);
    assert_eq!(Bitfield::from_bytes(vec![0xff], 100).len(), 8);
}

#[test]
fn bits_behind_the_last_one_are_written_as_zeros() {
    let b = Bitfield::from_bytes(vec![0xff, 0xff], 11);
    assert_eq!(b.to_bytes(), [0xff, 0xe0]);
    assert_eq!(Bitfield::from_bytes(b.to_bytes(), 11), b);
    assert_eq!(b.clone(), b);
}

#[test]
fn bytes_are_packed_again() {
    let b = Bitfield::from_bytes(vec![0x5a, 0x01, 0x80], 24);
    assert_eq!(b.to_bytes(), [0x5a, 0x01, 0x80]);
}

#[test]
fn the_rarest_piece_is_picked_and_the_first_of_equals() {
    let mut picker = PiecePicker::new(4);
    let peer = Bitfield::from_bytes(vec![0b1110_0000], 4);
    for i in 0..4 {
        picker.peer_has_piece(i);
    }
    picker.peer_has_piece(0);
    picker.peer_has_piece(99);
    assert_eq!(picker.pick_next_piece(&peer), Some(1));
    picker.mark_requested(1, true);
    assert_eq!(picker.pick_next_piece(&peer), Some(2));
    picker.mark_downloaded(2);
    assert_eq!(picker.pick_next_piece(&peer), Some(0));
    picker.mark_requested(0, true);
    assert_eq!(picker.pick_next_piece(&peer), None);
    picker.mark_requested(1, false);
    assert_eq!(picker.pick_next_piece(&peer), Some(1));
}

#[test]
fn a_peer_that_leaves_changes_the_choice_back() {
    let mut picker = PiecePicker::new(2);
    let peer = Bitfield::from_bytes(vec![0b1100_0000], 2);
    picker.peer_has_piece(0);
    assert_eq!(picker.pick_next_piece(&peer), Some(1));
    picker.peer_lost_piece(0);
    assert_eq!(picker.pick_next_piece(&peer), Some(0));
    picker.peer_lost_piece(0);
    picker.peer_lost_piece(7);
    assert_eq!(picker.pick_next_piece(&peer), Some(0));
}

#[test]
fn a_short_bitfield_offers_nothing_more() {
    let picker = PiecePicker::new(9);
    assert_eq!(picker.pick_next_piece(&Bitfield::new(0)), None);
    assert_eq!(
        picker.pick_next_piece(&Bitfield::from_bytes(vec![0x01], 8)),
        Some(7)
    );
}

#[test]
fn a_piece_is_intact_if_its_digest_is_right() {
    let abc = [
        0xa9, 0x99, 0x3e, 0x36, 0x47, 0x06, 0x81, 0x6a, 0xba, 0x3e, 0x25, 0x71, 0x78, 0x50, 0xc2,
        0x6c, 0x9c, 0xd0, 0xd8, 0x9d,
    ];
    assert!(verify_piece(b"abc", &abc));
    assert!(!verify_piece(b"abd", &abc));
}
