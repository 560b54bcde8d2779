use std::collections::HashSet;

use cratetorrent::bitfield::Bitfield;
use cratetorrent::piece_picker::PiecePicker;

#[test]
fn should_pick_all_pieces() {
    let piece_count = 15;
    let mut piece_picker = PiecePicker::empty(piece_count);
    let available_pieces = Bitfield::repeat(true, piece_count);
    piece_picker.register_peer_pieces(&available_pieces);

    let mut picked = HashSet::with_capacity(piece_count);
    for index in 0..piece_count {
        let pick = piece_picker.pick_piece();
        assert_eq!(pick, Some(index));
        let pick = pick.unwrap();
        assert!(!picked.contains(&pick));
        picked.insert(pick);
    }
    assert_eq!(picked.len(), piece_count);
}

#[test]
fn should_mark_piece_as_received() {
    let piece_count = 15;
    let mut piece_picker = PiecePicker::empty(piece_count);
    let available_pieces = Bitfield::repeat(true, piece_count);
    piece_picker.register_peer_pieces(&available_pieces);
    assert!(piece_picker.own_pieces().not_any());

    let owned_pieces = [3, 10, 5];
    for index in owned_pieces.iter() {
        piece_picker.received_piece(*index);
        assert!(piece_picker.own_pieces().get(*index));
    }
    assert!(!piece_picker.own_pieces().not_any());

    for _ in 0..piece_count - owned_pieces.len() {
        let pick = piece_picker.pick_piece().unwrap();
        assert!(owned_pieces.iter().all(|owned| *owned != pick));
    }
}

#[test]
fn should_count_missing_pieces() {
    let piece_count = 15;
    let mut piece_picker = PiecePicker::empty(piece_count);

    assert_eq!(piece_picker.missing_piece_count(), piece_count);

    let have_count = 2;
    for index in 0..have_count {
        piece_picker.received_piece(index);
    }
    assert_eq!(piece_picker.missing_piece_count(), piece_count - have_count);

    for index in have_count..piece_count {
        piece_picker.received_piece(index);
    }
    assert_eq!(piece_picker.missing_piece_count(), 0);
}

#[test]
fn should_count_free_pieces() {
    let piece_count = 15;
    let mut piece_picker = PiecePicker::empty(piece_count);
    piece_picker.register_peer_pieces(&Bitfield::repeat(true, piece_count));

    assert_eq!(piece_picker.free_count(), piece_count);

    for i in 0..2 {
        assert!(piece_picker.pick_piece().is_some());
        piece_picker.received_piece(i);
    }
    assert_eq!(piece_picker.free_count(), 13);

    for _ in 0..3 {
        assert!(piece_picker.pick_piece().is_some());
    }
    assert_eq!(piece_picker.free_count(), 10);

    piece_picker.received_piece(2);
    assert_eq!(piece_picker.free_count(), 10);

    for _ in 0..10 {
        assert!(piece_picker.pick_piece().is_some());
    }
    assert!(piece_picker.all_pieces_picked());
}

#[test]
fn should_determine_interest() {
    let piece_count = 15;
    let mut piece_picker = PiecePicker::empty(piece_count);

    let available_pieces = Bitfield::repeat(true, piece_count);
    assert!(piece_picker.register_peer_pieces(&available_pieces));

    let mut available_pieces = Bitfield::repeat(false, piece_count);
    available_pieces.set(0, true);
    assert!(piece_picker.register_peer_pieces(&available_pieces));

    let piece_count = 15;
    let mut piece_picker = PiecePicker::empty(piece_count);
    for index in 0..8 {
        piece_picker.received_piece(index);
    }

    let mut available_pieces = Bitfield::repeat(false, piece_count);
    for index in 0..8 {
        available_pieces.set(index, true);
    }
    assert!(!piece_picker.register_peer_pieces(&available_pieces));

    let mut available_pieces = Bitfield::repeat(false, piece_count);
    for index in 0..9 {
        available_pieces.set(index, true);
    }
    assert!(piece_picker.register_peer_pieces(&available_pieces));

    let piece_count = 15;
    let mut piece_picker = PiecePicker::empty(piece_count);
    for index in 0..piece_count {
        piece_picker.received_piece(index);
    }
    assert!(!piece_picker.register_peer_pieces(&available_pieces));
}

#[test]
fn picker_counts_stay_consistent() {
    let piece_count = 10;
    let mut picker = PiecePicker::empty(piece_count);
    picker.register_peer_pieces(&Bitfield::repeat(true, piece_count));
    let check = |p: &PiecePicker| {
        let owned = (0..piece_count).filter(|i| p.own_pieces().get(*i)).count();
        assert_eq!(p.missing_piece_count() + owned, piece_count);
        assert!(p.free_count() <= p.missing_piece_count());
    };
    check(&picker);
    picker.pick_piece();
    check(&picker);
    picker.received_piece(5);
    check(&picker);
    picker.received_piece(0);
    check(&picker);
    picker.register_peer_piece(3);
    check(&picker);
}

#[test]
fn picked_piece_is_not_picked_again_until_received() {
    let mut picker = PiecePicker::empty(3);
    assert_eq!(picker.pick_piece(), None);
    picker.register_peer_piece(1);
    assert_eq!(picker.pick_piece(), Some(1));
    assert_eq!(picker.pick_piece(), None);
    picker.register_peer_piece(1);
    assert_eq!(picker.pick_piece(), None);
    assert!(picker.pieces()[1].is_pending);
    assert_eq!(picker.pieces()[1].frequency, 2);
    picker.received_piece(1);
    assert!(!picker.pieces()[1].is_pending);
    assert_eq!(picker.pick_piece(), None);
}

#[test]
fn invalid_piece_can_be_picked_again() {
    let mut picker = PiecePicker::empty(4);
    picker.register_peer_pieces(&Bitfield::repeat(true, 4));
    assert_eq!(picker.pick_piece(), Some(0));
    assert_eq!(picker.free_count(), 3);
    picker.invalid_piece(0);
    assert!(!picker.pieces()[0].is_pending);
    assert_eq!(picker.free_count(), 4);
    assert!(!picker.own_pieces().get(0));
    assert_eq!(picker.pick_piece(), Some(0));
}

#[test]
fn register_peer_piece_reports_interest() {
    let mut picker = PiecePicker::new(Bitfield::repeat(true, 2));
    assert_eq!(picker.missing_piece_count(), 0);
    assert!(picker.all_pieces_picked());
    assert!(!picker.register_peer_piece(0));
    let mut picker = PiecePicker::empty(2);
    assert!(picker.register_peer_piece(1));
    assert_eq!(picker.pieces()[1].frequency, 1);
    assert_eq!(picker.pieces()[0].frequency, 0);
}
