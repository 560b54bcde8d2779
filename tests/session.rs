use cratetorrent::piece_picker::PiecePicker;
use cratetorrent::session::{BlockOutcome, PeerSession, PIPELINE_TARGET};
use cratetorrent::storage::StorageInfo;
use cratetorrent::BlockInfo;

fn one_big_piece() -> (StorageInfo, PiecePicker) {
    let info = StorageInfo::new(8 * 16384, vec![("f".to_string(), 8 * 16384)]).unwrap();
    let mut picker = PiecePicker::empty(info.piece_count);
    picker.register_peer_piece(0);
    (info, picker)
}

#[test]
fn new_session_flags() {
    let s = PeerSession::new();
    assert!(s.am_choking && !s.am_interested && s.peer_choking && !s.peer_interested);
    assert_eq!(s.outstanding_count(), 0);
}

#[test]
fn choke_unchoke_pipeline() {
    let (info, mut picker) = one_big_piece();
    let mut s = PeerSession::new();
    assert!(s.set_interest(true));
    assert!(!s.set_interest(true));
    assert!(s.fill_pipeline(&mut picker, &info).is_empty());
    s.on_unchoke();
    let sent = s.fill_pipeline(&mut picker, &info);
    assert_eq!(PIPELINE_TARGET, 4);
    assert_eq!(sent.len(), 4);
    assert_eq!(s.outstanding_count(), 4);
    for (k, b) in sent.iter().enumerate() {
        assert_eq!(*b, BlockInfo { piece_index: 0, offset: 16384 * k as u32, len: 16384 });
    }
    assert!(s.fill_pipeline(&mut picker, &info).is_empty());

    s.on_choke();
    assert!(s.peer_choking);
    assert_eq!(s.outstanding_count(), 0);
    assert!(s.fill_pipeline(&mut picker, &info).is_empty());

    s.on_unchoke();
    let again = s.fill_pipeline(&mut picker, &info);
    assert_eq!(again, sent);
    assert_eq!(s.outstanding_count(), 4);
}

#[test]
fn blocks_complete_the_piece() {
    let info = StorageInfo::new(20000, vec![("f".to_string(), 20000)]).unwrap();
    let mut picker = PiecePicker::empty(1);
    picker.register_peer_piece(0);
    let mut s = PeerSession::new();
    s.set_interest(true);
    s.on_unchoke();
    let sent = s.fill_pipeline(&mut picker, &info);
    assert_eq!(
        sent,
        vec![
            BlockInfo { piece_index: 0, offset: 0, len: 16384 },
            BlockInfo { piece_index: 0, offset: 16384, len: 3616 },
        ]
    );
    let stray = BlockInfo { piece_index: 0, offset: 5, len: 1 };
    assert_eq!(s.on_block(stray), BlockOutcome::Unexpected);
    assert_eq!(s.on_block(sent[1]), BlockOutcome::Accepted);
    assert_eq!(s.on_block(sent[0]), BlockOutcome::PieceDone(0));
    assert_eq!(s.outstanding_count(), 0);
    assert!(s.download.is_none());
}

#[test]
fn nothing_to_pick_sends_nothing() {
    let info = StorageInfo::new(16, vec![("f".to_string(), 48)]).unwrap();
    let mut picker = PiecePicker::empty(3);
    let mut s = PeerSession::new();
    s.set_interest(true);
    s.on_unchoke();
    assert!(s.fill_pipeline(&mut picker, &info).is_empty());
    assert!(s.download.is_none());
}

#[test]
fn bitfield_and_have_set_interest() {
    let mut picker = PiecePicker::empty(10);
    picker.received_piece(0);
    let mut s = PeerSession::new();
    assert_eq!(s.on_bitfield(&mut picker, &[0b1000_0000]), None);
    assert_eq!(s.on_bitfield(&mut picker, &[0b1000_0000, 0b0000_0000]), Some(false));
    assert!(!s.am_interested);
    assert_eq!(picker.pieces()[0].frequency, 1);
    assert_eq!(s.on_bitfield(&mut picker, &[0b0000_0000, 0b0111_1111]), None);
    let mut s = PeerSession::new();
    assert_eq!(s.on_bitfield(&mut picker, &[0b0000_0000, 0b0111_1111]), Some(true));
    assert!(s.am_interested);
    assert_eq!(picker.pieces()[9].frequency, 1);
    assert!(!s.on_have(&mut picker, 3));
    assert_eq!(picker.pieces()[3].frequency, 1);

    let mut picker = PiecePicker::empty(3);
    let mut s = PeerSession::new();
    assert!(s.on_have(&mut picker, 2));
    assert!(s.am_interested);
}

#[test]
fn bitfield_after_another_message_is_refused() {
    let mut picker = PiecePicker::empty(8);
    let mut s = PeerSession::new();
    s.on_unchoke();
    assert_eq!(s.on_bitfield(&mut picker, &[0xff]), None);
    assert_eq!(picker.pieces()[0].frequency, 0);
}

#[test]
fn requests_are_served_unless_choked_or_cancelled() {
    let mut s = PeerSession::new();
    let a = BlockInfo { piece_index: 0, offset: 0, len: 16384 };
    let b = BlockInfo { piece_index: 0, offset: 16384, len: 16384 };
    assert!(!s.on_request(a));
    assert!(s.to_serve.is_empty());
    s.am_choking = false;
    assert!(s.on_request(a));
    assert!(s.on_request(b));
    assert!(s.on_cancel(a));
    assert!(!s.on_cancel(a));
    assert!(!s.on_served(a));
    assert!(s.on_served(b));
    assert!(s.to_serve.is_empty());
    s.on_peer_interest(true);
    assert!(s.peer_interested);
}

#[test]
fn fresh_piece_fills_exactly_four() {
    let (info, mut picker) = one_big_piece();
    let mut s = PeerSession::new();
    s.set_interest(true);
    s.on_unchoke();
    let sent = s.fill_pipeline(&mut picker, &info);
    assert_eq!(sent.len(), 4);
    assert!(picker.pieces()[0].is_pending);
    assert_eq!(s.on_block(sent[2]), BlockOutcome::Accepted);
    let more = s.fill_pipeline(&mut picker, &info);
    assert_eq!(more, vec![BlockInfo { piece_index: 0, offset: 4 * 16384, len: 16384 }]);
    assert_eq!(s.outstanding_count(), 4);
}
