use cratetorrent::announce::{AnnounceDecision, AnnounceState, Moment};
use cratetorrent::bitfield::Bitfield;
use cratetorrent::conf::{parse_mode, Conf, Mode, TorrentConf};
use cratetorrent::piece_buffer::{piece_matches, PieceBuffer};
use cratetorrent::piece_picker::{PieceCheck, PiecePicker};
use cratetorrent::session::{BlockOutcome, PeerSession};
use cratetorrent::storage::{FileSlice, StorageInfo};
use cratetorrent::tracker::{Event, PeerAddr};

fn write(files: &mut [Vec<u8>], slices: &[FileSlice], data: &[u8]) {
    let mut at = 0;
    for s in slices {
        let off = s.offset as usize;
        let n = s.len as usize;
        files[s.file_index][off..off + n].copy_from_slice(&data[at..at + n]);
        at += n;
    }
}

#[test]
fn single_file_download_from_local_seed() {
    let seed: Vec<u8> = (0..48).collect();
    let info = StorageInfo::new(16, vec![("file".to_string(), 48)]).unwrap();
    let mut picker = PiecePicker::new(Mode::Download { seeds: vec![] }.own_pieces(info.piece_count));
    assert!(picker.register_peer_pieces(&Mode::Seed.own_pieces(info.piece_count)));
    let mut session = PeerSession::new();
    session.set_interest(true);
    session.on_unchoke();
    let mut files = vec![vec![0u8; 48]];
    let mut completed = Vec::new();
    while picker.missing_piece_count() > 0 {
        let requests = session.fill_pipeline(&mut picker, &info);
        assert!(!requests.is_empty());
        let piece_index = requests[0].piece_index;
        let (start, len) = info.piece_range(piece_index);
        let mut buffer = PieceBuffer::new(piece_index, len);
        for r in requests {
            let at = start as usize + r.offset as usize;
            let data = seed[at..at + r.len as usize].to_vec();
            assert!(buffer.add_block(r.offset, data));
            match session.on_block(r) {
                BlockOutcome::PieceDone(i) => completed.push(i),
                BlockOutcome::Accepted => {}
                BlockOutcome::Unexpected => panic!("unexpected block"),
            }
        }
        assert!(buffer.is_complete());
        let bytes = buffer.assemble();
        assert_eq!(bytes, &seed[start as usize..start as usize + len as usize]);
        write(&mut files, &info.file_slices(start, len as u64), &bytes);
        picker.received_piece(piece_index);
    }
    completed.sort();
    assert_eq!(completed, vec![0, 1, 2]);
    assert_eq!(files[0], seed);
    assert!(picker.all_pieces_picked());
}

#[test]
fn hash_mismatch_makes_piece_pickable_again() {
    let mut picker = PiecePicker::empty(2);
    picker.register_peer_pieces(&Bitfield::repeat(true, 2));
    let picked = picker.pick_piece().unwrap();
    assert_eq!(picked, 0);
    let computed = [1u8; 20];
    let expected = [2u8; 20];
    assert!(!piece_matches(&computed, &expected));
    picker.invalid_piece(picked);
    assert!(!picker.pieces()[0].is_pending);
    assert!(!picker.own_pieces().get(0));
    assert_eq!(picker.pick_piece(), Some(0));
    assert!(piece_matches(&expected, &expected));
}

#[test]
fn piece_buffer_rejects_overlaps_and_orders_blocks() {
    let mut b = PieceBuffer::new(4, 10);
    assert!(b.add_block(6, vec![6, 7, 8, 9]));
    assert!(!b.is_complete());
    assert!(!b.add_block(5, vec![0, 0]));
    assert!(!b.add_block(8, vec![0]));
    assert!(!b.add_block(9, vec![0, 0]));
    assert!(!b.add_block(0, vec![]));
    assert!(b.add_block(0, vec![0, 1, 2]));
    assert!(b.add_block(3, vec![3, 4, 5]));
    assert!(b.is_complete());
    assert_eq!(b.assemble(), (0..10).collect::<Vec<u8>>());
    assert_eq!(b.received, 10);
}

#[test]
fn announce_cadence() {
    let mut s = AnnounceState::new(60);
    assert_eq!(s.decide(Moment::Tick { missing_pieces: 3 }), AnnounceDecision::Announce(Some(Event::Started)));
    assert_eq!(s.decide(Moment::Tick { missing_pieces: 3 }), AnnounceDecision::Wait);
    s.elapse(59);
    assert_eq!(s.decide(Moment::Tick { missing_pieces: 3 }), AnnounceDecision::Wait);
    s.elapse(1);
    assert_eq!(s.decide(Moment::Tick { missing_pieces: 2 }), AnnounceDecision::Announce(None));
    assert_eq!(s.since_last_secs, 0);
    assert_eq!(s.decide(Moment::Tick { missing_pieces: 0 }), AnnounceDecision::Announce(Some(Event::Completed)));
    assert_eq!(s.decide(Moment::Tick { missing_pieces: 0 }), AnnounceDecision::Wait);
    s.set_interval(Some(5));
    s.elapse(u64::MAX);
    assert_eq!(s.since_last_secs, u64::MAX);
    assert_eq!(s.decide(Moment::Tick { missing_pieces: 0 }), AnnounceDecision::Announce(None));
    assert_eq!(s.decide(Moment::Shutdown), AnnounceDecision::Announce(Some(Event::Stopped)));
}

#[test]
fn configuration_defaults_and_modes() {
    let conf = Conf::new("/tmp/downloads".to_string());
    assert_eq!(conf.engine.client_id, [0u8; 20]);
    assert_eq!(conf.engine.download_dir, "/tmp/downloads");
    let t = TorrentConf::default();
    assert_eq!(t.min_requested_peer_count, 10);
    assert_eq!(t.max_connected_peer_count, 50);
    assert_eq!(t.announce_interval_secs, 3600);
    assert_eq!(t.tracker_error_threshold, 15);
    assert!(!t.alerts.completed_pieces && !t.alerts.peers);
    assert!(matches!(parse_mode("seed"), Mode::Seed));
    assert!(matches!(parse_mode("download"), Mode::Download { .. }));
    assert!(matches!(parse_mode("seeds"), Mode::Download { .. }));
    let peer = PeerAddr { ip: 0x7f000001, port: 6881 };
    assert_eq!(Mode::Download { seeds: vec![peer] }.seeds(), vec![peer]);
    assert!(Mode::Seed.seeds().is_empty());
    assert!(Mode::Seed.own_pieces(3).get(2));
    assert!(Mode::Download { seeds: vec![] }.own_pieces(3).not_any());
}

#[test]
fn checked_piece_is_had_only_when_digest_matches() {
    let mut picker = PiecePicker::empty(3);
    picker.register_peer_pieces(&Bitfield::repeat(true, 3));
    assert_eq!(picker.pick_piece(), Some(0));
    assert_eq!(picker.piece_checked(0, &[1u8; 20], &[2u8; 20]), PieceCheck::Invalid(0));
    assert!(!picker.own_pieces().get(0));
    assert_eq!(picker.missing_piece_count(), 3);
    assert!(!picker.pieces()[0].is_pending);
    assert_eq!(picker.pick_piece(), Some(0));
    assert_eq!(picker.piece_checked(0, &[2u8; 20], &[2u8; 20]), PieceCheck::Completed(0));
    assert!(picker.own_pieces().get(0));
    assert_eq!(picker.missing_piece_count(), 2);
}

#[test]
fn piece_check_hashes_the_assembled_bytes() {
    let abc_sha1 = [
        0xa9, 0x99, 0x3e, 0x36, 0x47, 0x06, 0x81, 0x6a, 0xba, 0x3e, 0x25, 0x71, 0x78, 0x50, 0xc2, 0x6c, 0x9c,
        0xd0, 0xd8, 0x9d,
    ];
    let mut picker = PiecePicker::empty(1);
    picker.register_peer_piece(0);
    assert_eq!(picker.pick_piece(), Some(0));
    let mut buf = PieceBuffer::new(0, 3);
    assert!(buf.add_block(1, b"bc".to_vec()));
    assert!(buf.add_block(0, b"a".to_vec()));
    let (outcome, bytes) = buf.check(&mut picker, &[0u8; 20]);
    assert_eq!(outcome, PieceCheck::Invalid(0));
    assert_eq!(bytes, b"abc".to_vec());
    assert!(!picker.own_pieces().get(0));
    assert_eq!(picker.pick_piece(), Some(0));
    let (outcome, _) = buf.check(&mut picker, &abc_sha1);
    assert_eq!(outcome, PieceCheck::Completed(0));
    assert_eq!(picker.missing_piece_count(), 0);
}
