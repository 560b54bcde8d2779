use cratetorrent::iovecs::{IoVec, IoVecs};
use cratetorrent::storage::{FileSlice, StorageInfo};

fn two_files() -> StorageInfo {
    StorageInfo::new(16, vec![("a".to_string(), 10), ("b".to_string(), 22)]).unwrap()
}

#[test]
fn piece_spanning_two_files() {
    let info = two_files();
    assert_eq!(info.piece_count, 2);
    assert_eq!(info.last_piece_len, 16);
    assert_eq!(info.total_len, 32);
    assert_eq!(info.files[1].torrent_offset, 10);
    let (start, len) = info.piece_range(0);
    assert_eq!((start, len), (0, 16));
    assert_eq!(
        info.file_slices(start, len as u64),
        vec![
            FileSlice { file_index: 0, offset: 0, len: 10 },
            FileSlice { file_index: 1, offset: 0, len: 6 },
        ]
    );
    let (start, len) = info.piece_range(1);
    assert_eq!((start, len), (16, 16));
    assert_eq!(
        info.file_slices(start, len as u64),
        vec![FileSlice { file_index: 1, offset: 6, len: 16 }]
    );
}

#[test]
fn writing_a_piece_through_a_bounded_view() {
    let piece: Vec<u8> = (0..16).collect();
    let block_a = &piece[..8];
    let block_b = &piece[8..];
    let bufs = vec![IoVec::from_slice(block_a), IoVec::from_slice(block_b)];
    let view = IoVecs::bounded(bufs, 10);
    let head_len: usize = view.as_slice().iter().map(|b| b.as_slice().len()).sum();
    assert_eq!(head_len, 10);
    let tail = view.into_tail();
    assert_eq!(tail.len(), 1);
    assert_eq!(tail[0].as_slice(), &piece[10..]);
    assert_eq!(tail[0].as_slice().as_ptr(), piece[10..].as_ptr());
}

fn write_piece(files: &mut [Vec<u8>], slices: &[FileSlice], data: &[u8]) {
    let mut at = 0;
    for s in slices {
        let f = &mut files[s.file_index];
        let off = s.offset as usize;
        f[off..off + s.len as usize].copy_from_slice(&data[at..at + s.len as usize]);
        at += s.len as usize;
    }
}

fn read_piece(files: &[Vec<u8>], slices: &[FileSlice]) -> Vec<u8> {
    let mut out = Vec::new();
    for s in slices {
        let off = s.offset as usize;
        out.extend_from_slice(&files[s.file_index][off..off + s.len as usize]);
    }
    out
}

#[test]
fn written_pieces_read_back_identical() {
    let info = two_files();
    let expected: Vec<u8> = (100..132).collect();
    let mut files = vec![vec![0u8; 10], vec![0u8; 22]];
    for p in 0..info.piece_count {
        let (start, len) = info.piece_range(p);
        let slices = info.file_slices(start, len as u64);
        let data = &expected[start as usize..start as usize + len as usize];
        write_piece(&mut files, &slices, data);
        assert_eq!(read_piece(&files, &slices), data);
    }
    let mut whole = files[0].clone();
    whole.extend_from_slice(&files[1]);
    assert_eq!(whole, expected);
}

#[test]
fn single_file_three_pieces() {
    let info = StorageInfo::new(16, vec![("f".to_string(), 48)]).unwrap();
    assert_eq!(info.piece_count, 3);
    for p in 0..3 {
        let (start, len) = info.piece_range(p);
        assert_eq!(
            info.file_slices(start, len as u64),
            vec![FileSlice { file_index: 0, offset: 16 * p as u64, len: 16 }]
        );
    }
}

#[test]
fn short_last_piece_and_empty_files() {
    let info = StorageInfo::new(
        8,
        vec![("x".to_string(), 5), ("empty".to_string(), 0), ("y".to_string(), 6)],
    )
    .unwrap();
    assert_eq!(info.piece_count, 2);
    assert_eq!(info.last_piece_len, 3);
    assert_eq!(info.piece_range(1), (8, 3));
    assert_eq!(
        info.file_slices(0, 8),
        vec![
            FileSlice { file_index: 0, offset: 0, len: 5 },
            FileSlice { file_index: 2, offset: 0, len: 3 },
        ]
    );
}

#[test]
fn no_layout_without_bytes_or_piece_length() {
    assert!(StorageInfo::new(0, vec![("x".to_string(), 5)]).is_none());
    assert!(StorageInfo::new(16, vec![]).is_none());
    assert!(StorageInfo::new(16, vec![("x".to_string(), 0)]).is_none());
    assert!(StorageInfo::new(16, vec![("x".to_string(), u64::MAX), ("y".to_string(), 1)]).is_none());
}
