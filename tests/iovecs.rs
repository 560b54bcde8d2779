use cratetorrent::iovecs::{advance, IoVec, IoVecs};

#[test]
fn bounded_split_at_boundary() {
    let data = vec![[0u8; 16], [0u8; 16]];
    let bufs: Vec<_> = data.iter().map(|d| IoVec::from_slice(&d[..])).collect();
    let iov = IoVecs::bounded(bufs, 16);
    assert_eq!(iov.as_slice().len(), 1);
    let tail = iov.into_tail();
    assert_eq!(tail.len(), 1);
}

#[test]
fn bounded_split_within() {
    let data = vec![[1u8; 10], [2u8; 10]];
    let bufs: Vec<_> = data.iter().map(|d| IoVec::from_slice(&d[..])).collect();
    let iov = IoVecs::bounded(bufs, 12);
    let first = iov.as_slice();
    assert_eq!(first.len(), 2);
    assert_eq!(first[1].as_slice().len(), 2);
    let tail = iov.into_tail();
    assert_eq!(tail.len(), 1);
    assert_eq!(tail[0].as_slice().len(), 8);
}

#[test]
fn advance_partial() {
    let data = vec![[0u8; 5], [0u8; 5]];
    let bufs: Vec<_> = data.iter().map(|d| IoVec::from_slice(&d[..])).collect();
    let mut iov = IoVecs::bounded(bufs, 10);
    iov.advance(3);
    assert_eq!(iov.as_slice()[0].as_slice().len(), 2);
}

#[test]
fn advance_mutable() {
    let mut a = [0u8; 4];
    let mut b = [0u8; 4];
    let bufs = vec![
        IoVec::from_mut_slice(&mut a[..]),
        IoVec::from_mut_slice(&mut b[..]),
    ];
    let tail = advance(bufs, 6);
    assert_eq!(tail.len(), 1);
    assert_eq!(tail[0].as_slice().len(), 2);
}

fn concat(bufs: &[IoVec<&[u8]>]) -> Vec<u8> {
    let mut out = Vec::new();
    for b in bufs {
        out.extend_from_slice(b.as_slice());
    }
    out
}

#[test]
fn bounded_head_and_tail_rebuild_the_bytes() {
    let a: Vec<u8> = (0..7).collect();
    let b: Vec<u8> = (7..13).collect();
    let c: Vec<u8> = (13..20).collect();
    let all: Vec<u8> = (0..20).collect();
    for n in 1..=20usize {
        let bufs = vec![IoVec::from_slice(&a[..]), IoVec::from_slice(&b[..]), IoVec::from_slice(&c[..])];
        let iov = IoVecs::bounded(bufs, n);
        let head = concat(iov.as_slice());
        assert_eq!(head.len(), n);
        let tail = iov.into_tail();
        let tail_bytes = concat(&tail);
        assert_eq!(tail_bytes.len(), 20 - n);
        let mut joined = head.clone();
        joined.extend_from_slice(&tail_bytes);
        assert_eq!(joined, all);
    }
}

#[test]
fn bounded_beyond_total_keeps_everything() {
    let a = [1u8; 3];
    let b = [2u8; 4];
    let bufs = vec![IoVec::from_slice(&a[..]), IoVec::from_slice(&b[..])];
    let iov = IoVecs::bounded(bufs, 100);
    assert_eq!(iov.as_slice().len(), 2);
    assert_eq!(iov.into_tail().len(), 0);
}

#[test]
fn unbounded_has_empty_tail() {
    let a = [1u8; 3];
    let bufs = vec![IoVec::from_slice(&a[..])];
    let iov = IoVecs::unbounded(bufs);
    assert_eq!(iov.as_slice().len(), 1);
    assert_eq!(iov.into_tail().len(), 0);
}

#[test]
fn advance_whole_head_keeps_tail() {
    let a: Vec<u8> = (0..4).collect();
    let b: Vec<u8> = (4..10).collect();
    let bufs = vec![IoVec::from_slice(&a[..]), IoVec::from_slice(&b[..])];
    let mut iov = IoVecs::bounded(bufs, 6);
    iov.advance(6);
    assert_eq!(iov.as_slice().len(), 0);
    let tail = iov.into_tail();
    assert_eq!(concat(&tail), vec![6u8, 7, 8, 9]);
}

#[test]
fn advance_across_buffers_and_split() {
    let a: Vec<u8> = (0..4).collect();
    let b: Vec<u8> = (4..10).collect();
    let bufs = vec![IoVec::from_slice(&a[..]), IoVec::from_slice(&b[..])];
    let mut iov = IoVecs::bounded(bufs, 8);
    iov.advance(5);
    assert_eq!(concat(iov.as_slice()), vec![5u8, 6, 7]);
    iov.advance(0);
    assert_eq!(concat(iov.as_slice()), vec![5u8, 6, 7]);
    let tail = iov.into_tail();
    assert_eq!(concat(&tail), vec![8u8, 9]);
}

#[test]
fn advance_mutable_zero_and_exact() {
    let mut a = [1u8; 3];
    let mut b = [2u8; 3];
    let bufs = vec![
        IoVec::from_mut_slice(&mut a[..]),
        IoVec::from_mut_slice(&mut b[..]),
    ];
    let same = advance(bufs, 0);
    assert_eq!(same.len(), 2);
    let rest = advance(same, 3);
    assert_eq!(rest.len(), 1);
    assert_eq!(rest[0].as_slice(), &[2u8, 2, 2][..]);
}
