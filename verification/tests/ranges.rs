use blocked_vec::{BlockedVec, Layout, SeekFrom};
use std::ops::Bound::{Excluded, Included, Unbounded};
use std::ops::Bound;

fn discrete() -> BlockedVec {
    let layout = Layout::from_size_align(4, 1).unwrap();
    let mut vec = BlockedVec::with_len_paged(4, layout);
    vec.append(&[1; 4]);
    vec.append(&[2; 4]);
    vec.append(&[3; 4]);
    vec
}

fn collect(vec: &BlockedVec, start: Bound<usize>, end: Bound<usize>) -> Vec<Vec<u8>> {
    let mut range = vec.range(start, end);
    let mut out = Vec::new();
    while let Some(part) = range.next() {
        out.push(part.to_vec());
    }
    assert_eq!(range.next(), None);
    out
}

#[test]
fn range_of_one_block() {
    let layout = Layout::from_size_align(4, 1).unwrap();
    let vec = BlockedVec::with_len_paged(16, layout);
    let mut range = vec.range(Included(7), Excluded(14));
    assert_eq!(range.next(), Some(&[0u8; 7] as &[u8]));
    assert_eq!(range.next(), None);
}

#[test]
fn range_of_many_blocks() {
    let vec = discrete();
    let mut range = vec.range(Included(7), Excluded(14));
    assert_eq!(range.next(), Some(&[1u8; 1] as &[u8]));
    assert_eq!(range.next(), Some(&[2u8; 4] as &[u8]));
    assert_eq!(range.next(), Some(&[3u8; 2] as &[u8]));
    assert_eq!(range.next(), None);
}

#[test]
fn range_mut_of_one_block() {
    let layout = Layout::from_size_align(4, 1).unwrap();
    let mut vec = BlockedVec::with_len_paged(16, layout);
    let mut range = vec.range_mut(Included(7), Excluded(14));
    assert_eq!(range.next(), Some(&mut [0u8; 7] as &mut [u8]));
    assert_eq!(range.next(), None);
}

#[test]
fn range_mut_of_many_blocks() {
    let mut vec = discrete();
    let mut range = vec.range_mut(Included(7), Excluded(14));
    assert_eq!(range.next(), Some(&mut [1u8; 1] as &mut [u8]));
    assert_eq!(range.next(), Some(&mut [2u8; 4] as &mut [u8]));
    assert_eq!(range.next(), Some(&mut [3u8; 2] as &mut [u8]));
    assert_eq!(range.next(), None);
}

#[test]
fn range_bounds() {
    let layout = Layout::from_size_align(4, 1).unwrap();
    let mut vec = BlockedVec::new_paged(layout);
    vec.append(&[1, 2, 3, 4]);
    vec.append(&[5, 6, 7]);
    assert_eq!(
        collect(&vec, Unbounded, Unbounded),
        [vec![1, 2, 3, 4], vec![5, 6, 7]]
    );
    assert_eq!(
        collect(&vec, Excluded(1), Included(4)),
        [vec![3, 4], vec![5]]
    );
    assert_eq!(collect(&vec, Included(2), Included(2)), [vec![3]]);
    assert_eq!(collect(&vec, Included(4), Excluded(5)), [vec![5]]);
    assert_eq!(collect(&vec, Included(6), Unbounded), [vec![7]]);
    assert_eq!(collect(&vec, Included(0), Excluded(99)).concat().len(), 7);
    let none: [Vec<u8>; 0] = [];
    assert_eq!(collect(&vec, Included(7), Unbounded), none);
    assert_eq!(collect(&vec, Included(9), Included(99)), none);
    assert_eq!(collect(&vec, Included(3), Excluded(3)), none);
    assert_eq!(collect(&vec, Included(5), Excluded(2)), none);
    assert_eq!(collect(&vec, Unbounded, Excluded(0)), none);
    assert_eq!(collect(&vec, Excluded(usize::MAX), Unbounded), none);
}

#[test]
fn ranges_hold_the_bytes() {
    let layout = Layout::from_size_align(4, 1).unwrap();
    let mut vec = BlockedVec::new_paged(layout);
    vec.append(&[1, 2, 3, 4]);
    vec.append(&[5, 6, 7]);
    vec.append(&[8, 9, 10, 11, 12, 13]);
    let all = vec.bytes();
    for lo in 0..15 {
        for hi in 0..15 {
            let part: &[u8] = if lo < hi.min(13) {
                &all[lo..hi.min(13)]
            } else {
                &[]
            };
            let parts = collect(&vec, Included(lo), Excluded(hi));
            assert_eq!(parts.concat(), part);
            assert!(parts.iter().all(|part| !part.is_empty()));
        }
    }
}

#[test]
fn range_of_nothing() {
    let layout = Layout::from_size_align(4, 1).unwrap();
    let mut vec = BlockedVec::new_paged(layout);
    assert_eq!(vec.range(Unbounded, Unbounded).next(), None);
    assert_eq!(vec.range_mut(Unbounded, Unbounded).next(), None);
    assert_eq!(vec.range(Unbounded, Unbounded).size_hint(), (0, Some(0)));
    vec.append(&[1]);
    vec.truncate(0);
    assert_eq!(vec.range(Included(0), Unbounded).next(), None);
    assert_eq!(vec.range(Included(0), Included(3)).next(), None);
    assert_eq!(vec.range_mut(Included(0), Unbounded).next(), None);
}

#[test]
fn range_size_hints() {
    let mut vec = discrete();
    let mut range = vec.range(Included(5), Excluded(14));
    assert_eq!(range.size_hint(), (1, Some(2)));
    range.next();
    assert_eq!(range.size_hint(), (0, Some(1)));
    range.next();
    assert_eq!(range.size_hint(), (0, Some(0)));
    let range = vec.range_mut(Included(0), Excluded(99));
    assert_eq!(range.size_hint(), (3, Some(4)));
}

#[test]
fn range_size_hints_and_slices() {
    let vec = discrete();
    for lo in 0..16 {
        for hi in lo + 1..20 {
            let range = vec.range(Included(lo), Excluded(hi));
            let (lower, upper) = range.size_hint();
            let n = collect(&vec, Included(lo), Excluded(hi)).len();
            assert!(lower <= n);
            assert!(upper == Some(n) || upper == Some(n - 1));
        }
    }
}

#[test]
fn range_mut_writes_through() {
    let mut vec = discrete();
    let mut value = 10;
    let mut range = vec.range_mut(Included(7), Excluded(14));
    while let Some(part) = range.next() {
        for byte in part {
            *byte = value;
            value += 1;
        }
    }
    assert_eq!(
        vec.bytes(),
        [0, 0, 0, 0, 1, 1, 1, 10, 11, 12, 13, 14, 15, 16, 3, 3]
    );
}

#[test]
fn iter_gives_the_blocks() {
    let vec = discrete();
    let mut iter = vec.iter();
    assert_eq!(iter.size_hint(), (4, Some(4)));
    for i in 0u8..4 {
        assert_eq!(iter.next(), Some(&[i; 4] as &[u8]));
    }
    assert_eq!(iter.size_hint(), (0, Some(0)));
    assert_eq!(iter.next(), None);
    assert_eq!(iter.next(), None);
}

#[test]
fn iter_mut_writes_through() {
    let mut vec = discrete();
    vec.seek(SeekFrom::Start(5));
    let mut iter = vec.iter_mut();
    iter.next().unwrap()[3] = 9;
    iter.next().unwrap()[0] = 8;
    iter.next();
    iter.next().unwrap()[3] = 7;
    assert_eq!(iter.next(), None);
    assert_eq!(
        vec.bytes(),
        [0, 0, 0, 9, 8, 1, 1, 1, 2, 2, 2, 2, 3, 3, 3, 7]
    );
    assert_eq!(vec.seek(SeekFrom::Current(0)), Some(5));
}
