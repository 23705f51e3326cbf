use blocked_vec::{BlockedVec, Layout, SeekFrom};

fn pages() -> Layout {
    Layout::from_size_align(4, 1).unwrap()
}

fn sample() -> BlockedVec {
    let mut vec = BlockedVec::new_paged(pages());
    vec.append(&[1, 2, 3, 4]);
    vec.append(&[5, 6, 7]);
    vec
}

fn blocks(vec: &BlockedVec) -> Vec<Vec<u8>> {
    let mut iter = vec.iter();
    let mut out = Vec::new();
    while let Some(block) = iter.next() {
        out.push(block.to_vec());
    }
    out
}

#[test]
fn write_at_is_seek_and_write() {
    for here in [0, 3, 7, 9] {
        for at in 0..12 {
            let mut a = sample();
            a.seek(SeekFrom::Start(here));
            a.write_at(at, &[11, 12, 13]);
            let mut b = sample();
            b.seek(SeekFrom::Start(at));
            b.write(&[11, 12, 13]);
            b.seek(SeekFrom::Start(here));
            assert_eq!(blocks(&a), blocks(&b));
            assert_eq!(a.seek(SeekFrom::Current(0)), Some(here));
            assert_eq!(b.seek(SeekFrom::Current(0)), Some(here));
        }
    }
}

#[test]
fn read_at_is_seek_and_read() {
    let mut vec = sample();
    for at in 0..10 {
        let mut a = [0; 4];
        let mut b = [0; 4];
        let n = vec.read_at(at, &mut a);
        vec.seek(SeekFrom::Start(at));
        assert_eq!(vec.read(&mut b), n);
        assert_eq!(a, b);
    }
}

#[test]
fn write_keeps_the_rest() {
    for at in 0..12usize {
        let mut vec = sample();
        vec.write_at(at, &[9, 9]);
        let before = sample().bytes();
        let after = vec.bytes();
        assert_eq!(after.len(), before.len().max(at + 2));
        for (i, byte) in after.iter().enumerate() {
            if at <= i && i < at + 2 {
                assert_eq!(*byte, 9);
            } else if i < before.len() {
                assert_eq!(*byte, before[i]);
            } else {
                assert_eq!(*byte, 0);
            }
        }
    }
}

#[test]
fn write_inside_keeps_the_blocks() {
    let mut vec = sample();
    vec.write_at(2, &[9; 5]);
    assert_eq!(blocks(&vec), [vec![1, 2, 9, 9], vec![9, 9, 9]]);
}

#[test]
fn truncate_undoes_append() {
    for n in 0..9 {
        let mut vec = sample();
        vec.append(&vec![9; n]);
        vec.truncate(7);
        assert_eq!(blocks(&vec), blocks(&sample()));
    }
}

#[test]
fn extend_from_empty() {
    let mut a = BlockedVec::new_paged(pages());
    a.extend(6);
    let mut b = BlockedVec::with_len_paged(6, pages());
    assert_eq!(blocks(&a), blocks(&b));
    assert_eq!(
        a.seek(SeekFrom::Current(0)),
        b.seek(SeekFrom::Current(0))
    );
}

#[test]
fn seek_there_and_back() {
    let mut vec = sample();
    vec.seek(SeekFrom::Start(2));
    assert_eq!(vec.seek(SeekFrom::Current(7)), Some(9));
    assert_eq!(vec.seek(SeekFrom::Current(-7)), Some(2));
    assert_eq!(vec.bytes(), sample().bytes());
}

#[test]
fn blocks_hold_the_bytes() {
    let vec = sample();
    assert_eq!(blocks(&vec).concat(), vec.bytes());
}

#[test]
fn buffers_are_filled_in_order() {
    let vec = sample();
    let mut one = [9; 8];
    assert_eq!(vec.read_at(1, &mut one), 6);
    let mut a = [9; 1];
    let mut b = [9; 0];
    let mut c = [9; 5];
    let mut d = [9; 2];
    let n = vec.read_at_vectored(1, &mut [&mut a, &mut b, &mut c, &mut d]);
    assert_eq!(n, 6);
    assert_eq!([&a[..], &b[..], &c[..], &d[..]].concat(), one);
}

#[test]
fn append_in_turn() {
    let pieces: [&[u8]; 4] = [&[8], &[], &[9, 10, 11], &[12]];
    let mut a = sample();
    a.seek(SeekFrom::Start(2));
    assert_eq!(a.append_vectored(&mut { pieces }), 5);
    let mut b = sample();
    for piece in pieces {
        b.append(piece);
    }
    assert_eq!(a.bytes(), [1, 2, 3, 4, 5, 6, 7, 8, 9, 10, 11, 12]);
    assert_eq!(b.bytes(), a.bytes());
    assert_eq!(
        a.seek(SeekFrom::Current(0)),
        b.seek(SeekFrom::Current(0))
    );
}

#[test]
fn write_in_turn() {
    let pieces: [&[u8]; 4] = [&[], &[18], &[19, 20, 21], &[22]];
    for at in 0..10 {
        let mut a = sample();
        a.seek(SeekFrom::Start(at));
        assert_eq!(a.write_vectored(&mut { pieces }), 5);
        let mut b = sample();
        b.seek(SeekFrom::Start(at));
        for piece in pieces {
            b.write(piece);
        }
        assert_eq!(a.bytes(), b.bytes());
        assert_eq!(
            a.seek(SeekFrom::Current(0)),
            b.seek(SeekFrom::Current(0))
        );
    }
}

#[test]
fn write_at_replaces() {
    let mut vec = sample();
    vec.seek(SeekFrom::Start(7));
    assert_eq!(vec.write_at(6, &[8, 9]), 2);
    assert_eq!(vec.bytes(), [1, 2, 3, 4, 5, 6, 8, 9]);
    assert_eq!(vec.seek(SeekFrom::Current(0)), Some(7));
    let mut buf = [0; 2];
    assert_eq!(vec.read_at(6, &mut buf), 2);
    assert_eq!(buf, [8, 9]);
}
