use blocked_vec::{BlockedVec, Layout, LayoutError, SeekFrom};

fn pages() -> Layout {
    Layout::from_size_align(4, 1).unwrap()
}

fn filled(bytes: &[u8]) -> BlockedVec {
    let mut vec = BlockedVec::new_paged(pages());
    vec.append(bytes);
    vec
}

fn blocks(vec: &BlockedVec) -> Vec<Vec<u8>> {
    let mut iter = vec.iter();
    let mut out = Vec::new();
    while let Some(block) = iter.next() {
        out.push(block.to_vec());
    }
    out
}

fn position(vec: &mut BlockedVec) -> Option<usize> {
    vec.seek(SeekFrom::Current(0))
}

fn test_inner() -> Option<()> {
    let layout = Layout::from_size_align(4, 1).unwrap();
    let mut vec = BlockedVec::new_paged(layout);
    vec.append(&[1, 2, 3, 4, 5]);
    vec.seek(SeekFrom::Start(3))?;
    assert_eq!(vec.write(&[6, 7, 8, 9, 10]), 5);
    vec.seek(SeekFrom::End(-3))?;
    assert_eq!(vec.write(&[11, 12, 13, 14, 15]), 5);
    vec.seek(SeekFrom::Current(-7))?;
    vec.seek(SeekFrom::Current(1))?;
    assert_eq!(vec.write(&[16, 17, 18, 19, 20]), 5);
    vec.seek(SeekFrom::End(3))?;
    assert_eq!(vec.write(&[21, 22, 23, 24, 25]), 5);
    vec.resize(6);
    vec.seek(SeekFrom::Current(-3))?;
    vec.resize(12);
    vec.append(&[26, 27, 28, 29, 30]);

    assert_eq!(vec.seek(SeekFrom::Start(0)), Some(0));
    let mut buf = [0; 17];
    assert_eq!(vec.read(&mut buf), 17);
    assert_eq!(
        buf,
        [1, 2, 3, 6, 16, 17, 0, 0, 0, 0, 0, 0, 26, 27, 28, 29, 30]
    );
    Some(())
}

#[test]
fn test() {
    test_inner().expect("Failed to seek")
}

#[test]
fn new_takes_the_page_size_of_the_machine() {
    let mut vec = BlockedVec::new().unwrap();
    assert!(vec.is_empty());
    assert_eq!(vec.append(&[1, 2, 3]), 3);
    assert_eq!(vec.bytes(), [1, 2, 3]);
    // The rest of the page is there to be filled before there is another block.
    vec.resize(page_size::get());
    assert_eq!(blocks(&vec).len(), 1);
    vec.resize(page_size::get() + 1);
    assert_eq!(blocks(&vec).len(), 2);
}

#[test]
fn with_len_takes_the_page_size_of_the_machine() {
    let mut vec = BlockedVec::with_len(page_size::get() - 1).unwrap();
    assert_eq!(vec.len(), page_size::get() - 1);
    assert_eq!(position(&mut vec), Some(0));
    vec.append(&[1]);
    assert_eq!(blocks(&vec).len(), 1);
    vec.append(&[2]);
    assert_eq!(blocks(&vec).len(), 2);
}

#[test]
fn page_sizes_that_make_no_layout() {
    assert_eq!(BlockedVec::with_page_size(0).err(), Some(LayoutError));
    assert_eq!(BlockedVec::with_page_size(12).err(), Some(LayoutError));
    assert!(BlockedVec::with_page_size(8).is_ok());
    assert_eq!(
        BlockedVec::with_len_and_page_size(1, 12).err(),
        Some(LayoutError)
    );
    assert_eq!(
        BlockedVec::with_len_and_page_size(usize::MAX, 8).err(),
        Some(LayoutError)
    );
    let vec = BlockedVec::with_len_and_page_size(9, 8).unwrap();
    assert_eq!(blocks(&vec), [vec![0; 9]]);
}

#[test]
fn with_len_places_the_cursor_at_the_front() {
    let mut vec = BlockedVec::with_len_paged(6, pages());
    assert_eq!((vec.len(), vec.is_empty()), (6, false));
    assert_eq!(position(&mut vec), Some(0));
    assert_eq!(vec.write(&[1, 2]), 2);
    assert_eq!(vec.bytes(), [1, 2, 0, 0, 0, 0]);
    assert!(BlockedVec::with_len_paged(0, pages()).is_empty());
}

#[test]
fn nothing_stored_yet() {
    let mut vec = BlockedVec::new_paged(pages());
    let mut buf = [7; 2];
    assert_eq!(vec.write(&[1]), 0);
    assert_eq!(vec.write_at(0, &[1]), 0);
    assert_eq!(vec.read(&mut buf), 0);
    assert_eq!(vec.read_at(0, &mut buf), 0);
    assert_eq!(buf, [7; 2]);
    assert_eq!(vec.seek(SeekFrom::End(0)), Some(0));
    assert_eq!(vec.seek(SeekFrom::Start(0)), None);
    assert_eq!(vec.seek(SeekFrom::Current(0)), None);
    assert_eq!(vec.seek(SeekFrom::End(1)), None);
    assert_eq!(vec.append(&[]), 0);
    assert_eq!(vec.seek(SeekFrom::Start(0)), None);
    assert!(!vec.truncate(0));
    assert_eq!(vec.bytes(), [0u8; 0]);
    vec.extend(3);
    assert_eq!(position(&mut vec), Some(0));
    assert_eq!(vec.bytes(), [0; 3]);
}

#[test]
fn append_fills_up_the_last_block() {
    let mut vec = filled(&[1, 2, 3]);
    assert_eq!(vec.append(&[4, 5, 6]), 3);
    assert_eq!(blocks(&vec), [vec![1, 2, 3, 4], vec![5, 6]]);
    assert_eq!(vec.append(&[7, 8]), 2);
    assert_eq!(blocks(&vec), [vec![1, 2, 3, 4], vec![5, 6, 7, 8]]);
    assert_eq!(vec.append(&[9]), 1);
    assert_eq!(blocks(&vec), [vec![1, 2, 3, 4], vec![5, 6, 7, 8], vec![9]]);
    assert_eq!(position(&mut vec), Some(9));
}

#[test]
fn append_moves_the_cursor_to_the_end() {
    let mut vec = filled(&[1, 2, 3]);
    vec.seek(SeekFrom::Start(10));
    assert_eq!(vec.append(&[4]), 1);
    assert_eq!(vec.bytes(), [1, 2, 3, 4]);
    assert_eq!(position(&mut vec), Some(4));
    vec.seek(SeekFrom::Start(0));
    assert_eq!(vec.append(&[]), 0);
    assert_eq!(position(&mut vec), Some(4));
}

#[test]
fn appending_twice_is_appending_both() {
    let mut a = filled(&[1]);
    a.append(&[2, 3]);
    a.append(&[4, 5, 6]);
    let mut b = filled(&[1]);
    b.append(&[2, 3, 4, 5, 6]);
    assert_eq!(a.bytes(), b.bytes());
    assert_eq!(position(&mut a), position(&mut b));
}

#[test]
fn append_vectored_takes_all() {
    let mut vec = filled(&[1, 2]);
    let mut bufs: [&[u8]; 3] = [&[3, 4, 5], &[], &[6, 7]];
    assert_eq!(vec.append_vectored(&mut bufs), 5);
    assert_eq!(blocks(&vec), [vec![1, 2, 3, 4], vec![5, 6, 7]]);
    // The first buffer reached into the new block.
    assert_eq!(bufs, [&[5u8] as &[u8], &[], &[6, 7]]);
}

#[test]
fn reads_back_what_was_written() {
    let mut vec = BlockedVec::with_len_paged(3, pages());
    vec.append(&[0; 6]);
    vec.seek(SeekFrom::Start(2));
    assert_eq!(vec.write(&[1, 2, 3, 4, 5]), 5);
    assert_eq!(position(&mut vec), Some(7));
    let mut buf = [0; 5];
    assert_eq!(vec.read_at(2, &mut buf), 5);
    assert_eq!(buf, [1, 2, 3, 4, 5]);
    vec.seek(SeekFrom::Current(-5));
    let mut buf = [0; 5];
    assert_eq!(vec.read(&mut buf), 5);
    assert_eq!(buf, [1, 2, 3, 4, 5]);
    assert_eq!(vec.bytes(), [0, 0, 1, 2, 3, 4, 5, 0, 0]);
    assert_eq!(blocks(&vec), [vec![0, 0, 1, 2], vec![3, 4, 5, 0, 0]]);
}

#[test]
fn write_grows_at_the_end() {
    let mut vec = filled(&[1, 2, 3]);
    vec.seek(SeekFrom::Start(2));
    assert_eq!(vec.write(&[4, 5, 6, 7]), 4);
    assert_eq!(blocks(&vec), [vec![1, 2, 4, 5], vec![6, 7]]);
    assert_eq!(position(&mut vec), Some(6));
}

#[test]
fn write_behind_the_end_fills_with_zeros() {
    let mut vec = filled(&[1]);
    assert_eq!(vec.seek(SeekFrom::Start(7)), Some(7));
    assert_eq!(vec.len(), 1);
    assert_eq!(vec.write(&[2, 3]), 2);
    assert_eq!(vec.bytes(), [1, 0, 0, 0, 0, 0, 0, 2, 3]);
    assert_eq!(blocks(&vec), [vec![1, 0, 0, 0], vec![0, 0, 0, 2, 3]]);
    assert_eq!(position(&mut vec), Some(9));

    let mut vec = filled(&[1]);
    vec.seek(SeekFrom::End(1));
    assert_eq!(vec.write(&[2]), 1);
    assert_eq!(blocks(&vec), [vec![1, 0, 2]]);
    vec.seek(SeekFrom::End(2));
    assert_eq!(vec.write(&[]), 0);
    assert_eq!(vec.bytes(), [1, 0, 2, 0, 0]);
}

#[test]
fn writing_twice_is_writing_both() {
    let mut a = filled(&[9; 5]);
    a.seek(SeekFrom::Start(3));
    a.write(&[1, 2]);
    a.write(&[3, 4, 5]);
    let mut b = filled(&[9; 5]);
    b.seek(SeekFrom::Start(3));
    b.write(&[1, 2, 3, 4, 5]);
    assert_eq!(a.bytes(), b.bytes());
    assert_eq!(position(&mut a), position(&mut b));
}

#[test]
fn write_at_leaves_the_cursor() {
    let mut vec = filled(&[1, 2, 3, 4, 5]);
    vec.seek(SeekFrom::Start(1));
    assert_eq!(vec.write_at(3, &[6, 7, 8, 9]), 4);
    assert_eq!(position(&mut vec), Some(1));
    assert_eq!(vec.bytes(), [1, 2, 3, 6, 7, 8, 9]);
    assert_eq!(vec.write_at(9, &[10]), 1);
    assert_eq!(vec.bytes(), [1, 2, 3, 6, 7, 8, 9, 0, 0, 10]);
    assert_eq!(position(&mut vec), Some(1));
    let mut buf = [0; 2];
    assert_eq!(vec.read(&mut buf), 2);
    assert_eq!(buf, [2, 3]);
}

#[test]
fn write_at_of_nothing_changes_nothing() {
    let mut vec = filled(&[1, 2, 3, 4]);
    vec.seek(SeekFrom::Start(1));
    assert_eq!(vec.write_at(6, &[]), 0);
    assert_eq!(vec.write_at(2, &[]), 0);
    assert_eq!(vec.write_at(usize::MAX, &[]), 0);
    let mut bufs: [&[u8]; 2] = [&[], &[]];
    assert_eq!(vec.write_at_vectored(9, &mut bufs), 0);
    assert_eq!(vec.write_at_vectored(usize::MAX, &mut [] as &mut [&[u8]]), 0);
    assert_eq!(vec.bytes(), [1, 2, 3, 4]);
    assert_eq!(position(&mut vec), Some(1));
}

#[test]
fn write_vectored_across_blocks() {
    let mut vec = filled(&[0; 4]);
    vec.append(&[0; 4]);
    vec.seek(SeekFrom::Start(3));
    let mut bufs: [&[u8]; 3] = [&[1, 2], &[], &[3, 4]];
    assert_eq!(vec.write_vectored(&mut bufs), 4);
    assert_eq!(vec.bytes(), [0, 0, 0, 1, 2, 3, 4, 0]);
    // Only the first buffer reached into another block.
    assert_eq!(bufs, [&[2u8] as &[u8], &[], &[3, 4]]);
    let mut bufs: [&[u8]; 2] = [&[5], &[6, 7, 8]];
    assert_eq!(vec.write_at_vectored(6, &mut bufs), 4);
    assert_eq!(vec.bytes(), [0, 0, 0, 1, 2, 3, 5, 6, 7, 8]);
    assert_eq!(bufs, [&[5u8] as &[u8], &[7, 8]]);
    assert_eq!(position(&mut vec), Some(7));
}

#[test]
fn reading_on_is_reading_all() {
    let mut vec = filled(&[1, 2, 3]);
    vec.append(&[4, 5, 6, 7]);
    vec.seek(SeekFrom::Start(1));
    let mut a = [0; 2];
    let mut b = [0; 9];
    assert_eq!(vec.read(&mut a), 2);
    assert_eq!(vec.read(&mut b), 4);
    assert_eq!(a, [2, 3]);
    assert_eq!(b, [4, 5, 6, 7, 0, 0, 0, 0, 0]);
    assert_eq!(position(&mut vec), Some(7));
    assert_eq!(vec.read(&mut b), 0);
    vec.seek(SeekFrom::End(5));
    assert_eq!(vec.read(&mut b), 0);
    assert_eq!(position(&mut vec), Some(12));
    let mut all = [0; 7];
    assert_eq!(vec.read_at(0, &mut all), 7);
    assert_eq!(all, [1, 2, 3, 4, 5, 6, 7]);
}

#[test]
fn read_vectored_across_blocks() {
    let mut vec = filled(&[1, 2, 3, 4]);
    vec.append(&[5, 6, 7]);
    vec.seek(SeekFrom::Start(2));
    let mut a = [0; 3];
    let mut b = [0; 4];
    {
        let mut bufs: [&mut [u8]; 2] = [&mut a, &mut b];
        assert_eq!(vec.read_vectored(&mut bufs), 5);
        assert_eq!(bufs[0], &mut [5]);
        assert_eq!(bufs[1], &mut [0, 0]);
    }
    assert_eq!((a, b), ([3, 4, 5], [6, 7, 0, 0]));
    let mut a = [0; 1];
    let mut b = [0; 2];
    {
        let mut bufs: [&mut [u8]; 2] = [&mut a, &mut b];
        assert_eq!(vec.read_at_vectored(3, &mut bufs), 3);
        assert_eq!(bufs[0], &mut [4]);
        assert_eq!(bufs[1], &mut [5, 6]);
    }
    assert_eq!((a, b), ([4], [5, 6]));
    assert_eq!(position(&mut vec), Some(7));
}

#[test]
fn seek_to_everywhere() {
    let mut vec = filled(&[1, 2, 3]);
    vec.append(&[4, 5, 6, 7]);
    vec.append(&[8, 9]);
    for pos in 0..13 {
        let mut buf = [0];
        let n = if pos < 9 { 1 } else { 0 };
        let byte = if pos < 9 { pos as u8 + 1 } else { 0 };
        assert_eq!(vec.seek(SeekFrom::Start(pos)), Some(pos));
        assert_eq!((vec.read(&mut buf), buf), (n, [byte]));
        assert_eq!(vec.seek(SeekFrom::End(pos as isize - 9)), Some(pos));
        let mut buf = [0];
        assert_eq!((vec.read(&mut buf), buf), (n, [byte]));
        for from in 0..13 {
            let mut buf = [0];
            vec.seek(SeekFrom::Start(from));
            let delta = pos as isize - from as isize;
            assert_eq!(vec.seek(SeekFrom::Current(delta)), Some(pos));
            assert_eq!((vec.read(&mut buf), buf), (n, [byte]));
        }
    }
    assert_eq!(vec.len(), 9);
}

#[test]
fn seek_before_the_front() {
    let mut vec = filled(&[1, 2, 3, 4, 5]);
    vec.seek(SeekFrom::Start(2));
    assert_eq!(vec.seek(SeekFrom::End(-6)), None);
    assert_eq!(vec.seek(SeekFrom::Current(-3)), None);
    assert_eq!(vec.seek(SeekFrom::Current(isize::MIN)), None);
    assert_eq!(position(&mut vec), Some(2));
    assert_eq!(vec.seek(SeekFrom::End(-5)), Some(0));
    assert_eq!(vec.seek(SeekFrom::Current(4)), Some(4));
    assert_eq!(vec.seek(SeekFrom::Current(-4)), Some(0));
}

#[test]
fn truncate_everywhere() {
    for at in 0..12 {
        for len in 0..11 {
            let mut vec = filled(&[1, 2, 3, 4]);
            vec.append(&[5, 6, 7]);
            vec.append(&[8, 9]);
            vec.seek(SeekFrom::Start(at));
            assert_eq!(vec.truncate(len), len < 9);
            let all: [u8; 9] = [1, 2, 3, 4, 5, 6, 7, 8, 9];
            assert_eq!(vec.bytes(), &all[..len.min(9)]);
            assert_eq!(vec.len(), len.min(9));
            assert_eq!(position(&mut vec), Some(at));
            assert!(blocks(&vec).iter().all(|block| !block.is_empty()));
            assert_eq!(vec.write(&[11, 12]), 2);
            let mut expected = all[..len.min(9)].to_vec();
            expected.resize(expected.len().max(at + 2), 0);
            expected[at] = 11;
            expected[at + 1] = 12;
            assert_eq!(vec.bytes(), expected);
        }
    }
}

#[test]
fn truncate_twice_keeps_the_shorter() {
    let mut a = filled(&[1, 2, 3, 4]);
    a.append(&[5, 6, 7]);
    assert!(a.truncate(6));
    assert!(a.truncate(3));
    assert!(!a.truncate(5));
    assert_eq!(blocks(&a), [vec![1, 2, 3]]);
}

#[test]
fn truncate_undoes_extend() {
    for n in 0..12 {
        let mut vec = filled(&[1, 2, 3, 4]);
        vec.append(&[5, 6]);
        vec.seek(SeekFrom::Start(8));
        vec.extend(n);
        assert_eq!(vec.len(), 6 + n);
        assert_eq!(position(&mut vec), Some(8));
        assert_eq!(vec.truncate(6), n > 0);
        assert_eq!(blocks(&vec), [vec![1, 2, 3, 4], vec![5, 6]]);
        assert_eq!(position(&mut vec), Some(8));
    }
}

#[test]
fn extend_adds_zeros() {
    for at in 0..14 {
        let mut vec = filled(&[1, 2, 3]);
        vec.seek(SeekFrom::Start(at));
        vec.extend(6);
        assert_eq!(blocks(&vec), [vec![1, 2, 3, 0], vec![0; 5]]);
        assert_eq!(position(&mut vec), Some(at));
        assert_eq!(vec.write(&[4]), 1);
        let mut expected = vec![1, 2, 3, 0, 0, 0, 0, 0, 0];
        expected.resize(expected.len().max(at + 1), 0);
        expected[at] = 4;
        assert_eq!(vec.bytes(), expected);
    }
}

#[test]
fn extend_clears_what_was_cut_off() {
    let mut vec = filled(&[1, 2, 3, 4]);
    vec.truncate(1);
    vec.extend(2);
    assert_eq!(vec.bytes(), [1, 0, 0]);
}

#[test]
fn resize_sets_the_length() {
    let mut vec = BlockedVec::new_paged(pages());
    for n in [5, 2, 2, 9, 0, 3] {
        let before = vec.bytes();
        vec.resize(n);
        assert_eq!(vec.len(), n);
        let mut expected = before;
        expected.resize(n, 0);
        assert_eq!(vec.bytes(), expected);
        vec.seek(SeekFrom::Start(0));
        vec.write(&vec![n as u8; n]);
    }
    assert_eq!(vec.bytes(), [3; 3]);
}

#[test]
fn everything_cut_off_and_filled_again() {
    let mut vec = filled(&[1, 2, 3, 4, 5]);
    assert!(vec.truncate(0));
    assert!(vec.is_empty());
    assert_eq!(blocks(&vec).len(), 0);
    assert_eq!(position(&mut vec), Some(5));
    assert_eq!(vec.append(&[6]), 1);
    assert_eq!(vec.bytes(), [6]);

    let mut vec = filled(&[1, 2]);
    vec.truncate(0);
    vec.seek(SeekFrom::Start(0));
    let mut bufs: [&[u8]; 1] = [&[]];
    assert_eq!(vec.write_vectored(&mut bufs), 0);
    assert_eq!(blocks(&vec).len(), 0);
    vec.seek(SeekFrom::Start(2));
    assert_eq!(vec.write(&[3]), 1);
    assert_eq!(vec.bytes(), [0, 0, 3]);

    let mut vec = filled(&[1, 2]);
    vec.truncate(0);
    vec.extend(3);
    assert_eq!(vec.bytes(), [0, 0, 0]);
    assert_eq!(position(&mut vec), Some(2));
}

#[test]
fn growth_has_a_limit() {
    let vec = filled(&[1, 2, 3]);
    assert!(vec.can_grow(0));
    assert!(vec.can_grow(1));
    assert!(vec.can_grow(1000));
    assert!(!vec.can_grow(usize::MAX));
    assert!(!vec.can_grow(usize::MAX - 3));
    assert!(vec.can_write_at(0, 3));
    assert!(vec.can_write_at(1, 5));
    assert!(!vec.can_write_at(usize::MAX, 1));
    assert!(vec.can_write_at(usize::MAX, 0));
    assert!(vec.can_write(2));
    assert!(!vec.can_write(usize::MAX));
    let mut vec = vec;
    vec.seek(SeekFrom::Start(usize::MAX));
    assert!(!vec.can_write(0));
    let none = Layout::from_size_align(0, 1).unwrap();
    let vec = BlockedVec::new_paged(none);
    assert!(vec.can_grow(0));
    assert!(!vec.can_grow(1));
    assert!(vec.can_write_at(0, 1));
    assert!(vec.can_write(1));
}
