use blocked_vec::{IoSlice, IoSliceMut, SeekFrom};

#[test]
fn slice_advance() {
    let mut buf: &[u8] = &[1, 2, 3];
    assert_eq!(buf.as_bytes(), &[1, 2, 3]);
    IoSlice::advance(&mut buf, 2);
    assert_eq!(buf, &[3]);
    IoSlice::advance(&mut buf, 1);
    assert!(buf.is_empty());
}

#[test]
fn slices_advance() {
    let mut bufs: [&[u8]; 4] = [&[1, 2], &[], &[3, 4, 5], &[6]];
    let mut rest: &mut [&[u8]] = &mut bufs;
    IoSlice::advance_slices(&mut rest, 0);
    assert_eq!(rest.len(), 4);
    IoSlice::advance_slices(&mut rest, 2);
    assert_eq!(rest, &[&[3u8, 4, 5] as &[u8], &[6]]);
    IoSlice::advance_slices(&mut rest, 2);
    assert_eq!(rest, &[&[5u8] as &[u8], &[6]]);
    IoSlice::advance_slices(&mut rest, 2);
    assert!(rest.is_empty());
    assert_eq!(bufs, [&[1u8, 2] as &[u8], &[], &[5], &[6]]);
}

#[test]
fn mutable_slice_advance() {
    let mut bytes = [1u8, 2, 3];
    {
        let mut buf: &mut [u8] = &mut bytes;
        assert_eq!(IoSliceMut::as_bytes(&buf), &[1, 2, 3]);
        IoSliceMut::as_mut_bytes(&mut buf)[0] = 7;
        IoSliceMut::advance(&mut buf, 1);
        assert_eq!(buf, &mut [2, 3]);
        buf[0] = 9;
    }
    assert_eq!(bytes, [7, 9, 3]);
}

#[test]
fn mutable_slices_advance() {
    let mut a = [1u8, 2];
    let mut b = [3u8, 4];
    {
        let mut bufs: [&mut [u8]; 2] = [&mut a, &mut b];
        let mut rest: &mut [&mut [u8]] = &mut bufs;
        IoSliceMut::advance_slices(&mut rest, 3);
        assert_eq!(rest.len(), 1);
        assert_eq!(rest[0], &mut [4]);
        rest[0][0] = 9;
        IoSliceMut::advance_slices(&mut rest, 1);
        assert!(rest.is_empty());
    }
    assert_eq!((a, b), ([1, 2], [3, 9]));
}

#[test]
fn seek_from_there_and_back() {
    for pos in [
        SeekFrom::Start(7),
        SeekFrom::Start(usize::MAX),
        SeekFrom::Current(-7),
        SeekFrom::Current(isize::MAX),
        SeekFrom::End(isize::MIN),
        SeekFrom::End(0),
    ] {
        assert_eq!(SeekFrom::from(std::io::SeekFrom::from(pos)), pos);
    }
    assert_eq!(
        std::io::SeekFrom::from(SeekFrom::Start(7)),
        std::io::SeekFrom::Start(7)
    );
    assert_eq!(
        std::io::SeekFrom::from(SeekFrom::Current(-7)),
        std::io::SeekFrom::Current(-7)
    );
    assert_eq!(
        SeekFrom::from(std::io::SeekFrom::End(-2)),
        SeekFrom::End(-2)
    );
}
