use blocked_vec::{Block, Layout};

fn pages() -> Layout {
    Layout::from_size_align(4, 1).unwrap()
}

#[test]
fn block_with_len() {
    assert!(Block::with_len(pages(), 0).is_none());
    let block = Block::with_len(pages(), 5).unwrap();
    assert_eq!(block.len(), 5);
    assert_eq!(block.capacity(), 8);
    assert_eq!(block.as_slice(), &[0; 5]);
}

#[test]
fn block_from_buf() {
    let mut bufs: [&[u8]; 3] = [&[1, 2], &[], &[3]];
    let mut rest: &mut [&[u8]] = &mut bufs;
    let (block, written) = Block::from_buf(pages(), 2, &mut rest).unwrap();
    assert_eq!(block.as_slice(), &[0, 0, 1, 2, 3]);
    assert_eq!(written, 3);
    assert!(rest.is_empty());
    let mut none: &mut [&[u8]] = &mut [];
    assert!(Block::from_buf(pages(), 0, &mut none).is_none());
    let (block, written) = Block::from_buf(pages(), 3, &mut none).unwrap();
    assert_eq!((block.as_slice(), written), (&[0u8; 3] as &[u8], 0));
}

#[test]
fn block_write_stops_at_the_end() {
    let mut block = Block::with_len(pages(), 4).unwrap();
    let mut bufs: [&[u8]; 2] = [&[1, 2], &[3, 4]];
    let mut rest: &mut [&[u8]] = &mut bufs;
    assert_eq!(block.write(1, &mut rest), 3);
    assert_eq!(block.as_slice(), &[0, 1, 2, 3]);
    assert_eq!(rest, &[&[4u8] as &[u8]]);
    assert_eq!(block.write(4, &mut rest), 0);
    assert_eq!(block.write(9, &mut rest), 0);
    assert_eq!(rest.len(), 1);
}

#[test]
fn block_read_stops_at_the_end() {
    let mut block = Block::with_len(pages(), 3).unwrap();
    block.as_mut_slice().copy_from_slice(&[7, 8, 9]);
    let mut a = [0u8; 1];
    let mut b = [0u8; 4];
    {
        let mut bufs: [&mut [u8]; 2] = [&mut a, &mut b];
        let mut rest: &mut [&mut [u8]] = &mut bufs;
        assert_eq!(block.read(1, &mut rest), 2);
        assert_eq!(rest.len(), 1);
        assert_eq!(rest[0].len(), 3);
        assert_eq!(block.read(3, &mut rest), 0);
    }
    assert_eq!((a, b), ([8], [9, 0, 0, 0]));
}

#[test]
fn block_extend_fills_the_pages() {
    let mut block = Block::with_len(pages(), 1).unwrap();
    let mut bufs: [&[u8]; 2] = [&[1], &[2, 3]];
    let mut rest: &mut [&[u8]] = &mut bufs;
    assert_eq!(block.extend(1, &mut rest), Err(3));
    assert_eq!(block.as_slice(), &[0, 0, 1, 2]);
    assert_eq!(rest, &[&[3u8] as &[u8]]);

    let mut block = Block::with_len(pages(), 1).unwrap();
    let mut none: &mut [&[u8]] = &mut [];
    assert_eq!(block.extend(3, &mut none), Ok(3));
    assert_eq!(block.extend(1, &mut none), Err(0));
    assert_eq!(block.extend(0, &mut none), Ok(0));
    assert_eq!(block.len(), 4);

    let mut block = Block::with_len(pages(), 2).unwrap();
    assert_eq!(block.extend(5, &mut none), Err(2));
    assert_eq!(block.as_slice(), &[0; 4]);
}

#[test]
fn block_extend_clears_what_was_there() {
    let mut block = Block::with_len(pages(), 4).unwrap();
    block.as_mut_slice().copy_from_slice(&[1, 2, 3, 4]);
    assert_eq!(block.truncate(1), Some(false));
    let mut none: &mut [&[u8]] = &mut [];
    assert_eq!(block.extend(2, &mut none), Ok(2));
    assert_eq!(block.as_slice(), &[1, 0, 0]);
}

#[test]
fn block_truncate() {
    let mut block = Block::with_len(pages(), 3).unwrap();
    assert_eq!(block.truncate(3), None);
    assert_eq!(block.truncate(4), None);
    assert_eq!(block.truncate(2), Some(false));
    assert_eq!((block.len(), block.capacity()), (2, 4));
    assert_eq!(block.truncate(0), Some(true));
    assert_eq!(block.len(), 0);
}
