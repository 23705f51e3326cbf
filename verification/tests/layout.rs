use blocked_vec::{Layout, LayoutError};

#[test]
fn layout_parts() {
    let layout = Layout::from_size_align(4, 1).unwrap();
    assert_eq!((layout.size(), layout.align()), (4, 1));
    let layout = Layout::from_size_align(0, 64).unwrap();
    assert_eq!((layout.size(), layout.align()), (0, 64));
}

#[test]
fn layout_needs_a_power_of_two() {
    assert_eq!(Layout::from_size_align(4, 0), Err(LayoutError));
    assert_eq!(Layout::from_size_align(4, 3), Err(LayoutError));
    assert_eq!(Layout::from_size_align(4, 12), Err(LayoutError));
    assert!(Layout::from_size_align(4, 8).is_ok());
}

#[test]
fn layout_has_a_limit() {
    let max = isize::MAX as usize;
    assert!(Layout::from_size_align(max, 1).is_ok());
    assert_eq!(Layout::from_size_align(max + 1, 1), Err(LayoutError));
    assert!(Layout::from_size_align(max - 7, 8).is_ok());
    assert_eq!(Layout::from_size_align(max - 6, 8), Err(LayoutError));
    assert_eq!(
        Layout::from_size_align(0, 1 << (usize::BITS - 1)).map(|l| l.size()),
        Ok(0)
    );
    assert_eq!(
        Layout::from_size_align(1, 1 << (usize::BITS - 1)),
        Err(LayoutError)
    );
}

#[test]
fn layout_repeats() {
    let layout = Layout::from_size_align(5, 4).unwrap();
    let (run, stride) = layout.repeat(3).unwrap();
    assert_eq!((run.size(), run.align(), stride), (24, 4, 8));
    let (run, stride) = layout.repeat(0).unwrap();
    assert_eq!((run.size(), stride), (0, 8));
    assert_eq!(layout.repeat(usize::MAX / 4), Err(LayoutError));
    assert!(layout.repeat(usize::MAX / 16).is_ok());
    assert_eq!(layout.repeat(usize::MAX / 16 + 1), Err(LayoutError));
}

#[test]
fn layout_for_a_length() {
    let layout = Layout::from_size_align(4, 1).unwrap();
    assert_eq!(layout.for_len(0).map(|l| l.size()), Ok(0));
    assert_eq!(layout.for_len(1).map(|l| l.size()), Ok(4));
    assert_eq!(layout.for_len(4).map(|l| l.size()), Ok(4));
    assert_eq!(layout.for_len(5).map(|l| l.size()), Ok(8));
    assert_eq!(layout.for_len(usize::MAX), Err(LayoutError));
    let empty = Layout::from_size_align(0, 8).unwrap();
    assert_eq!(empty.for_len(1), Err(LayoutError));
}
