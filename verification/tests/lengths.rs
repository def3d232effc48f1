use torrent_streaming::lengths::Lengths;

fn current(l: &Lengths, file_pos: u64, file_offset: u64) -> Option<(u32, u32)> {
    l.compute_current_piece(file_pos, file_offset)
        .map(|c| (c.id.get(), c.piece_remaining))
}

#[test]
fn lengths_that_make_no_torrent() {
    assert!(Lengths::new(0, 16384).is_none());
    assert!(Lengths::new(16384, 0).is_none());
    assert!(Lengths::new(1 << 32, 1).is_some());
    assert!(Lengths::new((1 << 32) + 1, 1).is_none());
    assert!(Lengths::new(u64::MAX, u32::MAX).is_none());
}

#[test]
fn piece_indices() {
    let l = Lengths::new(100, 30).unwrap();
    assert_eq!(l.default_piece_length(), 30);
    assert_eq!(l.validate_piece_index(3).map(|id| id.get()), Some(3));
    assert!(l.validate_piece_index(4).is_none());
    let even = Lengths::new(90, 30).unwrap();
    assert_eq!(even.validate_piece_index(2).map(|id| id.get()), Some(2));
    assert!(even.validate_piece_index(3).is_none());
}

#[test]
fn piece_lengths() {
    let l = Lengths::new(100, 30).unwrap();
    let len = |i: u32| l.piece_length(l.validate_piece_index(i).unwrap());
    assert_eq!(vec![len(0), len(1), len(2), len(3)], vec![30, 30, 30, 10]);
    let even = Lengths::new(90, 30).unwrap();
    assert_eq!(even.piece_length(even.validate_piece_index(2).unwrap()), 30);
}

#[test]
fn current_piece_of_a_position() {
    let l = Lengths::new(100, 30).unwrap();
    assert_eq!(current(&l, 0, 0), Some((0, 30)));
    assert_eq!(current(&l, 29, 0), Some((0, 1)));
    assert_eq!(current(&l, 20, 10), Some((1, 30)));
    assert_eq!(current(&l, 5, 90), Some((3, 5)));
}

#[test]
fn current_piece_at_the_end() {
    let l = Lengths::new(100, 30).unwrap();
    assert_eq!(current(&l, 99, 0), Some((3, 1)));
    assert_eq!(current(&l, 100, 0), Some((3, 0)));
    assert_eq!(current(&l, 101, 0), None);
    assert_eq!(current(&l, 120, 0), None);
    assert_eq!(current(&l, u64::MAX, 0), None);
    let even = Lengths::new(90, 30).unwrap();
    assert_eq!(current(&even, 90, 0), None);
}
