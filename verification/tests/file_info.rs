use std::path::PathBuf;
use torrent_streaming::file_info::{iter_piece_priorities, FileDetailsAttrs, FileInfo};

fn file(start: u32, end: u32) -> FileInfo {
    FileInfo {
        relative_filename: PathBuf::from("video/film.mkv"),
        offset_in_torrent: 123,
        piece_range: start..end,
        attrs: FileDetailsAttrs {
            symlink: false,
            hidden: false,
            padding: false,
            executable: true,
        },
        len: 456,
    }
}

#[test]
fn test_iter_piece_priorities() {
    let it = |r: std::ops::Range<usize>| -> Vec<usize> {
        iter_piece_priorities(r).into_iter().collect()
    };
    assert_eq!(it(0..0), Vec::<usize>::new());

    assert_eq!(it(0..1), vec![0]);
    assert_eq!(it(0..2), vec![0, 1]);
    assert_eq!(it(0..3), vec![0, 2, 1]);
    assert_eq!(it(0..4), vec![0, 3, 1, 2]);
}

#[test]
fn priorities_of_ranges_that_do_not_start_at_zero() {
    assert_eq!(iter_piece_priorities(7..12), vec![7, 11, 8, 9, 10]);
    assert_eq!(
        iter_piece_priorities(usize::MAX - 1..usize::MAX),
        vec![usize::MAX - 1]
    );
    let backwards = std::ops::Range { start: 5, end: 3 };
    assert_eq!(iter_piece_priorities(backwards), Vec::<usize>::new());
}

#[test]
fn priorities_are_a_permutation() {
    let mut pieces = iter_piece_priorities(10..35);
    pieces.sort();
    assert_eq!(pieces, (10..35).collect::<Vec<usize>>());
}

#[test]
fn pieces_of_a_file() {
    let fi = file(3, 7);
    assert_eq!(fi.piece_range_usize(), 3..7);
    assert_eq!(fi.iter_piece_priorities(), vec![3, 6, 4, 5]);
    let last = file(u32::MAX - 1, u32::MAX);
    assert_eq!(last.piece_range_usize(), 4294967294..4294967295);
}

#[test]
fn a_copy_of_a_file_info_is_the_same() {
    let fi = file(3, 7);
    let copy = fi.clone();
    assert_eq!(copy.relative_filename, PathBuf::from("video/film.mkv"));
    assert_eq!(copy.offset_in_torrent, 123);
    assert_eq!(copy.piece_range, 3..7);
    assert_eq!(copy.attrs, fi.attrs);
    assert_eq!(copy.len, 456);
}
