//! The files of a torrent, and the order in which to get the pieces of one.
use std::ops::Range;
use std::path::PathBuf;
use vstd::prelude::*;

verus! {

/// `std::path::PathBuf`, which is only carried from one place to another.
#[verifier::external_type_specification]
#[verifier::external_body]
pub struct ExPathBuf(PathBuf);

/// What a torrent says of the kind of a file.
#[derive(Clone, Copy, Debug, PartialEq, Eq)]
pub struct FileDetailsAttrs {
    pub symlink: bool,
    pub hidden: bool,
    pub padding: bool,
    pub executable: bool,
}

/// One file of a torrent.
#[derive(Debug)]
pub struct FileInfo {
    pub relative_filename: PathBuf,
    pub offset_in_torrent: u64,
    /// The pieces that hold some of the file.
    pub piece_range: Range<u32>,
    pub attrs: FileDetailsAttrs,
    pub len: u64,
}

/// `PathBuf::clone`: a copy is the same path.
#[verifier::external_body]
fn copy_path(path: &PathBuf) -> (copy: PathBuf)
    ensures
        copy == *path,
{
    path.clone()
}

impl Clone for FileInfo {
    fn clone(&self) -> (r: FileInfo)
        ensures
            r == *self,
    {
        FileInfo {
            relative_filename: copy_path(&self.relative_filename),
            offset_in_torrent: self.offset_in_torrent,
            piece_range: self.piece_range.start..self.piece_range.end,
            attrs: self.attrs,
            len: self.len,
        }
    }
}

/// The numbers from `start` on and before `end`: the first, the last, then those between.
pub open spec fn piece_priorities(start: int, end: int) -> Seq<int> {
    if end <= start {
        Seq::empty()
    } else if end == start + 1 {
        seq![start]
    } else {
        seq![start, end - 1] + Seq::new((end - start - 2) as nat, |i: int| start + 1 + i)
    }
}

/// The numbers in the range in an order that suits streaming: the first, the last, then the
/// rest. A player needs both ends of a file before it can start.
pub fn iter_piece_priorities(range: Range<usize>) -> (r: Vec<usize>)
    ensures
        r@.map_values(|p: usize| p as int) == piece_priorities(
            range.start as int,
            range.end as int,
        ),
        r@.len() == if range.start < range.end {
            range.end - range.start
        } else {
            0
        },
        r@.len() >= 1 ==> r@[0] == range.start,
        r@.len() >= 2 ==> r@[1] == range.end - 1,
        forall|i: int| 2 <= i < r@.len() ==> #[trigger] r@[i] == range.start + i - 1,
{
    let start: usize = range.start;
    let end: usize = range.end;
    let mut pieces: Vec<usize> = Vec::new();
    if start < end {
        pieces.push(start);
        if start < end - 1 {
            pieces.push(end - 1);
            let mut next: usize = start + 1;
            while next < end - 1
                invariant
                    start + 1 <= next <= end - 1,
                    pieces@.len() == next - start + 1,
                    pieces@[0] == start,
                    pieces@[1] == end - 1,
                    forall|i: int| 2 <= i < pieces@.len() ==> #[trigger] pieces@[i] == start + i - 1,
                decreases end - next,
            {
                pieces.push(next);
                next = next + 1;
            }
        }
    }
    assert(pieces@.map_values(|p: usize| p as int) =~= piece_priorities(start as int, end as int));
    pieces
}

impl FileInfo {
    /// The pieces that hold some of the file, as a range of `usize`.
    pub fn piece_range_usize(&self) -> (r: Range<usize>)
        ensures
            r.start == self.piece_range.start,
            r.end == self.piece_range.end,
    {
        self.piece_range.start as usize..self.piece_range.end as usize
    }

    /// The pieces of the file in an order that suits streaming.
    pub fn iter_piece_priorities(&self) -> (r: Vec<usize>)
        ensures
            r@.map_values(|p: usize| p as int) == piece_priorities(
                self.piece_range.start as int,
                self.piece_range.end as int,
            ),
            r@.len() == if self.piece_range.start < self.piece_range.end {
                self.piece_range.end - self.piece_range.start
            } else {
                0
            },
            r@.len() >= 1 ==> r@[0] == self.piece_range.start,
            r@.len() >= 2 ==> r@[1] == self.piece_range.end - 1,
            forall|i: int| 2 <= i < r@.len() ==> #[trigger] r@[i] == self.piece_range.start + i - 1,
    {
        iter_piece_priorities(self.piece_range_usize())
    }
}

/// The first piece comes first and the last piece second. The others follow from front to
/// back.
pub proof fn law_ends_come_first(start: int, end: int)
    requires
        start < end,
    ensures
        ({
            let pieces = piece_priorities(start, end);
            &&& pieces.len() == end - start
            &&& pieces[0] == start
            &&& pieces.len() >= 2 ==> pieces[1] == end - 1
            &&& forall|i: int, j: int|
                2 <= i < j < pieces.len() ==> (#[trigger] pieces[i]) < (#[trigger] pieces[j])
            &&& forall|i: int|
                2 <= i < pieces.len() ==> start < (#[trigger] pieces[i]) < end - 1
        }),
{
}

/// What is got first is the first piece, and what is got second the last one. From the third on
/// the pieces go up by one each.
pub proof fn law_both_ends_then_upward(range: Range<usize>, r: Vec<usize>)
    requires
        range.start < range.end,
        call_ensures(iter_piece_priorities, (range,), r),
    ensures
        r@.len() == range.end - range.start,
        r@[0] == range.start,
        r@.len() > 1 ==> r@[1] == range.end - 1,
        r@.len() > 2 ==> r@[2] == range.start + 1,
        forall|i: int, j: int| 2 <= i < j < r@.len() ==> r@[j] - r@[i] == j - i,
{
}

/// The pieces of a file come in the order that its range gives them.
pub proof fn law_file_orders_its_range(file: FileInfo, r: Vec<usize>)
    requires
        file.piece_range.start < file.piece_range.end,
        call_ensures(FileInfo::iter_piece_priorities, (&file,), r),
    ensures
        r@.len() == file.piece_range.end - file.piece_range.start,
        r@[0] == file.piece_range.start,
        r@.len() > 1 ==> r@[1] == file.piece_range.end - 1,
        r@.len() > 2 ==> r@[2] == file.piece_range.start + 1,
        forall|i: int, j: int| 2 <= i < j < r@.len() ==> r@[j] - r@[i] == j - i,
{
}

/// Ordering the pieces by priority neither loses one nor repeats one.
pub proof fn law_piece_priorities_permute(start: int, end: int)
    ensures
        piece_priorities(start, end).no_duplicates(),
        piece_priorities(start, end).len() == if start < end {
            end - start
        } else {
            0
        },
        forall|p: int| #[trigger]
            piece_priorities(start, end).contains(p) <==> start <= p < end,
{
    let pieces = piece_priorities(start, end);
    assert forall|p: int| #[trigger] pieces.contains(p) <==> start <= p < end by {
        if start <= p < end {
            if p == start {
                assert(pieces[0] == p);
            } else if p == end - 1 {
                assert(pieces[1] == p);
            } else {
                assert(pieces[p - start + 1] == p);
            }
        }
    }
}

} // verus!
