//! Where a stream stands in its file, and which pieces it wants next.
use crate::lengths::{
    law_last_piece, law_piece_at, CurrentPiece, Lengths, ValidPieceIndex,
};
use vstd::arithmetic::div_mod::{
    lemma_div_is_ordered, lemma_fundamental_div_mod, lemma_fundamental_div_mod_converse,
};
use vstd::math::{max, min};
use vstd::prelude::*;

verus! {

/// How far ahead of its position a stream asks for pieces: 32 MiB.
pub const PER_STREAM_BUF_DEFAULT: u64 = 32 * 1024 * 1024;

/// How much of the end of the file a stream asks for besides: 2 MiB. Players read the index
/// that some containers keep there before anything else.
pub const TAIL_PREFETCH: u64 = 2 * 1024 * 1024;

/// Where one stream stands.
#[derive(Clone, Copy, Debug, PartialEq, Eq)]
pub struct StreamState {
    pub file_id: usize,
    pub file_len: u64,
    /// Where the file starts in the torrent.
    pub file_abs_offset: u64,
    /// The next byte to read, counted from the start of the file.
    pub position: u64,
}

/// How many blocks of `size` bytes it takes to hold `n` bytes.
pub open spec fn blocks(n: int, size: int) -> int {
    (n + size - 1) / size
}

/// The pieces from `first` on and before `end`, as far as the torrent has them.
pub open spec fn pieces_between(lengths: Lengths, first: int, end: int) -> Seq<int> {
    let stop = if end <= lengths.last_piece() {
        end
    } else {
        lengths.last_piece() + 1
    };
    let count: int = if first < stop {
        stop - first
    } else {
        0
    };
    Seq::new(count as nat, |i: int| first + i)
}

fn div_ceil(n: u64, d: u64) -> (r: u64)
    requires
        d >= 1,
    ensures
        r == blocks(n as int, d as int),
{
    let q: u64 = n / d;
    let rem: u64 = n % d;
    proof {
        lemma_fundamental_div_mod(n as int, d as int);
        assert(d * q == q * d && (q + 1) * d == q * d + d) by (nonlinear_arith);
        if rem == 0 {
            lemma_fundamental_div_mod_converse(n + d - 1, d as int, q as int, d - 1);
        } else {
            lemma_fundamental_div_mod_converse(n + d - 1, d as int, q + 1, rem - 1);
            assert(q < u64::MAX) by (nonlinear_arith)
                requires
                    q * d + rem == n,
                    rem >= 1,
                    d >= 1,
                    q >= 0,
                    n <= u64::MAX,
            ;
        }
    }
    if rem == 0 {
        q
    } else {
        q + 1
    }
}

impl StreamState {
    /// The position in the torrent.
    pub open spec fn torrent_pos(self) -> int {
        self.file_abs_offset + self.position
    }

    /// Where the file ends in the torrent.
    pub open spec fn file_end(self) -> int {
        self.file_abs_offset + self.file_len
    }

    /// Where the stretch ahead of the position ends that the stream asks for.
    pub open spec fn window_end(self) -> int {
        if self.torrent_pos() + PER_STREAM_BUF_DEFAULT <= self.file_end() {
            self.torrent_pos() + PER_STREAM_BUF_DEFAULT
        } else {
            self.file_end()
        }
    }

    /// Where the stretch at the end of the file starts that the stream asks for. Of a short
    /// file it is the whole file.
    pub open spec fn tail_start(self) -> int {
        if self.file_len >= TAIL_PREFETCH {
            self.file_end() - TAIL_PREFETCH
        } else {
            self.file_abs_offset as int
        }
    }

    /// The file lies in the torrent, and the position in the file.
    pub open spec fn lies_in(self, lengths: Lengths) -> bool {
        &&& self.position <= self.file_len
        &&& self.file_end() <= lengths.total()
    }

    /// The bounds of the queue can be computed in a `u64`, and its pieces numbered by a `u32`.
    pub open spec fn queue_fits(self, lengths: Lengths) -> bool {
        &&& self.file_end() <= u64::MAX
        &&& self.torrent_pos() + PER_STREAM_BUF_DEFAULT <= u64::MAX
        &&& lengths.piece_at(self.torrent_pos()) <= u32::MAX
        &&& blocks(self.window_end(), lengths.dpl() as int) <= u32::MAX
        &&& blocks(self.file_end(), lengths.dpl() as int) <= u32::MAX
    }

    /// The pieces that the stream wants, most urgent first: those ahead of its position, then
    /// those at the end of the file.
    pub open spec fn wanted(self, lengths: Lengths) -> Seq<int> {
        pieces_between(
            lengths,
            lengths.piece_at(self.torrent_pos()),
            blocks(self.window_end(), lengths.dpl() as int),
        ) + pieces_between(
            lengths,
            lengths.piece_at(self.tail_start()),
            blocks(self.file_end(), lengths.dpl() as int),
        )
    }

    /// A state of no stream, at the start of an empty file. It stands in an entry while the
    /// entry's own state is out.
    pub(crate) fn vacant() -> (r: StreamState)
        ensures
            r == (StreamState { file_id: 0, file_len: 0, file_abs_offset: 0, position: 0 }),
    {
        StreamState { file_id: 0, file_len: 0, file_abs_offset: 0, position: 0 }
    }

    /// The piece at the position. None past the end of the torrent.
    pub fn current_piece(&self, lengths: &Lengths) -> (r: Option<CurrentPiece>)
        requires
            lengths.wf(),
            self.torrent_pos() <= u64::MAX,
        ensures
            r is Some <==> lengths.has_current_piece(self.torrent_pos()),
            r matches Some(c) ==> {
                &&& c.id.index() == lengths.piece_at(self.torrent_pos())
                &&& c.piece_remaining == lengths.piece_end(lengths.piece_at(self.torrent_pos()))
                    - self.torrent_pos()
            },
            r is Some <==> self.file_abs_offset + self.position < lengths.total() || (
            self.file_abs_offset + self.position == lengths.total() && lengths.total()
                % lengths.dpl() as u64 != 0),
            r matches Some(c) ==> {
                let pos = self.file_abs_offset + self.position;
                let start = c.id.index() * lengths.dpl();
                let end = (c.id.index() + 1) * lengths.dpl();
                &&& start <= pos < end
                &&& pos + c.piece_remaining == if end <= lengths.total() {
                    end
                } else {
                    lengths.total() as int
                }
            },
    {
        lengths.compute_current_piece(self.position, self.file_abs_offset)
    }

    /// Tests that the queue of the stream can be computed.
    pub fn can_queue(&self, lengths: &Lengths) -> (r: bool)
        requires
            lengths.wf(),
        ensures
            r == self.queue_fits(*lengths),
            r <==> {
                let start = self.file_abs_offset + self.position;
                let end = self.file_abs_offset + self.file_len;
                &&& end <= u64::MAX
                &&& start + 32 * 1024 * 1024 <= u64::MAX
                &&& start < (u32::MAX + 1) * lengths.dpl()
                &&& end <= u32::MAX * lengths.dpl()
            },
    {
        proof {
            law_queue_fits_exactly(*self, *lengths);
        }
        let dpl: u64 = lengths.default_piece_length() as u64;
        let file_end: u64 = match self.file_abs_offset.checked_add(self.file_len) {
            Some(file_end) => file_end,
            None => return false,
        };
        let start: u64 = match self.file_abs_offset.checked_add(self.position) {
            Some(start) => start,
            None => return false,
        };
        let ahead: u64 = match start.checked_add(PER_STREAM_BUF_DEFAULT) {
            Some(ahead) => ahead,
            None => return false,
        };
        let end: u64 = if ahead <= file_end {
            ahead
        } else {
            file_end
        };
        start / dpl <= u32::MAX as u64 && div_ceil(end, dpl) <= u32::MAX as u64 && div_ceil(
            file_end,
            dpl,
        ) <= u32::MAX as u64
    }

    /// The pieces that the stream wants, most urgent first.
    pub fn queue(&self, lengths: &Lengths) -> (r: PieceQueue)
        requires
            lengths.wf(),
            self.queue_fits(*lengths),
        ensures
            r.wf(),
            r@ == self.wanted(*lengths),
            forall|p: int| #[trigger]
                r@.contains(p) <==> {
                    let start = self.file_abs_offset + self.position;
                    let file_end = self.file_abs_offset + self.file_len;
                    let piece_start = p * lengths.dpl();
                    let piece_end = (p + 1) * lengths.dpl();
                    &&& 0 <= p && piece_start < lengths.total() && piece_start < file_end
                    &&& {
                        ||| piece_start < start + 32 * 1024 * 1024 && piece_end > start
                        ||| piece_end > self.file_abs_offset && piece_end > file_end - 2 * 1024
                            * 1024
                    }
                },
    {
        proof {
            assert forall|p: int| #[trigger] self.wanted(*lengths).contains(p) <==> {
                let start = self.file_abs_offset + self.position;
                let file_end = self.file_abs_offset + self.file_len;
                let piece_start = p * lengths.dpl();
                let piece_end = (p + 1) * lengths.dpl();
                &&& 0 <= p && piece_start < lengths.total() && piece_start < file_end
                &&& {
                    ||| piece_start < start + 32 * 1024 * 1024 && piece_end > start
                    ||| piece_end > self.file_abs_offset && piece_end > file_end - 2 * 1024 * 1024
                }
            } by {
                law_queue_membership(*self, *lengths, p);
            }
        }
        let file_end: u64 = self.file_abs_offset + self.file_len;
        let start: u64 = self.file_abs_offset + self.position;
        let ahead: u64 = start + PER_STREAM_BUF_DEFAULT;
        let end: u64 = if ahead <= file_end {
            ahead
        } else {
            file_end
        };
        let dpl: u64 = lengths.default_piece_length() as u64;
        let tail_start: u64 = if self.file_len <= TAIL_PREFETCH {
            self.file_abs_offset
        } else {
            file_end - TAIL_PREFETCH
        };
        proof {
            lemma_div_is_ordered(tail_start as int, file_end + dpl - 1, dpl as int);
        }
        let queue = PieceQueue {
            lengths: *lengths,
            head_next: (start / dpl) as u32,
            head_end: div_ceil(end, dpl) as u32,
            tail_next: (tail_start / dpl) as u32,
            tail_end: div_ceil(file_end, dpl) as u32,
        };
        assert(queue@ == self.wanted(*lengths));
        queue
    }
}

/// The pieces that a stream still wants, found one by one.
#[derive(Clone, Copy, Debug)]
pub struct PieceQueue {
    lengths: Lengths,
    head_next: u32,
    head_end: u32,
    tail_next: u32,
    tail_end: u32,
}

impl View for PieceQueue {
    type V = Seq<int>;

    closed spec fn view(&self) -> Seq<int> {
        pieces_between(self.lengths, self.head_next as int, self.head_end as int) + pieces_between(
            self.lengths,
            self.tail_next as int,
            self.tail_end as int,
        )
    }
}

impl PieceQueue {
    pub closed spec fn wf(self) -> bool {
        self.lengths.wf()
    }

    /// Takes the most urgent piece.
    pub fn next(&mut self) -> (r: Option<ValidPieceIndex>)
        requires
            old(self).wf(),
        ensures
            final(self).wf(),
            r is Some <==> old(self)@.len() > 0,
            r matches Some(id) ==> id.index() == old(self)@[0] && final(self)@
                == old(self)@.drop_first(),
            r is None ==> final(self)@ == old(self)@,
    {
        while self.head_next < self.head_end
            invariant
                self.wf(),
                self@ == old(self)@,
            decreases self.head_end - self.head_next,
        {
            let index: u32 = self.head_next;
            self.head_next = index + 1;
            if let Some(id) = self.lengths.validate_piece_index(index) {
                assert(self@ =~= old(self)@.drop_first());
                return Some(id);
            }
            assert(self@ =~= old(self)@);
        }
        while self.tail_next < self.tail_end
            invariant
                self.wf(),
                self.head_next >= self.head_end,
                self@ == old(self)@,
            decreases self.tail_end - self.tail_next,
        {
            let index: u32 = self.tail_next;
            self.tail_next = index + 1;
            if let Some(id) = self.lengths.validate_piece_index(index) {
                assert(self@ =~= old(self)@.drop_first());
                return Some(id);
            }
            assert(self@ =~= old(self)@);
        }
        None
    }
}

/// Of a piece, that `n` bytes reach into it or past it.
proof fn lemma_blocks(n: int, size: int, index: int)
    requires
        size >= 1,
        n >= 0,
    ensures
        index < blocks(n, size) <==> index * size < n,
        blocks(n, size) >= 0,
{
    let b = blocks(n, size);
    lemma_fundamental_div_mod(n + size - 1, size);
    assert(size * b == b * size && (index + 1) * size == index * size + size) by (nonlinear_arith);
    if index < b {
        assert((index + 1) * size <= b * size) by (nonlinear_arith)
            requires
                index + 1 <= b,
                size >= 1,
        ;
    } else {
        assert(b * size <= index * size) by (nonlinear_arith)
            requires
                b <= index,
                size >= 1,
        ;
    }
    assert(b >= 0) by (nonlinear_arith)
        requires
            b * size + (n + size - 1) % size == n + size - 1,
            (n + size - 1) % size < size,
            n >= 0,
            size >= 1,
    ;
}

/// The byte at `pos` lies in the piece that [`Lengths::piece_at`] gives.
proof fn lemma_piece_at(lengths: Lengths, pos: int)
    requires
        lengths.wf(),
        pos >= 0,
    ensures
        lengths.piece_at(pos) >= 0,
        lengths.piece_at(pos) * lengths.dpl() <= pos < (lengths.piece_at(pos) + 1) * lengths.dpl(),
        pos < lengths.total() ==> lengths.piece_at(pos) <= lengths.last_piece(),
{
    let dpl = lengths.dpl() as int;
    let p = lengths.piece_at(pos);
    lemma_fundamental_div_mod(pos, dpl);
    assert(dpl * p == p * dpl && (p + 1) * dpl == p * dpl + dpl) by (nonlinear_arith);
    if pos < lengths.total() {
        lemma_div_is_ordered(pos, lengths.total() - 1, dpl);
    }
}

/// For a file that lies in the torrent the queue can always be computed, short of a torrent
/// with so many pieces that a `u32` cannot count them.
pub proof fn law_queue_fits(state: StreamState, lengths: Lengths)
    requires
        lengths.wf(),
        state.lies_in(lengths),
        lengths.last_piece() < u32::MAX,
    ensures
        state.queue_fits(lengths),
{
    let dpl = lengths.dpl() as int;
    let last = lengths.last_piece();
    let total = lengths.total() as int;
    lemma_piece_at(lengths, total - 1);
    assert((last + 1) * dpl <= u32::MAX * u32::MAX) by (nonlinear_arith)
        requires
            0 <= last < u32::MAX,
            1 <= dpl <= u32::MAX,
    ;
    lemma_blocks(state.window_end(), dpl, last + 1);
    lemma_blocks(state.file_end(), dpl, last + 1);
    lemma_piece_at(lengths, state.torrent_pos());
    assert(lengths.piece_at(state.torrent_pos()) <= last + 1) by (nonlinear_arith)
        requires
            lengths.piece_at(state.torrent_pos()) * dpl <= state.torrent_pos(),
            state.torrent_pos() <= total,
            total <= (last + 1) * dpl,
            dpl >= 1,
    ;
}

/// The queue holds every piece with a byte in the stretch ahead of the position, and every
/// piece with a byte in the stretch at the end of the file.
pub proof fn law_queue_covers(state: StreamState, lengths: Lengths, pos: int)
    requires
        lengths.wf(),
        state.torrent_pos() <= pos < state.window_end() || state.tail_start() <= pos
            < state.file_end(),
        pos < lengths.total(),
    ensures
        state.wanted(lengths).contains(lengths.piece_at(pos)),
{
    let dpl = lengths.dpl() as int;
    let p = lengths.piece_at(pos);
    lemma_piece_at(lengths, pos);
    if state.torrent_pos() <= pos < state.window_end() {
        lemma_blocks(state.window_end(), dpl, p);
        lemma_div_is_ordered(state.torrent_pos(), pos, dpl);
        assert(state.wanted(lengths)[p - lengths.piece_at(state.torrent_pos())] == p);
    } else {
        let head = pieces_between(
            lengths,
            lengths.piece_at(state.torrent_pos()),
            blocks(state.window_end(), dpl),
        );
        lemma_blocks(state.file_end(), dpl, p);
        lemma_div_is_ordered(state.tail_start(), pos, dpl);
        assert(state.wanted(lengths)[head.len() + p - lengths.piece_at(state.tail_start())] == p);
    }
}

/// The queue holds only pieces of the torrent that reach into the stretch ahead of the
/// position or into the stretch at the end of the file. None lies wholly before the file.
pub proof fn law_queue_holds_no_more(state: StreamState, lengths: Lengths, i: int)
    requires
        lengths.wf(),
        0 <= i < state.wanted(lengths).len(),
    ensures
        0 <= state.wanted(lengths)[i] <= lengths.last_piece(),
        ({
            let start = state.wanted(lengths)[i] * lengths.dpl();
            let end = (state.wanted(lengths)[i] + 1) * lengths.dpl();
            ||| start < state.window_end() && state.torrent_pos() < end
            ||| start < state.file_end() && state.tail_start() < end
        }),
        (state.wanted(lengths)[i] + 1) * lengths.dpl() > state.file_abs_offset,
{
    let dpl = lengths.dpl() as int;
    let p = state.wanted(lengths)[i];
    let from_head = lengths.piece_at(state.torrent_pos());
    let from_tail = lengths.piece_at(state.tail_start());
    lemma_piece_at(lengths, state.torrent_pos());
    lemma_piece_at(lengths, state.tail_start());
    lemma_blocks(state.window_end(), dpl, p);
    lemma_blocks(state.file_end(), dpl, p);
    if p >= from_head {
        assert((from_head + 1) * dpl <= (p + 1) * dpl) by (nonlinear_arith)
            requires
                from_head <= p,
                dpl >= 1,
        ;
    }
    if p >= from_tail {
        assert((from_tail + 1) * dpl <= (p + 1) * dpl) by (nonlinear_arith)
            requires
                from_tail <= p,
                dpl >= 1,
        ;
    }
}

/// While there is something left to read, the most urgent piece is the one at the position.
pub proof fn law_queue_starts_at_position(state: StreamState, lengths: Lengths)
    requires
        lengths.wf(),
        state.lies_in(lengths),
        state.position < state.file_len,
    ensures
        lengths.has_current_piece(state.torrent_pos()),
        state.wanted(lengths).len() > 0,
        state.wanted(lengths)[0] == lengths.piece_at(state.torrent_pos()),
{
    let pos = state.torrent_pos();
    lemma_piece_at(lengths, pos);
    lemma_blocks(state.window_end(), lengths.dpl() as int, lengths.piece_at(pos));
}

/// Every byte in the 32 MiB from the position on that the file and the torrent have lies in a
/// piece of the queue.
pub proof fn law_queue_looks_ahead(state: StreamState, lengths: Lengths, b: int)
    requires
        lengths.wf(),
        state.file_abs_offset + state.position <= b,
        b < state.file_abs_offset + state.position + 32 * 1024 * 1024,
        b < state.file_abs_offset + state.file_len,
        b < lengths.total(),
    ensures
        state.wanted(lengths).contains(b / lengths.dpl() as int),
{
    law_queue_covers(state, lengths, b);
}

/// Every byte in the last 2 MiB of the file that the torrent has lies in a piece of the queue.
pub proof fn law_queue_takes_the_tail(state: StreamState, lengths: Lengths, b: int)
    requires
        lengths.wf(),
        state.file_abs_offset <= b < state.file_abs_offset + state.file_len,
        b >= state.file_abs_offset + state.file_len - 2 * 1024 * 1024,
        b < lengths.total(),
    ensures
        state.wanted(lengths).contains(b / lengths.dpl() as int),
{
    law_queue_covers(state, lengths, b);
}

/// The queue that a stream gets has the piece of every byte of the file, as far as the torrent
/// has it, in the 32 MiB from the position on and in the last 2 MiB of the file.
pub proof fn law_queue_reaches(state: StreamState, lengths: Lengths, queue: PieceQueue, b: int)
    requires
        lengths.wf(),
        call_ensures(StreamState::queue, (&state, &lengths), queue),
        state.file_abs_offset <= b < state.file_abs_offset + state.file_len,
        b < lengths.total(),
        ({
            let start = state.file_abs_offset + state.position;
            ||| start <= b < start + 32 * 1024 * 1024
            ||| b >= state.file_abs_offset + state.file_len - 2 * 1024 * 1024
        }),
    ensures
        queue@.contains(b / lengths.dpl() as int),
{
    let start = state.file_abs_offset + state.position;
    if start <= b < start + 32 * 1024 * 1024 {
        law_queue_looks_ahead(state, lengths, b);
    } else {
        law_queue_takes_the_tail(state, lengths, b);
    }
}

/// While there is something left to read, the queue that a stream gets begins with the piece at
/// the position, and goes on without a gap for as long as the 32 MiB ahead do.
pub proof fn law_queue_begins_here(
    state: StreamState,
    lengths: Lengths,
    queue: PieceQueue,
    b: int,
)
    requires
        lengths.wf(),
        call_ensures(StreamState::queue, (&state, &lengths), queue),
        state.file_abs_offset + state.position <= b,
        b < state.file_abs_offset + state.position + 32 * 1024 * 1024,
        b < state.file_abs_offset + state.file_len,
        b < lengths.total(),
    ensures
        ({
            let dpl = lengths.dpl() as int;
            let first = (state.file_abs_offset + state.position) / dpl;
            &&& 0 <= b / dpl - first < queue@.len()
            &&& queue@[b / dpl - first] == b / dpl
        }),
{
    let dpl = lengths.dpl() as int;
    let start = state.file_abs_offset + state.position;
    let file_end = state.file_abs_offset + state.file_len;
    let end = min(min(start + 32 * 1024 * 1024, file_end), lengths.total() as int);
    let tail = max(state.file_abs_offset as int, file_end - 2 * 1024 * 1024);
    law_queue_is_two_runs(state, lengths);
    lemma_starts_before(min(file_end, lengths.total() as int), dpl, tail / dpl);
    lemma_div_is_ordered(start, b, dpl);
    lemma_div_is_ordered(b, end - 1, dpl);
    lemma_reaches_past(start, dpl, start / dpl);
    lemma_fundamental_div_mod(start, dpl);
    assert(dpl * (start / dpl) == start / dpl * dpl) by (nonlinear_arith);
    assert(state.wanted(lengths)[b / dpl - start / dpl] == b / dpl);
}

/// The pieces from the one at `from` on that start before `end` and exist.
proof fn lemma_run(lengths: Lengths, from: int, end: int)
    requires
        lengths.wf(),
        from >= 0,
        end >= 0,
    ensures
        ({
            let dpl = lengths.dpl() as int;
            let first = from / dpl;
            let limit = min(end, lengths.total() as int);
            let run = pieces_between(lengths, first, blocks(end, dpl));
            &&& forall|i: int| 0 <= i < run.len() ==> (#[trigger] run[i]) == first + i
            &&& run.len() == if first * dpl < limit {
                (limit - 1) / dpl - first + 1
            } else {
                0
            }
        }),
{
    let dpl = lengths.dpl() as int;
    let first = from / dpl;
    let limit = min(end, lengths.total() as int);
    let run = pieces_between(lengths, first, blocks(end, dpl));
    let next = first + run.len();
    lemma_blocks(end, dpl, next);
    law_last_piece(lengths, next);
    if run.len() > 0 {
        let last = run.last();
        lemma_blocks(end, dpl, last);
        law_last_piece(lengths, last);
        assert((last + 1) * dpl == last * dpl + dpl) by (nonlinear_arith);
        lemma_fundamental_div_mod_converse(limit - 1, dpl, last, limit - 1 - last * dpl);
        assert(first * dpl <= last * dpl) by (nonlinear_arith)
            requires
                first <= last,
                dpl >= 1,
        ;
    }
}

/// The queue is two runs of pieces one after the other, each without a gap: from the piece at
/// the position on, as long as a piece starts in the next 32 MiB and before the file and the
/// torrent end; then from the piece on in which the last 2 MiB of the file start, or the whole
/// of a shorter file, as long as a piece starts before the file and the torrent end.
pub proof fn law_queue_is_two_runs(state: StreamState, lengths: Lengths)
    requires
        lengths.wf(),
    ensures
        ({
            let dpl = lengths.dpl() as int;
            let start = state.file_abs_offset + state.position;
            let file_end = state.file_abs_offset + state.file_len;
            let end = min(min(start + 32 * 1024 * 1024, file_end), lengths.total() as int);
            let tail = max(state.file_abs_offset as int, file_end - 2 * 1024 * 1024);
            let tail_end = min(file_end, lengths.total() as int);
            let ahead = if start / dpl * dpl < end {
                (end - 1) / dpl - start / dpl + 1
            } else {
                0
            };
            let at_end = if tail / dpl * dpl < tail_end {
                (tail_end - 1) / dpl - tail / dpl + 1
            } else {
                0
            };
            &&& state.wanted(lengths).len() == ahead + at_end
            &&& forall|i: int|
                0 <= i < ahead ==> #[trigger] state.wanted(lengths)[i] == start / dpl + i
            &&& forall|i: int|
                ahead <= i < ahead + at_end ==> #[trigger] state.wanted(lengths)[i] == tail / dpl
                    + i - ahead
        }),
{
    lemma_run(lengths, state.torrent_pos(), state.window_end());
    lemma_run(lengths, state.tail_start(), state.file_end());
}

/// A piece is in the queue exactly if it is a piece of the torrent that starts before the file
/// ends, and either starts in the 32 MiB from the position on and ends past the position, or
/// ends in the last 2 MiB of the file or past them.
pub proof fn law_queue_membership(state: StreamState, lengths: Lengths, p: int)
    requires
        lengths.wf(),
    ensures
        state.wanted(lengths).contains(p) <==> {
            let start = state.file_abs_offset + state.position;
            let file_end = state.file_abs_offset + state.file_len;
            let piece_start = p * lengths.dpl();
            let piece_end = (p + 1) * lengths.dpl();
            &&& 0 <= p && piece_start < lengths.total() && piece_start < file_end
            &&& {
                ||| piece_start < start + 32 * 1024 * 1024 && piece_end > start
                ||| piece_end > state.file_abs_offset && piece_end > file_end - 2 * 1024 * 1024
            }
        },
{
    let dpl = lengths.dpl() as int;
    let total = lengths.total() as int;
    let start = state.file_abs_offset + state.position;
    let file_end = state.file_abs_offset + state.file_len;
    let end = min(min(start + 32 * 1024 * 1024, file_end), total);
    let tail = max(state.file_abs_offset as int, file_end - 2 * 1024 * 1024);
    let tail_end = min(file_end, total);
    let w = state.wanted(lengths);
    law_queue_is_two_runs(state, lengths);
    lemma_reaches_past(start, dpl, p);
    lemma_reaches_past(tail, dpl, p);
    lemma_starts_before(end, dpl, p);
    lemma_starts_before(tail_end, dpl, p);
    let ahead = if start / dpl * dpl < end {
        (end - 1) / dpl - start / dpl + 1
    } else {
        0
    };
    lemma_starts_before(end, dpl, start / dpl);
    lemma_starts_before(tail_end, dpl, tail / dpl);
    lemma_reaches_past(start, dpl, 0);
    lemma_reaches_past(tail, dpl, 0);
    if w.contains(p) {
        let i = choose|i: int| 0 <= i < w.len() && w[i] == p;
        assert(i < ahead ==> w[i] == start / dpl + i);
        assert(i >= ahead ==> w[i] == tail / dpl + i - ahead);
    }
    if 0 <= p && p * dpl < end && (p + 1) * dpl > start {
        assert(w[p - start / dpl] == p);
    }
    if 0 <= p && p * dpl < tail_end && (p + 1) * dpl > tail {
        assert(w[ahead + p - tail / dpl] == p);
    }
}

proof fn lemma_reaches_past(pos: int, dpl: int, p: int)
    requires
        dpl >= 1,
        pos >= 0,
    ensures
        (p + 1) * dpl > pos <==> p >= pos / dpl,
        pos / dpl >= 0,
{
    let q = pos / dpl;
    lemma_fundamental_div_mod(pos, dpl);
    assert(dpl * q == q * dpl && (q + 1) * dpl == q * dpl + dpl) by (nonlinear_arith);
    if p >= q {
        assert((p + 1) * dpl >= (q + 1) * dpl) by (nonlinear_arith)
            requires
                p >= q,
                dpl >= 1,
        ;
    } else {
        assert((p + 1) * dpl <= q * dpl) by (nonlinear_arith)
            requires
                p + 1 <= q,
                dpl >= 1,
        ;
    }
    assert(q >= 0) by (nonlinear_arith)
        requires
            q * dpl + pos % dpl == pos,
            pos % dpl < dpl,
            pos >= 0,
            dpl >= 1,
    ;
}

proof fn lemma_starts_before(end: int, dpl: int, p: int)
    requires
        dpl >= 1,
        end >= 0,
    ensures
        end >= 1 ==> (p * dpl < end <==> p <= (end - 1) / dpl),
        end == 0 ==> (p * dpl < end <==> p < 0),
{
    if end >= 1 {
        lemma_reaches_past(end - 1, dpl, p - 1);
        assert((p - 1 + 1) * dpl == p * dpl);
    } else {
        assert(p * dpl < 0 <==> p < 0) by (nonlinear_arith)
            requires
                dpl >= 1,
        ;
    }
}

/// The queue can be computed exactly if its bounds fit in a `u64`, and the pieces up to the end
/// of the file, and the one at the position, can be counted in a `u32`.
pub proof fn law_queue_fits_exactly(state: StreamState, lengths: Lengths)
    requires
        lengths.wf(),
    ensures
        ({
            let start = state.file_abs_offset + state.position;
            let end = state.file_abs_offset + state.file_len;
            state.queue_fits(lengths) <==> {
                &&& end <= u64::MAX
                &&& start + 32 * 1024 * 1024 <= u64::MAX
                &&& start < (u32::MAX + 1) * lengths.dpl()
                &&& end <= u32::MAX * lengths.dpl()
            }
        }),
{
    let dpl = lengths.dpl() as int;
    let start = state.torrent_pos();
    let piece = lengths.piece_at(start);
    lemma_blocks(state.window_end(), dpl, u32::MAX as int);
    lemma_blocks(state.file_end(), dpl, u32::MAX as int);
    law_piece_at(lengths, start);
    if piece <= u32::MAX {
        assert((piece + 1) * dpl <= (u32::MAX + 1) * dpl) by (nonlinear_arith)
            requires
                piece <= u32::MAX,
                dpl >= 1,
        ;
    } else {
        assert((u32::MAX + 1) * dpl <= piece * dpl) by (nonlinear_arith)
            requires
                piece >= u32::MAX + 1,
                dpl >= 1,
        ;
    }
}

/// What a stream asks for that lies behind its position lies at the end of the file, and a
/// stream at any other position in the file asks for it too.
pub proof fn law_queue_moves_with_position(
    state: StreamState,
    moved: StreamState,
    lengths: Lengths,
    i: int,
)
    requires
        lengths.wf(),
        moved == (StreamState { position: moved.position, ..state }),
        0 <= i < moved.wanted(lengths).len(),
        (moved.wanted(lengths)[i] + 1) * lengths.dpl() <= moved.file_abs_offset + moved.position,
    ensures
        state.wanted(lengths).contains(moved.wanted(lengths)[i]),
        (moved.wanted(lengths)[i] + 1) * lengths.dpl() > state.file_abs_offset + state.file_len
            - 2 * 1024 * 1024,
{
    let dpl = lengths.dpl() as int;
    let p = moved.wanted(lengths)[i];
    law_queue_is_two_runs(state, lengths);
    law_queue_is_two_runs(moved, lengths);
    law_piece_at(lengths, moved.file_abs_offset + moved.position);
    law_piece_at(lengths, state.tail_start());
    let first = (moved.file_abs_offset + moved.position) / dpl;
    let tail = state.tail_start() / dpl;
    let m = moved.wanted(lengths).len() - i;
    if p >= first {
        assert((p + 1) * dpl >= (first + 1) * dpl) by (nonlinear_arith)
            requires
                p >= first,
                dpl >= 1,
        ;
    }
    assert((p + 1) * dpl >= (tail + 1) * dpl) by (nonlinear_arith)
        requires
            p >= tail,
            dpl >= 1,
    ;
    assert(state.wanted(lengths)[state.wanted(lengths).len() - m] == p);
}

} // verus!
