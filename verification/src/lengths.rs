//! How a torrent of a given length is cut into pieces. This arithmetic is part of the project
//! itself and not taken from an outside crate.
use vstd::arithmetic::div_mod::lemma_fundamental_div_mod;
use vstd::prelude::*;

verus! {

/// Bytes in one chunk, the unit in which peers send data and in which it is written to disk.
pub const CHUNK_SIZE: u32 = 16384;

/// The index of a piece that some [`Lengths`] has found to exist.
#[derive(Clone, Copy, Debug, PartialEq, Eq, Hash)]
pub struct ValidPieceIndex(u32);

impl ValidPieceIndex {
    /// The index as a number.
    pub closed spec fn index(self) -> u32 {
        self.0
    }

    /// The index as a number.
    pub fn get(&self) -> (r: u32)
        ensures
            r == self.index(),
    {
        self.0
    }
}

/// The piece that holds a position, and how many of its bytes lie from that position on.
#[derive(Clone, Copy, Debug, PartialEq, Eq)]
pub struct CurrentPiece {
    pub id: ValidPieceIndex,
    pub piece_remaining: u32,
}

/// The length of a torrent and of its pieces. All pieces have the same length but for the
/// last one, which holds what is left.
#[derive(Clone, Copy, Debug)]
pub struct Lengths {
    total_length: u64,
    piece_length: u32,
}

impl Lengths {
    /// Bytes in the whole torrent.
    pub closed spec fn total(self) -> u64 {
        self.total_length
    }

    /// Bytes in every piece but the last.
    pub closed spec fn dpl(self) -> u32 {
        self.piece_length
    }

    /// The torrent is not empty, and its pieces can be numbered by a `u32`.
    pub open spec fn wf(self) -> bool {
        &&& self.total() >= 1
        &&& self.dpl() >= 1
        &&& self.last_piece() <= u32::MAX
    }

    /// The index of the piece that holds the byte at `pos`.
    pub open spec fn piece_at(self, pos: int) -> int {
        pos / self.dpl() as int
    }

    /// The index of the last piece.
    pub open spec fn last_piece(self) -> int {
        self.piece_at(self.total() - 1)
    }

    /// Where piece `index` ends in the torrent.
    pub open spec fn piece_end(self, index: int) -> int {
        if index < self.last_piece() {
            (index + 1) * self.dpl()
        } else {
            self.total() as int
        }
    }

    /// Some piece holds `pos`, or `pos` is the end of a torrent whose last piece is short.
    pub open spec fn has_current_piece(self, pos: int) -> bool {
        self.piece_at(pos) <= self.last_piece() && pos <= self.total()
    }

    /// The lengths of a torrent of `total_length` bytes in pieces of `piece_length` bytes.
    /// None for an empty torrent, for empty pieces, and where a `u32` cannot number the pieces.
    pub fn new(total_length: u64, piece_length: u32) -> (r: Option<Lengths>)
        ensures
            r is Some <==> total_length >= 1 && piece_length >= 1 && (total_length - 1)
                / piece_length as int <= u32::MAX,
            r matches Some(l) ==> l.wf() && l.total() == total_length && l.dpl() == piece_length,
    {
        if total_length == 0 || piece_length == 0 {
            return None;
        }
        if (total_length - 1) / (piece_length as u64) > u32::MAX as u64 {
            return None;
        }
        Some(Lengths { total_length, piece_length })
    }

    /// Bytes in every piece but the last.
    pub fn default_piece_length(&self) -> (r: u32)
        ensures
            r == self.dpl(),
    {
        self.piece_length
    }

    /// Checks that there is a piece with that index.
    pub fn validate_piece_index(&self, index: u32) -> (r: Option<ValidPieceIndex>)
        requires
            self.wf(),
        ensures
            r is Some <==> index <= self.last_piece(),
            r is Some <==> index * self.dpl() < self.total(),
            r matches Some(id) ==> id.index() == index,
    {
        proof {
            law_last_piece(*self, index as int);
        }
        if index as u64 > (self.total_length - 1) / (self.piece_length as u64) {
            None
        } else {
            Some(ValidPieceIndex(index))
        }
    }

    /// Bytes in the piece `id`.
    pub fn piece_length(&self, id: ValidPieceIndex) -> (r: u32)
        requires
            self.wf(),
            id.index() <= self.last_piece(),
        ensures
            r == self.piece_end(id.index() as int) - id.index() * self.dpl(),
            1 <= r <= self.dpl(),
            r == if (id.index() + 1) * self.dpl() <= self.total() {
                self.dpl() as int
            } else {
                self.total() - id.index() * self.dpl()
            },
    {
        proof {
            law_last_piece(*self, id.index() as int);
            law_piece_end(*self, id.index() as int);
        }
        let last: u64 = (self.total_length - 1) / (self.piece_length as u64);
        proof {
            lemma_fundamental_div_mod(self.total_length - 1, self.piece_length as int);
            assert(self.dpl() * last == last * self.dpl()) by (nonlinear_arith);
            assert((id.0 + 1) * self.dpl() == id.0 * self.dpl() + self.dpl()) by (nonlinear_arith);
        }
        if id.0 as u64 == last {
            let rem: u64 = (self.total_length - 1) % (self.piece_length as u64);
            (rem + 1) as u32
        } else {
            self.piece_length
        }
    }

    /// The piece at `file_pos` bytes into a file that starts at `file_offset_in_torrent`.
    /// None past the end of the torrent.
    pub fn compute_current_piece(
        &self,
        file_pos: u64,
        file_offset_in_torrent: u64,
    ) -> (r: Option<CurrentPiece>)
        requires
            self.wf(),
            file_offset_in_torrent + file_pos <= u64::MAX,
        ensures
            r is Some <==> self.has_current_piece(file_offset_in_torrent + file_pos),
            r matches Some(c) ==> {
                let pos = file_offset_in_torrent + file_pos;
                &&& c.id.index() == self.piece_at(pos)
                &&& c.piece_remaining == self.piece_end(self.piece_at(pos)) - pos
            },
            r is Some <==> file_offset_in_torrent + file_pos < self.total() || (
            file_offset_in_torrent + file_pos == self.total() && self.total() % self.dpl() as u64
                != 0),
            r matches Some(c) ==> {
                let pos = file_offset_in_torrent + file_pos;
                let start = c.id.index() * self.dpl();
                let end = (c.id.index() + 1) * self.dpl();
                &&& start <= pos < end
                &&& pos + c.piece_remaining == if end <= self.total() {
                    end
                } else {
                    self.total() as int
                }
            },
    {
        proof {
            let pos = file_offset_in_torrent + file_pos;
            law_piece_at(*self, pos);
            law_has_current_piece(*self, pos);
            if self.has_current_piece(pos) {
                law_last_piece(*self, self.piece_at(pos));
                law_piece_end(*self, self.piece_at(pos));
            }
        }
        let abs_pos: u64 = file_offset_in_torrent + file_pos;
        let dpl: u64 = self.piece_length as u64;
        let piece: u64 = abs_pos / dpl;
        if piece > u32::MAX as u64 {
            return None;
        }
        let id = match self.validate_piece_index(piece as u32) {
            Some(id) => id,
            None => return None,
        };
        let piece_len: u32 = self.piece_length(id);
        let in_piece: u64 = abs_pos % dpl;
        proof {
            lemma_fundamental_div_mod(abs_pos as int, dpl as int);
            assert(dpl * piece == piece * dpl) by (nonlinear_arith);
            assert((piece + 1) * dpl == piece * dpl + dpl) by (nonlinear_arith);
            if piece < self.last_piece() {
                assert((piece + 1) * dpl <= self.last_piece() * dpl) by (nonlinear_arith)
                    requires
                        piece + 1 <= self.last_piece(),
                        0 <= dpl,
                ;
                lemma_fundamental_div_mod(self.total() - 1, dpl as int);
                assert(dpl * self.last_piece() == self.last_piece() * dpl) by (nonlinear_arith);
            }
        }
        if in_piece > piece_len as u64 {
            return None;
        }
        Some(CurrentPiece { id, piece_remaining: piece_len - in_piece as u32 })
    }
}

/// A byte lies in the piece that [`Lengths::piece_at`] gives.
pub proof fn law_piece_at(lengths: Lengths, pos: int)
    requires
        lengths.dpl() >= 1,
        pos >= 0,
    ensures
        0 <= lengths.piece_at(pos),
        lengths.piece_at(pos) * lengths.dpl() <= pos < (lengths.piece_at(pos) + 1) * lengths.dpl(),
{
    let dpl = lengths.dpl() as int;
    let p = lengths.piece_at(pos);
    lemma_fundamental_div_mod(pos, dpl);
    assert(dpl * p == p * dpl && (p + 1) * dpl == p * dpl + dpl) by (nonlinear_arith);
    assert(p >= 0) by (nonlinear_arith)
        requires
            p * dpl + pos % dpl == pos,
            pos % dpl < dpl,
            pos >= 0,
            dpl >= 1,
    ;
}

/// A piece exists, that is, comes no later than the last one, exactly if it starts before the
/// torrent ends.
pub proof fn law_last_piece(lengths: Lengths, index: int)
    requires
        lengths.dpl() >= 1,
        lengths.total() >= 1,
    ensures
        index <= lengths.last_piece() <==> index * lengths.dpl() < lengths.total(),
        lengths.last_piece() * lengths.dpl() < lengths.total() <= (lengths.last_piece() + 1)
            * lengths.dpl(),
{
    let dpl = lengths.dpl() as int;
    let last = lengths.last_piece();
    law_piece_at(lengths, lengths.total() - 1);
    if index <= last {
        assert(index * dpl <= last * dpl) by (nonlinear_arith)
            requires
                index <= last,
                dpl >= 1,
        ;
    } else {
        assert((last + 1) * dpl <= index * dpl) by (nonlinear_arith)
            requires
                last + 1 <= index,
                dpl >= 1,
        ;
    }
}

/// Every piece ends where the next would start, but no later than the torrent.
pub proof fn law_piece_end(lengths: Lengths, index: int)
    requires
        lengths.dpl() >= 1,
        lengths.total() >= 1,
        index * lengths.dpl() < lengths.total(),
    ensures
        lengths.piece_end(index) == if (index + 1) * lengths.dpl() <= lengths.total() {
            (index + 1) * lengths.dpl()
        } else {
            lengths.total() as int
        },
{
    law_last_piece(lengths, index);
    law_last_piece(lengths, index + 1);
}

/// There is a piece at every position in the torrent, and at its end where the last piece is
/// short.
pub proof fn law_has_current_piece(lengths: Lengths, pos: int)
    requires
        lengths.dpl() >= 1,
        lengths.total() >= 1,
        pos >= 0,
    ensures
        lengths.has_current_piece(pos) <==> pos < lengths.total() || (pos == lengths.total()
            && lengths.total() % lengths.dpl() as u64 != 0),
{
    let dpl = lengths.dpl() as int;
    let total = lengths.total() as int;
    let p = lengths.piece_at(pos);
    law_piece_at(lengths, pos);
    law_last_piece(lengths, p);
    lemma_fundamental_div_mod(pos, dpl);
    assert(dpl * p == p * dpl) by (nonlinear_arith);
}

/// The pieces lie end to end: one ends where the next one starts, and the last one where the
/// torrent ends.
pub proof fn law_pieces_lie_end_to_end(lengths: Lengths, id: ValidPieceIndex, len: u32)
    requires
        lengths.wf(),
        call_ensures(Lengths::piece_length, (&lengths, id), len),
        id.index() * lengths.dpl() < lengths.total(),
    ensures
        len >= 1,
        (id.index() + 1) * lengths.dpl() < lengths.total() ==> id.index() * lengths.dpl() + len == (
        id.index() + 1) * lengths.dpl(),
        (id.index() + 1) * lengths.dpl() >= lengths.total() ==> id.index() * lengths.dpl() + len
            == lengths.total(),
{
    assert((id.index() + 1) * lengths.dpl() == id.index() * lengths.dpl() + lengths.dpl())
        by (nonlinear_arith);
}

proof fn lemma_one_piece(dpl: int, p: int, q: int, pos: int)
    requires
        dpl >= 1,
        p * dpl <= pos < (p + 1) * dpl,
        q * dpl <= pos < (q + 1) * dpl,
    ensures
        p == q,
{
    assert(p == q) by (nonlinear_arith)
        requires
            dpl >= 1,
            p * dpl <= pos,
            pos < (p + 1) * dpl,
            q * dpl <= pos,
            pos < (q + 1) * dpl,
    ;
}

/// From one byte to the next, what remains of the piece gets less by one. After the last byte
/// of a piece comes the whole of the next one.
pub proof fn law_pieces_run_down(
    lengths: Lengths,
    file_pos: u64,
    file_offset: u64,
    here: Option<CurrentPiece>,
    next: Option<CurrentPiece>,
)
    requires
        lengths.wf(),
        file_pos < u64::MAX,
        file_offset + file_pos + 1 < lengths.total(),
        call_ensures(Lengths::compute_current_piece, (&lengths, file_pos, file_offset), here),
        call_ensures(
            Lengths::compute_current_piece,
            (&lengths, (file_pos + 1) as u64, file_offset),
            next,
        ),
    ensures
        here is Some && next is Some,
        here->0.piece_remaining >= 1,
        here->0.piece_remaining > 1 ==> next->0.id.index() == here->0.id.index()
            && next->0.piece_remaining == here->0.piece_remaining - 1,
        here->0.piece_remaining == 1 ==> {
            let p = next->0.id.index();
            let end = (p + 1) * lengths.dpl();
            &&& p == here->0.id.index() + 1
            &&& p * lengths.dpl() == file_offset + file_pos + 1
            &&& next->0.piece_remaining == if end <= lengths.total() {
                lengths.dpl() as int
            } else {
                lengths.total() - p * lengths.dpl()
            }
        },
{
    let dpl = lengths.dpl() as int;
    let pos = file_offset + file_pos;
    let p = here->0.id.index() as int;
    let q = next->0.id.index() as int;
    assert((p + 1) * dpl == p * dpl + dpl && (p + 2) * dpl == p * dpl + dpl + dpl && (q + 1) * dpl
        == q * dpl + dpl) by (nonlinear_arith);
    if here->0.piece_remaining > 1 {
        lemma_one_piece(dpl, p, q, pos + 1);
    } else {
        lemma_one_piece(dpl, p + 1, q, pos + 1);
    }
}

} // verus!
