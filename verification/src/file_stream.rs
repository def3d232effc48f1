//! Reading one file of a torrent from front to back, with seeks.
use crate::lengths::{CurrentPiece, Lengths, CHUNK_SIZE};
use crate::managed_torrent::StreamRequest;
use crate::stream_map::StreamEntry;
use crate::stream_state::StreamState;
use crate::torrent_streams::{
    is_history, law_ids_count_up, opens_in, without_wakers, TorrentStreams,
};
use std::task::Waker;
use vstd::arithmetic::div_mod::{
    lemma_div_is_ordered, lemma_fundamental_div_mod, lemma_fundamental_div_mod_converse,
};
use vstd::prelude::*;

verus! {

/// A stream that reads one file of a torrent. The registry of the torrent's streams has an
/// entry with the same position for it.
pub struct FileStream {
    stream_id: usize,
    file_id: usize,
    position: u64,
    file_len: u64,
    file_torrent_abs_offset: u64,
}

/// Where a seek goes to.
#[derive(Clone, Copy, Debug, PartialEq, Eq)]
pub enum SeekFrom {
    /// That many bytes from the start of the file.
    Start(u64),
    /// That many bytes past the end of the file, or before it if negative.
    End(i64),
    /// That many bytes on from the position, or back if negative.
    Current(i64),
}

/// Why a seek is refused.
#[derive(Clone, Copy, Debug, PartialEq, Eq)]
pub enum SeekError {
    /// A length or position does not fit in an `i64`.
    OutOfRange,
    /// The target lies before the start of the file or past its end.
    InvalidSeek,
}

/// How a read starts.
#[derive(Clone, Copy, Debug, PartialEq, Eq)]
pub enum ReadStart {
    /// The file is over: the read gives no bytes.
    Eof,
    /// The position lies past the end of the torrent: the read fails.
    InvalidPosition,
    /// Find out whether the chunk at that position in the torrent was written, then go on with
    /// [`FileStream::on_chunk_checked`].
    CheckChunk { torrent_abs_pos: u64, current: CurrentPiece },
}

/// How a read goes on once it is known whether the chunk at the position was written.
#[derive(Clone, Copy, Debug, PartialEq, Eq)]
pub enum ReadStep {
    /// There is nothing to read yet. The waker is left with the stream.
    Pending,
    /// Read `len` bytes of the file from `position` on, then go on with
    /// [`FileStream::on_read`].
    Read { file_id: usize, position: u64, len: usize },
}

/// Where a seek goes to, counted from the start of the file.
pub open spec fn seek_target(state: StreamState, to: SeekFrom) -> int {
    match to {
        SeekFrom::Start(s) => s as int,
        SeekFrom::End(e) => state.file_len + e,
        SeekFrom::Current(o) => state.position + o,
    }
}

/// What a seek has to compute with fits in an `i64`.
pub open spec fn seek_in_range(state: StreamState, to: SeekFrom) -> bool {
    &&& state.file_len <= i64::MAX
    &&& to matches SeekFrom::Start(s) ==> s <= i64::MAX
    &&& to is Current ==> state.position <= i64::MAX
}

/// The smaller of two numbers.
pub open spec fn smaller(a: int, b: int) -> int {
    if a <= b {
        a
    } else {
        b
    }
}

/// How many bytes a read may take at once: no more than the buffer holds, and none past the
/// end of the piece, of the file, or of the chunk at the position.
pub open spec fn read_len(state: StreamState, piece_remaining: int, buf_len: int) -> int {
    let chunk_remaining = CHUNK_SIZE - state.torrent_pos() % (CHUNK_SIZE as int);
    smaller(
        smaller(smaller(buf_len, piece_remaining), state.file_len - state.position),
        chunk_remaining,
    )
}

fn min(a: u64, b: u64) -> (r: u64)
    ensures
        r == smaller(a as int, b as int),
{
    if a <= b {
        a
    } else {
        b
    }
}

fn to_i64(value: u64) -> (r: Option<i64>)
    ensures
        r is Some <==> value <= i64::MAX,
        r matches Some(v) ==> v == value,
{
    if value <= i64::MAX as u64 {
        Some(value as i64)
    } else {
        None
    }
}

impl FileStream {
    /// The id of the stream in the registry.
    pub closed spec fn id(self) -> usize {
        self.stream_id
    }

    /// Where the stream stands.
    pub closed spec fn state(self) -> StreamState {
        StreamState {
            file_id: self.file_id,
            file_len: self.file_len,
            file_abs_offset: self.file_torrent_abs_offset,
            position: self.position,
        }
    }

    /// The registry has an entry for the stream, and it says the same of the stream.
    pub open spec fn is_registered(self, streams: TorrentStreams) -> bool {
        streams@.contains_key(self.id()) && streams@[self.id()].state == self.state()
    }

    /// Opens the stream at the start of the file and puts it into the registry.
    pub fn open<H>(request: &StreamRequest<H>, streams: &mut TorrentStreams) -> (r: FileStream)
        ensures
            r.state() == (StreamState {
                file_id: request.file_id,
                file_len: request.file_len,
                file_abs_offset: request.file_torrent_abs_offset,
                position: 0,
            }),
            r.id() == old(streams).next_id_is(),
            final(streams).next_id_is() == if r.id() == usize::MAX {
                0
            } else {
                (r.id() + 1) as usize
            },
            final(streams)@ == old(streams)@.insert(
                r.id(),
                StreamEntry { state: r.state(), waker: None },
            ),
            r.is_registered(*final(streams)),
    {
        let file_id: usize = request.file_id;
        let file_len: u64 = request.file_len;
        let file_torrent_abs_offset: u64 = request.file_torrent_abs_offset;
        let stream_id: usize = streams.add_stream(file_id, file_len, file_torrent_abs_offset);
        FileStream { stream_id, file_id, position: 0, file_len, file_torrent_abs_offset }
    }

    /// Takes the stream out of the registry, with what the registry had of it.
    pub fn close(&self, streams: &mut TorrentStreams) -> (r: Option<StreamEntry>)
        ensures
            final(streams)@ == old(streams)@.remove(self.id()),
            r == if old(streams)@.contains_key(self.id()) {
                Some(old(streams)@[self.id()])
            } else {
                None
            },
            final(streams).next_id_is() == old(streams).next_id_is(),
            !self.is_registered(*final(streams)),
    {
        streams.drop_stream(self.stream_id)
    }

    /// Starts a read.
    pub fn poll_read(&self, lengths: &Lengths) -> (r: ReadStart)
        requires
            lengths.wf(),
            self.state().position != self.state().file_len ==> self.state().torrent_pos()
                <= u64::MAX,
        ensures
            r is Eof <==> self.state().position == self.state().file_len,
            r is InvalidPosition <==> self.state().position != self.state().file_len
                && !lengths.has_current_piece(self.state().torrent_pos()),
            r matches ReadStart::CheckChunk { torrent_abs_pos, current } ==> {
                let pos = self.state().torrent_pos();
                &&& torrent_abs_pos == pos
                &&& current.id.index() == lengths.piece_at(pos)
                &&& current.piece_remaining == lengths.piece_end(lengths.piece_at(pos)) - pos
            },
            r is InvalidPosition <==> self.state().position != self.state().file_len && {
                let pos = self.state().file_abs_offset + self.state().position;
                ||| pos > lengths.total()
                ||| pos == lengths.total() && lengths.total() % lengths.dpl() as u64 == 0
            },
            r matches ReadStart::CheckChunk { torrent_abs_pos, current } ==> {
                let start = current.id.index() * lengths.dpl();
                let end = (current.id.index() + 1) * lengths.dpl();
                &&& torrent_abs_pos == self.state().file_abs_offset + self.state().position
                &&& start <= torrent_abs_pos < end
                &&& torrent_abs_pos + current.piece_remaining == if end <= lengths.total() {
                    end
                } else {
                    lengths.total() as int
                }
            },
    {
        if self.position == self.file_len {
            return ReadStart::Eof;
        }
        match lengths.compute_current_piece(self.position, self.file_torrent_abs_offset) {
            Some(current) => ReadStart::CheckChunk {
                torrent_abs_pos: self.file_torrent_abs_offset + self.position,
                current,
            },
            None => ReadStart::InvalidPosition,
        }
    }

    /// Goes on with a read. Where the chunk at the position was not written yet, `waker` is
    /// left with the stream, to be woken when it is.
    pub fn on_chunk_checked(
        &self,
        streams: &mut TorrentStreams,
        current: CurrentPiece,
        chunk_written: bool,
        waker: Waker,
        buf_len: usize,
    ) -> (r: ReadStep)
        requires
            chunk_written ==> self.state().torrent_pos() <= u64::MAX && self.state().position
                <= self.state().file_len,
        ensures
            r == if chunk_written {
                ReadStep::Read {
                    file_id: self.state().file_id,
                    position: self.state().position,
                    len: read_len(
                        self.state(),
                        current.piece_remaining as int,
                        buf_len as int,
                    ) as usize,
                }
            } else {
                ReadStep::Pending
            },
            chunk_written ==> 0 <= read_len(
                self.state(),
                current.piece_remaining as int,
                buf_len as int,
            ) <= buf_len,
            r is Read <==> chunk_written,
            r matches ReadStep::Read { file_id, position, len } ==> {
                let state = self.state();
                let file_left = state.file_len - state.position;
                let chunk_left = CHUNK_SIZE - (state.file_abs_offset + state.position) % (
                CHUNK_SIZE as int);
                &&& file_id == state.file_id
                &&& position == state.position
                &&& len <= buf_len && len <= current.piece_remaining && len <= file_left && len
                    <= chunk_left
                &&& len == buf_len || len == current.piece_remaining || len == file_left || len
                    == chunk_left
            },
            final(streams)@ == if !chunk_written && old(streams)@.contains_key(self.id()) {
                old(streams)@.insert(
                    self.id(),
                    StreamEntry { state: old(streams)@[self.id()].state, waker: Some(waker) },
                )
            } else {
                old(streams)@
            },
            final(streams).next_id_is() == old(streams).next_id_is(),
            self.is_registered(*old(streams)) ==> self.is_registered(*final(streams)),
    {
        if !chunk_written {
            streams.register_waker(self.stream_id, waker);
            return ReadStep::Pending;
        }
        let torrent_abs_pos: u64 = self.file_torrent_abs_offset + self.position;
        let offset_within_chunk: u64 = torrent_abs_pos % (CHUNK_SIZE as u64);
        let bytes_remaining_in_chunk: u64 = CHUNK_SIZE as u64 - offset_within_chunk;
        let file_remaining: u64 = self.file_len - self.position;
        let fits: u64 = min(
            min(min(buf_len as u64, current.piece_remaining as u64), file_remaining),
            bytes_remaining_in_chunk,
        );
        ReadStep::Read { file_id: self.file_id, position: self.position, len: fits as usize }
    }

    /// Moves the stream to another position, here and in the registry.
    fn set_position(&mut self, streams: &mut TorrentStreams, new_pos: u64)
        requires
            old(streams)@.contains_key(old(self).id()),
        ensures
            final(self).id() == old(self).id(),
            final(self).state() == (StreamState { position: new_pos, ..old(self).state() }),
            final(streams)@ == old(streams)@.insert(
                old(self).id(),
                StreamEntry {
                    state: StreamState {
                        position: new_pos,
                        ..old(streams)@[old(self).id()].state
                    },
                    waker: old(streams)@[old(self).id()].waker,
                },
            ),
            final(streams).next_id_is() == old(streams).next_id_is(),
    {
        self.position = new_pos;
        streams.set_position(self.stream_id, new_pos);
    }

    /// Moves the stream on by `diff` bytes that were read.
    pub fn advance(&mut self, streams: &mut TorrentStreams, diff: u64)
        requires
            old(streams)@.contains_key(old(self).id()),
            old(self).state().position + diff <= u64::MAX,
        ensures
            final(self).id() == old(self).id(),
            final(self).state() == (StreamState {
                position: (old(self).state().position + diff) as u64,
                ..old(self).state()
            }),
            final(streams)@ == old(streams)@.insert(
                old(self).id(),
                StreamEntry {
                    state: StreamState {
                        position: (old(self).state().position + diff) as u64,
                        ..old(streams)@[old(self).id()].state
                    },
                    waker: old(streams)@[old(self).id()].waker,
                },
            ),
            final(streams).next_id_is() == old(streams).next_id_is(),
            old(self).is_registered(*old(streams)) ==> final(self).is_registered(*final(streams)),
    {
        let new_pos: u64 = self.position + diff;
        self.set_position(streams, new_pos)
    }

    /// Ends a read of `len` bytes from the storage. Where it succeeded, the stream moves on
    /// past them. Where it failed, the stream stays.
    pub fn on_read(&mut self, streams: &mut TorrentStreams, len: usize, succeeded: bool)
        requires
            succeeded ==> old(streams)@.contains_key(old(self).id()),
            succeeded ==> old(self).state().position + len <= u64::MAX,
        ensures
            final(self).id() == old(self).id(),
            succeeded ==> final(self).state() == (StreamState {
                position: (old(self).state().position + len) as u64,
                ..old(self).state()
            }),
            succeeded ==> final(streams)@ == old(streams)@.insert(
                old(self).id(),
                StreamEntry {
                    state: StreamState {
                        position: (old(self).state().position + len) as u64,
                        ..old(streams)@[old(self).id()].state
                    },
                    waker: old(streams)@[old(self).id()].waker,
                },
            ),
            !succeeded ==> *final(self) == *old(self) && final(streams)@ == old(streams)@,
            final(streams).next_id_is() == old(streams).next_id_is(),
            old(self).is_registered(*old(streams)) ==> final(self).is_registered(*final(streams)),
    {
        if succeeded {
            self.advance(streams, len as u64);
        }
    }

    /// Finds out where a seek goes to, counted from the start of the file.
    pub fn check_seek(&self, position: SeekFrom) -> (r: Result<u64, SeekError>)
        ensures
            r == if !seek_in_range(self.state(), position) {
                Err::<u64, SeekError>(SeekError::OutOfRange)
            } else if 0 <= seek_target(self.state(), position) <= self.state().file_len {
                Ok(seek_target(self.state(), position) as u64)
            } else {
                Err(SeekError::InvalidSeek)
            },
            self.state().file_len > i64::MAX ==> r == Err::<u64, SeekError>(SeekError::OutOfRange),
            position matches SeekFrom::Start(s) ==> self.state().file_len <= i64::MAX ==> r
                == if s <= self.state().file_len {
                Ok::<u64, SeekError>(s)
            } else if s <= i64::MAX {
                Err(SeekError::InvalidSeek)
            } else {
                Err(SeekError::OutOfRange)
            },
            position matches SeekFrom::End(e) ==> self.state().file_len <= i64::MAX ==> r == if 0
                <= self.state().file_len + e <= self.state().file_len {
                Ok::<u64, SeekError>((self.state().file_len + e) as u64)
            } else {
                Err(SeekError::InvalidSeek)
            },
            position matches SeekFrom::Current(o) ==> self.state().file_len <= i64::MAX ==> r
                == if self.state().position > i64::MAX {
                Err::<u64, SeekError>(SeekError::OutOfRange)
            } else if 0 <= self.state().position + o <= self.state().file_len {
                Ok((self.state().position + o) as u64)
            } else {
                Err(SeekError::InvalidSeek)
            },
    {
        let end: i128 = match to_i64(self.file_len) {
            Some(end) => end as i128,
            None => return Err(SeekError::OutOfRange),
        };
        let new_pos: i128 = match position {
            SeekFrom::Start(s) => match to_i64(s) {
                Some(s) => s as i128,
                None => return Err(SeekError::OutOfRange),
            },
            SeekFrom::End(e) => end + e as i128,
            SeekFrom::Current(o) => match to_i64(self.position) {
                Some(current) => current as i128 + o as i128,
                None => return Err(SeekError::OutOfRange),
            },
        };
        if new_pos < 0 || new_pos > end {
            return Err(SeekError::InvalidSeek);
        }
        Ok(new_pos as u64)
    }

    /// Moves the stream to where a seek goes to. A seek that is refused changes nothing.
    pub fn start_seek(&mut self, streams: &mut TorrentStreams, position: SeekFrom) -> (r: Result<
        (),
        SeekError,
    >)
        requires
            seek_in_range(old(self).state(), position) && 0 <= seek_target(
                old(self).state(),
                position,
            ) <= old(self).state().file_len ==> old(streams)@.contains_key(old(self).id()),
        ensures
            r == if !seek_in_range(old(self).state(), position) {
                Err::<(), SeekError>(SeekError::OutOfRange)
            } else if 0 <= seek_target(old(self).state(), position)
                <= old(self).state().file_len {
                Ok(())
            } else {
                Err(SeekError::InvalidSeek)
            },
            old(self).state().file_len > i64::MAX ==> r == Err::<(), SeekError>(SeekError::OutOfRange),
            position matches SeekFrom::Start(s) ==> old(self).state().file_len <= i64::MAX ==> r
                == if s <= old(self).state().file_len {
                Ok::<(), SeekError>(())
            } else if s <= i64::MAX {
                Err(SeekError::InvalidSeek)
            } else {
                Err(SeekError::OutOfRange)
            },
            position matches SeekFrom::End(e) ==> old(self).state().file_len <= i64::MAX ==> r == if 0
                <= old(self).state().file_len + e <= old(self).state().file_len {
                Ok::<(), SeekError>(())
            } else {
                Err(SeekError::InvalidSeek)
            },
            position matches SeekFrom::Current(o) ==> old(self).state().file_len <= i64::MAX ==> r
                == if old(self).state().position > i64::MAX {
                Err::<(), SeekError>(SeekError::OutOfRange)
            } else if 0 <= old(self).state().position + o <= old(self).state().file_len {
                Ok(())
            } else {
                Err(SeekError::InvalidSeek)
            },
            r is Ok ==> (position matches SeekFrom::Start(s) ==> final(self).state().position == s),
            r is Ok ==> (position matches SeekFrom::End(e) ==> final(self).state().position
                == old(self).state().file_len + e),
            r is Ok ==> (position matches SeekFrom::Current(o) ==> final(self).state().position
                == old(self).state().position + o),
            final(self).id() == old(self).id(),
            r is Err ==> *final(self) == *old(self) && final(streams)@ == old(streams)@,
            r is Ok ==> final(self).state() == (StreamState {
                position: seek_target(old(self).state(), position) as u64,
                ..old(self).state()
            }),
            r is Ok ==> final(streams)@ == old(streams)@.insert(
                old(self).id(),
                StreamEntry {
                    state: StreamState {
                        position: seek_target(old(self).state(), position) as u64,
                        ..old(streams)@[old(self).id()].state
                    },
                    waker: old(streams)@[old(self).id()].waker,
                },
            ),
            final(streams).next_id_is() == old(streams).next_id_is(),
            old(self).is_registered(*old(streams)) ==> final(self).is_registered(*final(streams)),
    {
        match self.check_seek(position) {
            Ok(new_pos) => {
                self.set_position(streams, new_pos);
                Ok(())
            },
            Err(e) => Err(e),
        }
    }

    /// The position after a seek.
    pub fn poll_complete(&self) -> (r: u64)
        ensures
            r == self.state().position,
    {
        self.position
    }

    /// The id of the stream in the registry.
    pub fn stream_id(&self) -> (r: usize)
        ensures
            r == self.id(),
    {
        self.stream_id
    }

    /// The file that the stream reads.
    pub fn file_id(&self) -> (r: usize)
        ensures
            r == self.state().file_id,
    {
        self.file_id
    }

    /// The next byte to read, counted from the start of the file.
    pub fn position(&self) -> (r: u64)
        ensures
            r == self.state().position,
    {
        self.position
    }

    /// Bytes in the file.
    pub fn len(&self) -> (r: u64)
        ensures
            r == self.state().file_len,
    {
        self.file_len
    }
}

/// A seek goes to the byte that it names: counted from the start, from the end or from the
/// position.
pub proof fn law_seek_goes_where_it_says(state: StreamState, s: u64, e: i64, o: i64)
    ensures
        seek_target(state, SeekFrom::Start(s)) == s,
        seek_target(state, SeekFrom::End(e)) == state.file_len + e,
        seek_target(state, SeekFrom::Current(o)) == state.position + o,
{
}

/// Seeks add up: from `s` on by `o` is at `s + o`. A seek to where the stream stands leaves it
/// there, and a seek back undoes a seek.
pub proof fn law_seeks_add_up(state: StreamState, s: u64, o: i64, back: i64)
    requires
        state.position <= state.file_len <= i64::MAX,
        0 <= s <= state.file_len,
        0 <= s + o <= state.file_len,
        back == state.position - s,
    ensures
        ({
            let at_s = StreamState {
                position: seek_target(state, SeekFrom::Start(s)) as u64,
                ..state
            };
            &&& seek_in_range(state, SeekFrom::Start(s)) && at_s.position == s
            &&& seek_in_range(at_s, SeekFrom::Current(o)) && seek_target(
                at_s,
                SeekFrom::Current(o),
            ) == s + o
            &&& seek_target(state, SeekFrom::Start(state.position)) == state.position
            &&& seek_target(state, SeekFrom::Current(0)) == state.position
            &&& seek_target(at_s, SeekFrom::Current(back)) == state.position
        }),
{
}

/// A seek from the start that is let through goes to the very byte that was asked for, and one
/// to a byte of the file is let through, as long as the length of the file fits in an `i64`.
pub proof fn law_seek_from_start(stream: FileStream, s: u64, r: Result<u64, SeekError>)
    requires
        stream.state().file_len <= i64::MAX,
        call_ensures(FileStream::check_seek, (&stream, SeekFrom::Start(s)), r),
    ensures
        r matches Ok(pos) ==> pos == s,
        r is Ok <==> s <= stream.state().file_len,
{
}

/// A seek from the end or from the position that is let through goes as many bytes on as was
/// asked for. It is let through if the file has that position.
pub proof fn law_relative_seek(
    stream: FileStream,
    e: i64,
    o: i64,
    from_end: Result<u64, SeekError>,
    from_here: Result<u64, SeekError>,
)
    requires
        stream.state().position <= i64::MAX,
        stream.state().file_len <= i64::MAX,
        call_ensures(FileStream::check_seek, (&stream, SeekFrom::End(e)), from_end),
        call_ensures(FileStream::check_seek, (&stream, SeekFrom::Current(o)), from_here),
    ensures
        from_end matches Ok(pos) ==> pos - stream.state().file_len == e,
        from_end is Ok <==> e <= 0 && stream.state().file_len + e >= 0,
        from_here matches Ok(pos) ==> pos - stream.state().position == o,
        from_here is Ok <==> 0 <= stream.state().position + o <= stream.state().file_len,
{
}

/// Seeking to `s` and from there on by `o` goes to where seeking to `s + o` goes. Seeking to
/// where the stream stands changes nothing.
pub proof fn law_seek_then_seek_on(
    stream: FileStream,
    moved: FileStream,
    s: u64,
    o: i64,
    first: Result<u64, SeekError>,
    second: Result<u64, SeekError>,
    at_once: Result<u64, SeekError>,
    stay: Result<u64, SeekError>,
)
    requires
        stream.state().position <= stream.state().file_len <= i64::MAX,
        call_ensures(FileStream::check_seek, (&stream, SeekFrom::Start(s)), first),
        first is Ok,
        moved.state() == (StreamState { position: first->Ok_0, ..stream.state() }),
        call_ensures(FileStream::check_seek, (&moved, SeekFrom::Current(o)), second),
        0 <= s + o <= u64::MAX,
        call_ensures(FileStream::check_seek, (&stream, SeekFrom::Start((s + o) as u64)), at_once),
        call_ensures(
            FileStream::check_seek,
            (&stream, SeekFrom::Start(stream.state().position)),
            stay,
        ),
    ensures
        second is Ok <==> at_once is Ok,
        second matches Ok(pos) ==> pos == s + o && at_once == second,
        stay == Ok::<u64, SeekError>(stream.state().position),
{
}

/// A seek can be computed exactly if the length of the file, and the number that it starts
/// from, fit in an `i64`.
pub proof fn law_seek_in_range(state: StreamState, s: u64, e: i64, o: i64)
    ensures
        seek_in_range(state, SeekFrom::Start(s)) <==> state.file_len <= i64::MAX && s <= i64::MAX,
        seek_in_range(state, SeekFrom::End(e)) <==> state.file_len <= i64::MAX,
        seek_in_range(state, SeekFrom::Current(o)) <==> state.file_len <= i64::MAX
            && state.position <= i64::MAX,
{
}

/// A read of a file that lies in the torrent is over exactly at the end of the file, and before
/// that asks for the chunk at the position. It never fails for its position.
pub proof fn law_read_can_start(stream: FileStream, lengths: Lengths, r: ReadStart)
    requires
        lengths.wf(),
        call_ensures(FileStream::poll_read, (&stream, &lengths), r),
        stream.state().position <= stream.state().file_len,
        stream.state().file_abs_offset + stream.state().file_len <= lengths.total(),
    ensures
        r is Eof <==> stream.state().position == stream.state().file_len,
        r is CheckChunk <==> stream.state().position < stream.state().file_len,
        r matches ReadStart::CheckChunk { torrent_abs_pos, current } ==> torrent_abs_pos
            - stream.state().file_abs_offset == stream.state().position && current.piece_remaining
            >= 1,
{
}

/// A read takes as much as the buffer, the piece, the file and the chunk at the position all
/// have room for, and no less.
pub proof fn law_read_takes_all_it_may(state: StreamState, piece_remaining: int, buf_len: int)
    requires
        state.position <= state.file_len,
    ensures
        ({
            let n = read_len(state, piece_remaining, buf_len);
            let file_left = state.file_len - state.position;
            let chunk_left = CHUNK_SIZE - (state.file_abs_offset + state.position) % (
            CHUNK_SIZE as int);
            &&& n <= buf_len && n <= piece_remaining && n <= file_left && n <= chunk_left
            &&& n == buf_len || n == piece_remaining || n == file_left || n == chunk_left
        }),
{
}

/// A read of a file that lies in the torrent takes bytes of one chunk, of one piece and of the
/// file only, so that what may be read is looked into again at every boundary of a chunk. It
/// takes at least one byte, unless there is no room for any.
pub proof fn law_read_stays_in_chunk(state: StreamState, lengths: Lengths, buf_len: int)
    requires
        lengths.wf(),
        state.lies_in(lengths),
        state.position < state.file_len,
        buf_len >= 0,
    ensures
        lengths.has_current_piece(state.torrent_pos()),
        ({
            let pos = state.torrent_pos();
            let piece = lengths.piece_at(pos);
            let n = read_len(state, lengths.piece_end(piece) - pos, buf_len);
            &&& 0 <= n <= buf_len
            &&& n > 0 <==> buf_len > 0
            &&& state.position + n <= state.file_len
            &&& n > 0 ==> (pos + n - 1) / (CHUNK_SIZE as int) == pos / (CHUNK_SIZE as int)
            &&& n > 0 ==> lengths.piece_at(pos + n - 1) == piece
        }),
{
    let pos = state.torrent_pos();
    let dpl = lengths.dpl() as int;
    let piece = lengths.piece_at(pos);
    let last = lengths.last_piece();
    let n = read_len(state, lengths.piece_end(piece) - pos, buf_len);
    lemma_fundamental_div_mod(pos, dpl);
    lemma_div_is_ordered(pos, lengths.total() - 1, dpl);
    lemma_fundamental_div_mod(lengths.total() - 1, dpl);
    assert(dpl * piece == piece * dpl && (piece + 1) * dpl == piece * dpl + dpl)
        by (nonlinear_arith);
    assert(dpl * last == last * dpl) by (nonlinear_arith);
    if n > 0 {
        lemma_fundamental_div_mod_converse(pos + n - 1, dpl, piece, pos + n - 1 - piece * dpl);
    }
}

/// The reads that take a stream to the end of its file, each with the position at which it
/// starts and the number of bytes that it takes into a buffer of `buf_len` bytes.
pub open spec fn reads_to_eof(state: StreamState, lengths: Lengths, buf_len: int) -> Seq<(int, int)>
    decreases state.file_len - state.position,
{
    let pos = state.torrent_pos();
    let n = read_len(state, lengths.piece_end(lengths.piece_at(pos)) - pos, buf_len);
    if state.position < state.file_len && 0 < n <= state.file_len - state.position {
        let next = StreamState { position: (state.position + n) as u64, ..state };
        seq![(state.position as int, n)] + reads_to_eof(next, lengths, buf_len)
    } else {
        Seq::empty()
    }
}

/// Reading again and again reads every byte from the position to the end of the file once, in
/// order, and then comes to the end.
pub proof fn law_reads_reach_eof(state: StreamState, lengths: Lengths, buf_len: int)
    requires
        lengths.wf(),
        state.lies_in(lengths),
        buf_len > 0,
    ensures
        ({
            let reads = reads_to_eof(state, lengths, buf_len);
            &&& reads.len() == 0 <==> state.position == state.file_len
            &&& reads.len() > 0 ==> reads[0].0 == state.position && reads.last().0
                + reads.last().1 == state.file_len
            &&& forall|i: int| 0 <= i < reads.len() ==> (#[trigger] reads[i]).1 > 0
            &&& forall|i: int, j: int|
                0 <= i < reads.len() && j == i + 1 && j < reads.len() ==> (
                #[trigger] reads[j]).0 == (#[trigger] reads[i]).0 + reads[i].1
        }),
    decreases state.file_len - state.position,
{
    if state.position < state.file_len {
        law_read_stays_in_chunk(state, lengths, buf_len);
        let pos = state.torrent_pos();
        let n = read_len(state, lengths.piece_end(lengths.piece_at(pos)) - pos, buf_len);
        let next = StreamState { position: (state.position + n) as u64, ..state };
        law_reads_reach_eof(next, lengths, buf_len);
        let rest = reads_to_eof(next, lengths, buf_len);
        let reads = reads_to_eof(state, lengths, buf_len);
        assert(reads =~= seq![(state.position as int, n)] + rest);
        assert forall|i: int, j: int|
            0 <= i < reads.len() && j == i + 1 && j < reads.len() implies (#[trigger] reads[j]).0
            == (#[trigger] reads[i]).0 + reads[i].1 by {
            if i > 0 {
                assert(reads[i] == rest[i - 1] && reads[j] == rest[j - 1]);
            } else {
                assert(reads[j] == rest[0]);
            }
        }
        assert forall|i: int| 0 <= i < reads.len() implies (#[trigger] reads[i]).1 > 0 by {
            if i > 0 {
                assert(reads[i] == rest[i - 1]);
            }
        }
        if rest.len() > 0 {
            assert(reads.last() == rest.last());
        }
    }
}

/// The reads of a stream into one buffer after the other, each with the position at which it
/// starts and the number of bytes that it takes. At the end of the file a read takes nothing.
pub open spec fn reads_into(state: StreamState, lengths: Lengths, buf_lens: Seq<int>) -> Seq<
    (int, int),
>
    decreases buf_lens.len(),
{
    if buf_lens.len() == 0 {
        Seq::empty()
    } else {
        let pos = state.torrent_pos();
        let n = if state.position == state.file_len {
            0
        } else {
            read_len(state, lengths.piece_end(lengths.piece_at(pos)) - pos, buf_lens[0])
        };
        let next = StreamState { position: (state.position + n) as u64, ..state };
        seq![(state.position as int, n)] + reads_into(next, lengths, buf_lens.drop_first())
    }
}

/// Whatever the sizes of the buffers, the reads follow on each other from the position on and
/// stay in the file. One that takes nothing is at the end of the file. After as many reads as
/// there were bytes left, the stream is at the end.
pub proof fn law_reads_follow_on(state: StreamState, lengths: Lengths, buf_lens: Seq<int>)
    requires
        lengths.wf(),
        state.lies_in(lengths),
        forall|i: int| 0 <= i < buf_lens.len() ==> #[trigger] buf_lens[i] > 0,
    ensures
        ({
            let reads = reads_into(state, lengths, buf_lens);
            &&& reads.len() == buf_lens.len()
            &&& reads.len() > 0 ==> reads[0].0 == state.position
            &&& forall|i: int, j: int|
                0 <= i < reads.len() && j == i + 1 && j < reads.len() ==> (
                #[trigger] reads[j]).0 == (#[trigger] reads[i]).0 + reads[i].1
            &&& forall|i: int|
                0 <= i < reads.len() ==> {
                    &&& 0 <= (#[trigger] reads[i]).1 <= buf_lens[i]
                    &&& reads[i].0 + reads[i].1 <= state.file_len
                    &&& reads[i].1 == 0 <==> reads[i].0 == state.file_len
                }
            &&& reads.len() > 0 && reads.len() >= state.file_len - state.position
                ==> reads.last().0 + reads.last().1 == state.file_len
        }),
    decreases buf_lens.len(),
{
    if buf_lens.len() > 0 {
        if state.position < state.file_len {
            law_read_stays_in_chunk(state, lengths, buf_lens[0]);
        }
        let reads = reads_into(state, lengths, buf_lens);
        let n = reads[0].1;
        let next = StreamState { position: (state.position + n) as u64, ..state };
        let rest_lens = buf_lens.drop_first();
        let rest = reads_into(next, lengths, rest_lens);
        law_reads_follow_on(next, lengths, rest_lens);
        assert(reads =~= seq![(state.position as int, n)] + rest);
        assert forall|i: int, j: int|
            0 <= i < reads.len() && j == i + 1 && j < reads.len() implies (#[trigger] reads[j]).0
            == (#[trigger] reads[i]).0 + reads[i].1 by {
            if i > 0 {
                assert(reads[i] == rest[i - 1] && reads[j] == rest[j - 1]);
            } else {
                assert(reads[j] == rest[0]);
            }
        }
        assert forall|i: int| 0 <= i < reads.len() implies {
            &&& 0 <= (#[trigger] reads[i]).1 <= buf_lens[i]
            &&& reads[i].0 + reads[i].1 <= state.file_len
            &&& reads[i].1 == 0 <==> reads[i].0 == state.file_len
        } by {
            if i > 0 {
                assert(reads[i] == rest[i - 1]);
                assert(buf_lens[i] == rest_lens[i - 1]);
            }
        }
        if rest.len() > 0 {
            assert(reads.last() == rest.last());
        }
    }
}

/// Two streams that were opened at different times in the history of a registry have
/// different ids, unless all ids came round between the two. Opening, moving, waking or
/// dropping one leaves the other registered at its position.
pub proof fn law_streams_keep_apart(
    history: Seq<TorrentStreams>,
    opened: Seq<bool>,
    i: int,
    j: int,
    a: FileStream,
    b: FileStream,
    before: TorrentStreams,
    after: TorrentStreams,
    reached: spec_fn(StreamState) -> bool,
)
    requires
        is_history(history, opened),
        0 <= i < opened.len() && opened[i] && a.id() == history[i].next_id_is(),
        0 <= j < opened.len() && opened[j] && b.id() == history[j].next_id_is(),
        i != j,
        (opens_in(opened.take(j)) - opens_in(opened.take(i))) % (usize::MAX + 1) != 0,
        a.is_registered(before),
        ({
            ||| after@ == before@.insert(b.id(), after@[b.id()])
            ||| after@ == before@.remove(b.id())
            ||| after@ == without_wakers(before@, reached)
        }),
    ensures
        a.id() != b.id(),
        a.is_registered(after),
        after@ == before@.insert(b.id(), after@[b.id()]) || after@ == before@.remove(b.id())
            ==> after@[a.id()] == before@[a.id()],
{
    let first = if i < j {
        i
    } else {
        j
    };
    let second = if i < j {
        j
    } else {
        i
    };
    law_ids_count_up(history, opened, first, second);
    if j < i {
        let count = opens_in(opened.take(i)) - opens_in(opened.take(j));
        let ids = usize::MAX + 1;
        lemma_fundamental_div_mod(count, ids);
        if count % ids == 0 {
            let laps = count / ids;
            assert((-laps) * ids == -(ids * laps)) by (nonlinear_arith);
            lemma_fundamental_div_mod_converse(-count, ids, -laps, 0);
        }
    }
}

/// A stream that stands in its file still does so after a seek that is not refused, and after
/// a read.
pub proof fn law_stream_stays_in_file(
    state: StreamState,
    lengths: Lengths,
    to: SeekFrom,
    buf_len: int,
)
    requires
        lengths.wf(),
        state.lies_in(lengths),
        buf_len >= 0,
    ensures
        0 <= seek_target(state, to) <= state.file_len ==> (StreamState {
            position: seek_target(state, to) as u64,
            ..state
        }).lies_in(lengths),
        state.position < state.file_len ==> ({
            let pos = state.torrent_pos();
            let n = read_len(state, lengths.piece_end(lengths.piece_at(pos)) - pos, buf_len);
            (StreamState { position: (state.position + n) as u64, ..state }).lies_in(lengths)
        }),
{
    if state.position < state.file_len {
        law_read_stays_in_chunk(state, lengths, buf_len);
    }
}

} // verus!
