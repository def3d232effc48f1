//! What a torrent must be like for one of its files to be streamed.
use crate::file_info::FileInfo;
use crate::lengths::Lengths;
use vstd::prelude::*;

verus! {

/// What a torrent says of its contents.
pub struct TorrentMetadata {
    pub lengths: Lengths,
    pub file_infos: Vec<FileInfo>,
}

/// What a torrent is doing. `S` is the storage with the torrent's files, `H` the handle on the
/// streams that are open on it.
pub enum ManagedTorrentState<S, H> {
    Paused { files: S, streams: H },
    Live { files: S, streams: H },
    /// Any state in which there are no files to read, by its name.
    Other { name: String },
}

/// A torrent: what it is doing, its metadata once they are known, and what tracks the chunks
/// that were written, as long as there is one.
pub struct ManagedTorrent<S, C, H> {
    pub state: ManagedTorrentState<S, H>,
    pub metadata: Option<TorrentMetadata>,
    pub chunk_tracker: Option<C>,
}

/// Why a file cannot be streamed.
pub enum StreamError {
    /// The torrent's metadata are not known yet.
    MetadataNotResolved,
    /// In the named state there are no files to read.
    NoStorage { state: String },
    /// The torrent has no file with that id.
    InvalidFile,
    /// In the named state there are no streams.
    NoStreams { state: String },
}

/// Whether to turn to the peers again from which nothing was needed so far.
#[derive(Clone, Copy, Debug, PartialEq, Eq)]
pub enum Reconnect {
    /// The file is there in full.
    FileFinished,
    /// The file is not there in full, but the torrent is not live and has no peers.
    NotLive,
    /// The file is not there in full: connect to all peers that were not needed.
    NotNeededPeers,
}

/// The part of a file that a stream is to read, before the stream is open. `streams` is the
/// handle on the streams of the torrent.
pub struct StreamRequest<H> {
    pub file_id: usize,
    pub file_len: u64,
    pub file_torrent_abs_offset: u64,
    pub streams: H,
}

impl StreamError {
    pub open spec fn message_is(self) -> Seq<char> {
        match self {
            StreamError::MetadataNotResolved => "torrent metadata is not resolved"@,
            StreamError::NoStorage { state } => "with_storage_and_file: invalid state: "@ + state@,
            StreamError::InvalidFile => "invalid file"@,
            StreamError::NoStreams { state } => "streams: invalid state "@ + state@,
        }
    }

    /// The error in words.
    pub fn message(&self) -> (r: String)
        ensures
            r@ == self.message_is(),
            self is MetadataNotResolved ==> r@ == "torrent metadata is not resolved"@,
            *self matches StreamError::NoStorage { state } ==> r@
                == "with_storage_and_file: invalid state: "@ + state@,
            self is InvalidFile ==> r@ == "invalid file"@,
            *self matches StreamError::NoStreams { state } ==> r@ == "streams: invalid state "@
                + state@,
    {
        match self {
            StreamError::MetadataNotResolved => "torrent metadata is not resolved".to_owned(),
            StreamError::NoStorage { state } => {
                let mut message = "with_storage_and_file: invalid state: ".to_owned();
                message.append(state.as_str());
                message
            },
            StreamError::InvalidFile => "invalid file".to_owned(),
            StreamError::NoStreams { state } => {
                let mut message = "streams: invalid state ".to_owned();
                message.append(state.as_str());
                message
            },
        }
    }
}

impl Reconnect {
    /// The file is not there in full.
    pub fn needed(&self) -> (r: bool)
        ensures
            r == !(self is FileFinished),
    {
        match self {
            Reconnect::FileFinished => false,
            Reconnect::NotLive => true,
            Reconnect::NotNeededPeers => true,
        }
    }
}

impl<S, H> ManagedTorrentState<S, H> {
    /// The state has files to read, and streams.
    pub open spec fn is_active(self) -> bool {
        self is Paused || self is Live
    }

    pub open spec fn files_are(self) -> S {
        match self {
            ManagedTorrentState::Paused { files, .. } => files,
            ManagedTorrentState::Live { files, .. } => files,
            ManagedTorrentState::Other { .. } => arbitrary(),
        }
    }

    pub open spec fn streams_are(self) -> H {
        match self {
            ManagedTorrentState::Paused { streams, .. } => streams,
            ManagedTorrentState::Live { streams, .. } => streams,
            ManagedTorrentState::Other { .. } => arbitrary(),
        }
    }
}

impl<S, C, H> ManagedTorrent<S, C, H> {
    /// The chunk tracker can be asked for the file.
    pub open spec fn can_ask(self) -> bool {
        self.metadata is Some && self.chunk_tracker is Some
    }

    /// `finished` is what `ask` may say of the file, or false where there is nothing to ask.
    pub open spec fn may_be_finished<F: FnOnce(&C, &FileInfo) -> bool>(
        self,
        file_id: usize,
        ask: F,
        finished: bool,
    ) -> bool {
        if self.can_ask() {
            ask.ensures(
                (&self.chunk_tracker->0, &self.metadata->0.file_infos@[file_id as int]),
                finished,
            )
        } else {
            !finished
        }
    }

    /// Lets `f` work on the torrent's storage and one of its files.
    pub fn with_storage_and_file<F, R>(&self, file_id: usize, f: F, metadata: &TorrentMetadata) -> (r:
        Result<R, StreamError>) where F: FnOnce(&S, &FileInfo) -> R
        requires
            self.state.is_active() && file_id < metadata.file_infos@.len() ==> f.requires(
                (&self.state.files_are(), &metadata.file_infos@[file_id as int]),
            ),
        ensures
            r is Ok <==> self.state.is_active() && file_id < metadata.file_infos@.len(),
            r matches Ok(v) ==> f.ensures(
                (&self.state.files_are(), &metadata.file_infos@[file_id as int]),
                v,
            ),
            r matches Err(e) ==> match self.state {
                ManagedTorrentState::Other { name } => e matches StreamError::NoStorage { state }
                    && state@ == name@,
                _ => e is InvalidFile,
            },
            r is Ok <==> !(self.state is Other) && file_id < metadata.file_infos@.len(),
            (self.state matches ManagedTorrentState::Paused { files, .. } ==> (r matches Ok(v)
                ==> f.ensures((&files, &metadata.file_infos@[file_id as int]), v))),
            (self.state matches ManagedTorrentState::Live { files, .. } ==> (r matches Ok(v)
                ==> f.ensures((&files, &metadata.file_infos@[file_id as int]), v))),
    {
        let files = match &self.state {
            ManagedTorrentState::Paused { files, .. } => files,
            ManagedTorrentState::Live { files, .. } => files,
            ManagedTorrentState::Other { name } => {
                return Err(StreamError::NoStorage { state: name.clone() });
            },
        };
        if file_id < metadata.file_infos.len() {
            Ok(f(files, &metadata.file_infos[file_id]))
        } else {
            Err(StreamError::InvalidFile)
        }
    }

    /// The handle on the torrent's streams.
    pub fn streams(&self) -> (r: Result<H, StreamError>) where H: Clone
        ensures
            r is Ok <==> self.state.is_active(),
            r matches Ok(h) ==> cloned::<H>(self.state.streams_are(), h),
            r matches Err(e) ==> self.state matches ManagedTorrentState::Other { name } && (
            e matches StreamError::NoStreams { state } && state@ == name@),
            r is Ok <==> !(self.state is Other),
            (self.state matches ManagedTorrentState::Paused { streams, .. } ==> (r matches Ok(h)
                ==> cloned::<H>(streams, h))),
            (self.state matches ManagedTorrentState::Live { streams, .. } ==> (r matches Ok(h)
                ==> cloned::<H>(streams, h))),
    {
        match &self.state {
            ManagedTorrentState::Paused { streams, .. } => Ok(streams.clone()),
            ManagedTorrentState::Live { streams, .. } => Ok(streams.clone()),
            ManagedTorrentState::Other { name } => {
                Err(StreamError::NoStreams { state: name.clone() })
            },
        }
    }

    /// The file is there in full. `ask` puts the question to the chunk tracker. As long as
    /// there is none, or no metadata, no file is.
    pub fn is_file_finished<F>(&self, file_id: usize, ask: F) -> (r: bool) where
        F: FnOnce(&C, &FileInfo) -> bool,

        requires
            self.can_ask() ==> file_id < self.metadata->0.file_infos@.len() && ask.requires(
                (&self.chunk_tracker->0, &self.metadata->0.file_infos@[file_id as int]),
            ),
        ensures
            self.may_be_finished(file_id, ask, r),
            self.metadata is None || self.chunk_tracker is None ==> !r,
            self.metadata matches Some(metadata) ==> (self.chunk_tracker matches Some(tracker)
                ==> ask.ensures((&tracker, &metadata.file_infos@[file_id as int]), r)),
    {
        let metadata = match &self.metadata {
            Some(metadata) => metadata,
            None => return false,
        };
        match &self.chunk_tracker {
            Some(chunk_tracker) => ask(chunk_tracker, &metadata.file_infos[file_id]),
            None => false,
        }
    }

    /// What to do about peers when the file is to be streamed. `ask` puts to the chunk tracker
    /// the question whether the file is there in full.
    pub fn maybe_reconnect_needed_peers_for_file<F>(&self, file_id: usize, ask: F) -> (r:
        Reconnect) where F: FnOnce(&C, &FileInfo) -> bool
        requires
            self.can_ask() ==> file_id < self.metadata->0.file_infos@.len() && ask.requires(
                (&self.chunk_tracker->0, &self.metadata->0.file_infos@[file_id as int]),
            ),
        ensures
            self.may_be_finished(file_id, ask, r is FileFinished),
            r is NotNeededPeers <==> !(r is FileFinished) && self.state is Live,
            self.metadata is None || self.chunk_tracker is None ==> !(r is FileFinished),
            self.metadata matches Some(metadata) ==> (self.chunk_tracker matches Some(tracker)
                ==> ask.ensures(
                (&tracker, &metadata.file_infos@[file_id as int]),
                r is FileFinished,
            )),
    {
        if self.is_file_finished(file_id, ask) {
            return Reconnect::FileFinished;
        }
        match &self.state {
            ManagedTorrentState::Live { .. } => Reconnect::NotNeededPeers,
            _ => Reconnect::NotLive,
        }
    }

    /// Finds out what a stream of the file is to read. Whoever asked then waits for leave to
    /// do blocking reads, and opens the stream with
    /// [`FileStream::open`](crate::file_stream::FileStream::open).
    pub fn stream(&self, file_id: usize) -> (r: Result<StreamRequest<H>, StreamError>) where
        H: Clone,

        ensures
            r is Ok <==> self.metadata is Some && self.state.is_active() && file_id
                < self.metadata->0.file_infos@.len(),
            r is Ok <==> self.metadata is Some && !(self.state is Other) && file_id
                < self.metadata->0.file_infos@.len(),
            (self.state matches ManagedTorrentState::Paused { streams, .. } ==> (
            r matches Ok(request) ==> cloned::<H>(streams, request.streams))),
            (self.state matches ManagedTorrentState::Live { streams, .. } ==> (
            r matches Ok(request) ==> cloned::<H>(streams, request.streams))),
            r matches Ok(request) ==> {
                let fi = self.metadata->0.file_infos@[file_id as int];
                &&& request.file_id == file_id
                &&& request.file_len == fi.len
                &&& request.file_torrent_abs_offset == fi.offset_in_torrent
                &&& cloned::<H>(self.state.streams_are(), request.streams)
            },
            r matches Err(e) ==> if self.metadata is None {
                e is MetadataNotResolved
            } else {
                match self.state {
                    ManagedTorrentState::Other { name } => e matches StreamError::NoStorage {
                        state,
                    } && state@ == name@,
                    _ => e is InvalidFile,
                }
            },
    {
        let metadata = match &self.metadata {
            Some(metadata) => metadata,
            None => return Err(StreamError::MetadataNotResolved),
        };
        let place = |_files: &S, fi: &FileInfo| -> (r: (u64, u64))
            ensures
                r == (fi.len, fi.offset_in_torrent),
            { (fi.len, fi.offset_in_torrent) };
        let (file_len, file_torrent_abs_offset) = match self.with_storage_and_file(
            file_id,
            place,
            metadata,
        ) {
            Ok(place) => place,
            Err(e) => return Err(e),
        };
        let streams = match self.streams() {
            Ok(streams) => streams,
            Err(e) => return Err(e),
        };
        Ok(StreamRequest { file_id, file_len, file_torrent_abs_offset, streams })
    }
}

/// Once there are metadata and a chunk tracker, what the chunk tracker says of the file is what
/// counts, however many files there are: a tracker that can only say `answer` decides.
pub proof fn law_tracker_decides<S, C, H, F: FnOnce(&C, &FileInfo) -> bool>(
    torrent: ManagedTorrent<S, C, H>,
    metadata: TorrentMetadata,
    tracker: C,
    file_id: usize,
    ask: F,
    answer: bool,
    finished: bool,
)
    requires
        torrent.metadata == Some(metadata),
        torrent.chunk_tracker == Some(tracker),
        file_id < metadata.file_infos@.len(),
        forall|said: bool|
            ask.ensures((&tracker, &metadata.file_infos@[file_id as int]), said) ==> said
                == answer,
        torrent.may_be_finished(file_id, ask, finished),
    ensures
        finished == answer,
{
}

/// A file of which the chunk tracker can only say that it is not there in full does not count
/// as finished, and a live torrent turns to its peers for it.
pub proof fn law_unfinished_file_reconnects<S, C, H, F: FnOnce(&C, &FileInfo) -> bool>(
    torrent: ManagedTorrent<S, C, H>,
    metadata: TorrentMetadata,
    tracker: C,
    file_id: usize,
    ask: F,
    finished: bool,
    reconnect: Reconnect,
)
    requires
        torrent.metadata == Some(metadata),
        torrent.chunk_tracker == Some(tracker),
        file_id < metadata.file_infos@.len(),
        !ask.ensures((&tracker, &metadata.file_infos@[file_id as int]), true),
        call_ensures(
            ManagedTorrent::<S, C, H>::is_file_finished::<F>,
            (&torrent, file_id, ask),
            finished,
        ),
        call_ensures(
            ManagedTorrent::<S, C, H>::maybe_reconnect_needed_peers_for_file::<F>,
            (&torrent, file_id, ask),
            reconnect,
        ),
    ensures
        !finished,
        reconnect == if torrent.state is Live {
            Reconnect::NotNeededPeers
        } else {
            Reconnect::NotLive
        },
{
}

/// Before there are metadata and a chunk tracker, no file counts as finished, whatever `ask`
/// would say.
pub proof fn law_nothing_is_finished_unasked<S, C, H, F: FnOnce(&C, &FileInfo) -> bool>(
    torrent: ManagedTorrent<S, C, H>,
    file_id: usize,
    ask: F,
    finished: bool,
)
    requires
        torrent.metadata is None || torrent.chunk_tracker is None,
        torrent.may_be_finished(file_id, ask, finished),
    ensures
        !finished,
{
}

/// A file can be streamed exactly if the metadata are known, the torrent is paused or live and
/// has the file. The stream then reads as many bytes as the file has, from where the file
/// starts. What is missing is told in that order.
pub proof fn law_stream_reads_the_file<S, C, H: Clone>(
    torrent: ManagedTorrent<S, C, H>,
    file_id: usize,
    r: Result<StreamRequest<H>, StreamError>,
)
    requires
        call_ensures(ManagedTorrent::<S, C, H>::stream, (&torrent, file_id), r),
    ensures
        r is Ok || r->Err_0 is MetadataNotResolved || r->Err_0 is NoStorage || r->Err_0
            is InvalidFile,
        torrent.metadata is None <==> r is Err && r->Err_0 is MetadataNotResolved,
        torrent.metadata is Some && torrent.state is Other <==> r is Err && r->Err_0
            is NoStorage,
        r matches Err(StreamError::NoStorage { state }) ==> (
        torrent.state matches ManagedTorrentState::Other { name } && state@ == name@),
        torrent.metadata matches Some(metadata) ==> {
            &&& r matches Ok(request) ==> {
                &&& file_id < metadata.file_infos@.len()
                &&& request.file_id == file_id
                &&& request.file_len == metadata.file_infos@[file_id as int].len
                &&& request.file_torrent_abs_offset
                    == metadata.file_infos@[file_id as int].offset_in_torrent
            }
            &&& !(torrent.state is Other) ==> (r is Ok <==> file_id < metadata.file_infos@.len())
        },
{
}

/// The messages of different errors differ, and one that speaks of a state ends with its name.
pub proof fn law_messages_tell_errors_apart(a: StreamError, b: StreamError)
    ensures
        a.message_is() == b.message_is() ==> (a is MetadataNotResolved <==> b
            is MetadataNotResolved) && (a is NoStorage <==> b is NoStorage) && (a is InvalidFile
            <==> b is InvalidFile) && (a is NoStreams <==> b is NoStreams),
        (a matches StreamError::NoStorage { state } ==> state@.is_suffix_of(a.message_is())),
        (a matches StreamError::NoStreams { state } ==> state@.is_suffix_of(a.message_is())),
{
    reveal_strlit("torrent metadata is not resolved");
    reveal_strlit("with_storage_and_file: invalid state: ");
    reveal_strlit("invalid file");
    reveal_strlit("streams: invalid state ");
    assert(a.message_is()[0] == if a is MetadataNotResolved {
        't'
    } else if a is NoStorage {
        'w'
    } else if a is InvalidFile {
        'i'
    } else {
        's'
    });
    assert(b.message_is()[0] == if b is MetadataNotResolved {
        't'
    } else if b is NoStorage {
        'w'
    } else if b is InvalidFile {
        'i'
    } else {
        's'
    });
}

/// The storage and the streams of a paused and of a live torrent are its own, and there are
/// none in any other state.
pub proof fn law_active_states<S, H>(files: S, streams: H, name: String)
    ensures
        ({
            let paused = ManagedTorrentState::Paused { files, streams };
            let live = ManagedTorrentState::Live { files, streams };
            let other = ManagedTorrentState::<S, H>::Other { name };
            &&& paused.is_active() && paused.files_are() == files && paused.streams_are()
                == streams
            &&& live.is_active() && live.files_are() == files && live.streams_are() == streams
            &&& !other.is_active()
        }),
{
}

} // verus!
