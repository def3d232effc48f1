use std::path::PathBuf;
use std::sync::Arc;
use torrent_streaming::file_info::{FileDetailsAttrs, FileInfo};
use torrent_streaming::file_stream::FileStream;
use torrent_streaming::lengths::Lengths;
use torrent_streaming::managed_torrent::{
    ManagedTorrent, ManagedTorrentState, Reconnect, StreamError, TorrentMetadata,
};
use torrent_streaming::torrent_streams::TorrentStreams;

type State = ManagedTorrentState<&'static str, Arc<u32>>;
type Torrent = ManagedTorrent<&'static str, Vec<u64>, Arc<u32>>;

fn metadata() -> TorrentMetadata {
    let file = |offset: u64, len: u64, start: u32, end: u32| FileInfo {
        relative_filename: PathBuf::from("a"),
        offset_in_torrent: offset,
        piece_range: start..end,
        attrs: FileDetailsAttrs {
            symlink: false,
            hidden: false,
            padding: false,
            executable: false,
        },
        len,
    };
    TorrentMetadata {
        lengths: Lengths::new(100, 30).unwrap(),
        file_infos: vec![file(0, 40, 0, 2), file(40, 60, 1, 4)],
    }
}

fn paused() -> State {
    ManagedTorrentState::Paused {
        files: "paused files",
        streams: Arc::new(1),
    }
}

fn live() -> State {
    ManagedTorrentState::Live {
        files: "live files",
        streams: Arc::new(2),
    }
}

fn other() -> State {
    ManagedTorrentState::Other {
        name: "initializing".to_string(),
    }
}

/// The chunk tracker of these torrents lists the offsets of the files that are there in full.
fn torrent(state: State, finished: Option<Vec<u64>>) -> Torrent {
    ManagedTorrent {
        state,
        metadata: Some(metadata()),
        chunk_tracker: finished,
    }
}

fn ask(finished: &Vec<u64>, fi: &FileInfo) -> bool {
    finished.contains(&fi.offset_in_torrent)
}

fn message<T>(r: Result<T, StreamError>) -> String {
    match r {
        Ok(_) => panic!("no error"),
        Err(e) => e.message(),
    }
}

#[test]
fn storage_and_file_of_an_active_torrent() {
    let m = metadata();
    let f = |files: &&'static str, fi: &FileInfo| (*files, fi.len);
    assert_eq!(
        torrent(paused(), None)
            .with_storage_and_file(1, f, &m)
            .ok(),
        Some(("paused files", 60))
    );
    assert_eq!(
        torrent(live(), None).with_storage_and_file(0, f, &m).ok(),
        Some(("live files", 40))
    );
}

#[test]
fn storage_and_file_that_are_not_there() {
    let m = metadata();
    let f = |_: &&'static str, fi: &FileInfo| fi.len;
    assert_eq!(
        message(torrent(live(), None).with_storage_and_file(2, f, &m)),
        "invalid file"
    );
    assert_eq!(
        message(torrent(other(), None).with_storage_and_file(0, f, &m)),
        "with_storage_and_file: invalid state: initializing"
    );
    assert_eq!(
        message(torrent(other(), None).with_storage_and_file(2, f, &m)),
        "with_storage_and_file: invalid state: initializing"
    );
}

#[test]
fn streams_of_a_torrent() {
    let state = live();
    let t = torrent(state, None);
    let handle = t.streams().ok().unwrap();
    assert_eq!(*handle, 2);
    assert_eq!(Arc::strong_count(&handle), 2);
    assert_eq!(torrent(paused(), None).streams().ok().map(|h| *h), Some(1));
    assert_eq!(
        message(torrent(other(), None).streams()),
        "streams: invalid state initializing"
    );
}

#[test]
fn finished_files() {
    let t = torrent(live(), Some(vec![40]));
    assert!(!t.is_file_finished(0, ask));
    assert!(t.is_file_finished(1, ask));
    assert!(!torrent(live(), None).is_file_finished(1, ask));
    // Without a chunk tracker the file is not looked up.
    assert!(!torrent(live(), None).is_file_finished(7, ask));
    let unresolved: Torrent = ManagedTorrent {
        state: live(),
        metadata: None,
        chunk_tracker: Some(vec![40]),
    };
    assert!(!unresolved.is_file_finished(1, ask));
}

#[test]
fn peers_are_needed_for_unfinished_files() {
    let finished = torrent(live(), Some(vec![40])).maybe_reconnect_needed_peers_for_file(1, ask);
    assert_eq!(finished, Reconnect::FileFinished);
    assert!(!finished.needed());
    let wanted = torrent(live(), Some(vec![40])).maybe_reconnect_needed_peers_for_file(0, ask);
    assert_eq!(wanted, Reconnect::NotNeededPeers);
    assert!(wanted.needed());
    let idle = torrent(paused(), Some(vec![40])).maybe_reconnect_needed_peers_for_file(0, ask);
    assert_eq!(idle, Reconnect::NotLive);
    assert!(idle.needed());
    let unknown = torrent(other(), None).maybe_reconnect_needed_peers_for_file(0, ask);
    assert_eq!(unknown, Reconnect::NotLive);
}

#[test]
fn a_stream_of_a_file() {
    let t = torrent(paused(), None);
    let request = t.stream(1).ok().unwrap();
    assert_eq!(request.file_id, 1);
    assert_eq!(request.file_len, 60);
    assert_eq!(request.file_torrent_abs_offset, 40);
    assert_eq!(*request.streams, 1);

    let mut streams = TorrentStreams::default();
    let s = FileStream::open(&request, &mut streams);
    assert_eq!((s.position(), s.len(), s.file_id()), (0, 60, 1));
    assert_eq!(streams.streamed_file_ids(), vec![1]);
}

#[test]
fn a_stream_that_cannot_be() {
    let unresolved: Torrent = ManagedTorrent {
        state: other(),
        metadata: None,
        chunk_tracker: None,
    };
    assert_eq!(
        message(unresolved.stream(0)),
        "torrent metadata is not resolved"
    );
    assert_eq!(
        message(torrent(other(), None).stream(0)),
        "with_storage_and_file: invalid state: initializing"
    );
    assert_eq!(message(torrent(live(), None).stream(2)), "invalid file");
}
