use std::task::Waker;
use torrent_streaming::file_stream::{FileStream, ReadStart, ReadStep, SeekError, SeekFrom};
use torrent_streaming::lengths::{CurrentPiece, Lengths};
use torrent_streaming::managed_torrent::StreamRequest;
use torrent_streaming::torrent_streams::TorrentStreams;

fn open(streams: &mut TorrentStreams, file_id: usize, len: u64, offset: u64) -> FileStream {
    let request = StreamRequest {
        file_id,
        file_len: len,
        file_torrent_abs_offset: offset,
        streams: (),
    };
    FileStream::open(&request, streams)
}

fn check_chunk(stream: &FileStream, lengths: &Lengths) -> (u64, CurrentPiece) {
    match stream.poll_read(lengths) {
        ReadStart::CheckChunk {
            torrent_abs_pos,
            current,
        } => (torrent_abs_pos, current),
        other => panic!("{:?}", other),
    }
}

fn read(
    stream: &mut FileStream,
    streams: &mut TorrentStreams,
    lengths: &Lengths,
    buf_len: usize,
) -> Option<(u64, usize)> {
    if stream.poll_read(lengths) == ReadStart::Eof {
        return None;
    }
    let (_, current) = check_chunk(stream, lengths);
    match stream.on_chunk_checked(streams, current, true, Waker::noop().clone(), buf_len) {
        ReadStep::Read { position, len, .. } => {
            stream.on_read(streams, len, true);
            Some((position, len))
        }
        ReadStep::Pending => panic!("the chunk was written"),
    }
}

#[test]
fn a_new_stream_is_at_the_start() {
    let mut streams = TorrentStreams::default();
    let s = open(&mut streams, 3, 1000, 50);
    assert_eq!(s.position(), 0);
    assert_eq!(s.poll_complete(), 0);
    assert_eq!(s.len(), 1000);
    assert_eq!(s.file_id(), 3);
    assert_eq!(s.stream_id(), 0);
}

#[test]
fn reads_start_with_the_chunk_at_the_position() {
    let l = Lengths::new(100_000, 40_000).unwrap();
    let mut streams = TorrentStreams::default();
    let mut s = open(&mut streams, 0, 90_000, 10_000);
    let (pos, current) = check_chunk(&s, &l);
    assert_eq!((pos, current.id.get(), current.piece_remaining), (10_000, 0, 30_000));
    s.advance(&mut streams, 75_000);
    let (pos, current) = check_chunk(&s, &l);
    assert_eq!((pos, current.id.get(), current.piece_remaining), (85_000, 2, 15_000));
    s.advance(&mut streams, 15_000);
    assert_eq!(s.poll_read(&l), ReadStart::Eof);
}

#[test]
fn an_empty_file_is_over_at_once() {
    let l = Lengths::new(100, 30).unwrap();
    let mut streams = TorrentStreams::default();
    let s = open(&mut streams, 0, 0, 100);
    assert_eq!(s.poll_read(&l), ReadStart::Eof);
}

#[test]
fn a_position_past_the_torrent_is_invalid() {
    let l = Lengths::new(100, 30).unwrap();
    let mut streams = TorrentStreams::default();
    let s = open(&mut streams, 0, 10, 200);
    assert_eq!(s.poll_read(&l), ReadStart::InvalidPosition);
}

#[test]
fn a_read_takes_no_more_than_allowed() {
    let l = Lengths::new(100_000, 20_000).unwrap();
    let mut streams = TorrentStreams::default();

    // The buffer is the limit.
    let mut s = open(&mut streams, 0, 90_000, 10_000);
    assert_eq!(read(&mut s, &mut streams, &l, 100), Some((0, 100)));
    assert_eq!(read(&mut s, &mut streams, &l, 0), Some((100, 0)));
    // The chunk is the limit: it ends at 16384.
    assert_eq!(read(&mut s, &mut streams, &l, 50_000), Some((100, 6284)));
    // The piece is the limit: it ends at 20000.
    assert_eq!(read(&mut s, &mut streams, &l, 50_000), Some((6384, 3616)));
    // The next chunk ends at 32768.
    assert_eq!(read(&mut s, &mut streams, &l, 50_000), Some((10_000, 12_768)));
    assert_eq!(s.position(), 22_768);

    // The file is the limit.
    let mut short = open(&mut streams, 1, 30, 0);
    assert_eq!(read(&mut short, &mut streams, &l, 50_000), Some((0, 30)));
    assert_eq!(read(&mut short, &mut streams, &l, 50_000), None);
}

#[test]
fn reads_cover_the_file_once() {
    let l = Lengths::new(100_000, 20_000).unwrap();
    for buf_len in [1000, 16_384, 70_000] {
        let mut streams = TorrentStreams::default();
        let mut s = open(&mut streams, 0, 90_000, 9_999);
        let mut at = 0;
        while let Some((position, len)) = read(&mut s, &mut streams, &l, buf_len) {
            assert_eq!(position, at);
            assert!(len > 0 && len <= buf_len);
            let first = 9_999 + position;
            let last = first + len as u64 - 1;
            assert_eq!(first / 16_384, last / 16_384);
            assert_eq!(first / 20_000, last / 20_000);
            at += len as u64;
        }
        assert_eq!(at, 90_000);
    }
}

#[test]
fn a_read_names_what_to_read() {
    let l = Lengths::new(100, 30).unwrap();
    let mut streams = TorrentStreams::default();
    let mut s = open(&mut streams, 8, 50, 20);
    s.advance(&mut streams, 5);
    let (_, current) = check_chunk(&s, &l);
    let step = s.on_chunk_checked(&mut streams, current, true, Waker::noop().clone(), 1000);
    assert_eq!(
        step,
        ReadStep::Read {
            file_id: 8,
            position: 5,
            len: 5
        }
    );
    assert_eq!(s.position(), 5);
}

#[test]
fn a_read_of_a_missing_chunk_waits_for_it() {
    let l = Lengths::new(100_000, 20_000).unwrap();
    let mut streams = TorrentStreams::default();
    let mut s = open(&mut streams, 0, 90_000, 10_000);
    s.advance(&mut streams, 7_000);
    let (pos, current) = check_chunk(&s, &l);
    assert_eq!(pos, 17_000);
    let step = s.on_chunk_checked(&mut streams, current, false, Waker::noop().clone(), 10);
    assert_eq!(step, ReadStep::Pending);
    assert_eq!(s.position(), 7_000);
    assert_eq!(streams.wake_streams_on_chunk_written(0).len(), 0);
    assert_eq!(streams.wake_streams_on_chunk_written(16_384).len(), 1);

    let (_, current) = check_chunk(&s, &l);
    s.on_chunk_checked(&mut streams, current, false, Waker::noop().clone(), 10);
    assert_eq!(
        streams.wake_streams_on_piece_completed(current.id, &l).len(),
        1
    );

    let (_, current) = check_chunk(&s, &l);
    s.on_chunk_checked(&mut streams, current, true, Waker::noop().clone(), 10);
    assert_eq!(streams.wake_streams_on_chunk_written(16_384).len(), 0);
}

#[test]
fn the_registry_follows_the_stream() {
    let mut streams = TorrentStreams::default();
    let mut s = open(&mut streams, 0, 90_000, 10_000);
    let other = open(&mut streams, 0, 90_000, 10_000);
    s.advance(&mut streams, 600);
    s.advance(&mut streams, 34);
    s.start_seek(&mut streams, SeekFrom::Current(-4)).unwrap();
    assert_eq!(s.position(), 630);
    let entry = s.close(&mut streams).unwrap();
    assert_eq!(entry.state.position, 630);
    let entry = other.close(&mut streams).unwrap();
    assert_eq!(entry.state.position, 0);
}

#[test]
fn a_waiting_stream_keeps_its_waker_when_it_moves() {
    let mut streams = TorrentStreams::default();
    let mut s = open(&mut streams, 0, 90_000, 0);
    streams.register_waker(s.stream_id(), Waker::noop().clone());
    s.start_seek(&mut streams, SeekFrom::Start(40_000)).unwrap();
    assert_eq!(streams.wake_streams_on_chunk_written(0).len(), 0);
    assert_eq!(streams.wake_streams_on_chunk_written(32_768).len(), 1);
}

#[test]
fn seeks_go_to_their_target() {
    let mut streams = TorrentStreams::default();
    let mut s = open(&mut streams, 0, 1000, 50);
    let mut seek = |to: SeekFrom| {
        let r = s.start_seek(&mut streams, to);
        (r, s.poll_complete())
    };
    assert_eq!(seek(SeekFrom::Start(400)), (Ok(()), 400));
    assert_eq!(seek(SeekFrom::Current(-150)), (Ok(()), 250));
    assert_eq!(seek(SeekFrom::Current(0)), (Ok(()), 250));
    assert_eq!(seek(SeekFrom::End(-1)), (Ok(()), 999));
    assert_eq!(seek(SeekFrom::End(0)), (Ok(()), 1000));
    assert_eq!(seek(SeekFrom::Start(1000)), (Ok(()), 1000));
    assert_eq!(seek(SeekFrom::Start(0)), (Ok(()), 0));
}

#[test]
fn seeks_out_of_the_file_are_refused() {
    let mut streams = TorrentStreams::default();
    let mut s = open(&mut streams, 0, 1000, 50);
    s.start_seek(&mut streams, SeekFrom::Start(10)).unwrap();
    for to in [
        SeekFrom::Start(1001),
        SeekFrom::Start(i64::MAX as u64),
        SeekFrom::End(1),
        SeekFrom::End(-1001),
        SeekFrom::End(i64::MAX),
        SeekFrom::End(i64::MIN),
        SeekFrom::Current(-11),
        SeekFrom::Current(991),
        SeekFrom::Current(i64::MAX),
    ] {
        assert_eq!(
            s.start_seek(&mut streams, to),
            Err(SeekError::InvalidSeek)
        );
        assert_eq!(s.position(), 10);
    }
    let entry = s.close(&mut streams).unwrap();
    assert_eq!(entry.state.position, 10);
}

#[test]
fn seeks_that_do_not_fit_are_refused() {
    let mut streams = TorrentStreams::default();
    let mut s = open(&mut streams, 0, 1000, 50);
    assert_eq!(
        s.start_seek(&mut streams, SeekFrom::Start(1 << 63)),
        Err(SeekError::OutOfRange)
    );
    let mut huge = open(&mut streams, 0, 1 << 63, 0);
    assert_eq!(
        huge.start_seek(&mut streams, SeekFrom::Start(0)),
        Err(SeekError::OutOfRange)
    );
    assert_eq!(
        huge.start_seek(&mut streams, SeekFrom::Current(0)),
        Err(SeekError::OutOfRange)
    );
    let mut moved = open(&mut streams, 0, 1000, 0);
    moved.advance(&mut streams, 1 << 63);
    assert_eq!(
        moved.start_seek(&mut streams, SeekFrom::Current(-5)),
        Err(SeekError::OutOfRange)
    );
    assert_eq!(moved.start_seek(&mut streams, SeekFrom::Start(5)), Ok(()));
}

#[test]
fn a_refused_seek_needs_no_entry() {
    let mut streams = TorrentStreams::default();
    let mut s = open(&mut streams, 0, 1000, 50);
    s.close(&mut streams);
    assert_eq!(
        s.start_seek(&mut streams, SeekFrom::End(1)),
        Err(SeekError::InvalidSeek)
    );
    assert_eq!(
        s.start_seek(&mut streams, SeekFrom::Start(u64::MAX)),
        Err(SeekError::OutOfRange)
    );
    assert_eq!(s.position(), 0);
}

#[test]
fn where_a_seek_would_go() {
    let mut streams = TorrentStreams::default();
    let s = open(&mut streams, 0, 1000, 50);
    assert_eq!(s.check_seek(SeekFrom::End(-1)), Ok(999));
    assert_eq!(s.check_seek(SeekFrom::Current(7)), Ok(7));
    assert_eq!(
        s.check_seek(SeekFrom::Current(-1)),
        Err(SeekError::InvalidSeek)
    );
    assert_eq!(
        s.check_seek(SeekFrom::Start(1 << 63)),
        Err(SeekError::OutOfRange)
    );
    assert_eq!(s.position(), 0);
}

#[test]
fn reads_into_buffers_of_all_sizes_follow_on() {
    let l = Lengths::new(100_000, 20_000).unwrap();
    let mut streams = TorrentStreams::default();
    let mut s = open(&mut streams, 0, 40_000, 9_999);
    let mut at = 0;
    let mut buf_len = 1;
    while let Some((position, len)) = read(&mut s, &mut streams, &l, buf_len) {
        assert_eq!(position, at);
        assert!(len > 0 && len <= buf_len);
        at += len as u64;
        buf_len = buf_len * 7 % 30_011 + 1;
    }
    assert_eq!(at, 40_000);
    assert_eq!(read(&mut s, &mut streams, &l, 1), None);
}

#[test]
fn streams_of_one_file_keep_apart() {
    let mut streams = TorrentStreams::default();
    let mut a = open(&mut streams, 0, 1000, 50);
    a.advance(&mut streams, 10);
    let mut b = open(&mut streams, 0, 1000, 50);
    assert_ne!(a.stream_id(), b.stream_id());
    b.advance(&mut streams, 500);
    b.start_seek(&mut streams, SeekFrom::End(0)).unwrap();
    b.close(&mut streams);
    assert_eq!(a.position(), 10);
    assert_eq!(a.close(&mut streams).unwrap().state.position, 10);
}

#[test]
fn a_failed_read_leaves_the_stream_where_it_is() {
    let l = Lengths::new(100, 30).unwrap();
    let mut streams = TorrentStreams::default();
    let mut s = open(&mut streams, 0, 50, 20);
    s.on_read(&mut streams, 7, true);
    assert_eq!(s.position(), 7);
    s.on_read(&mut streams, 7, false);
    assert_eq!(s.position(), 7);
    assert_eq!(read(&mut s, &mut streams, &l, 100), Some((7, 3)));
    assert_eq!(s.close(&mut streams).unwrap().state.position, 10);
    s.on_read(&mut streams, 7, false);
    assert_eq!(s.position(), 10);
}
