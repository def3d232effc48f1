use std::collections::HashSet;
use std::sync::atomic::{AtomicUsize, Ordering};
use std::sync::Arc;
use std::task::{Wake, Waker};
use torrent_streaming::file_stream::FileStream;
use torrent_streaming::interleave::Interleave;
use torrent_streaming::lengths::Lengths;
use torrent_streaming::managed_torrent::StreamRequest;
use torrent_streaming::stream_state::{PieceQueue, StreamState};
use torrent_streaming::torrent_streams::TorrentStreams;

const MIB: u64 = 1024 * 1024;

struct Counter(AtomicUsize);

impl Wake for Counter {
    fn wake(self: Arc<Self>) {
        self.0.fetch_add(1, Ordering::SeqCst);
    }
}

fn counter() -> (Arc<Counter>, Waker) {
    let c = Arc::new(Counter(AtomicUsize::new(0)));
    (c.clone(), Waker::from(c))
}

fn open(streams: &mut TorrentStreams, file_id: usize, len: u64, offset: u64) -> FileStream {
    let request = StreamRequest {
        file_id,
        file_len: len,
        file_torrent_abs_offset: offset,
        streams: (),
    };
    FileStream::open(&request, streams)
}

fn state(file_len: u64, file_abs_offset: u64, position: u64) -> StreamState {
    StreamState {
        file_id: 0,
        file_len,
        file_abs_offset,
        position,
    }
}

fn drain_queue(mut queue: PieceQueue) -> Vec<u32> {
    let mut out = Vec::new();
    while let Some(id) = queue.next() {
        out.push(id.get());
    }
    assert!(queue.next().is_none());
    out
}

fn drain(mut it: Interleave) -> Vec<u32> {
    let mut out = Vec::new();
    while let Some(id) = it.next() {
        out.push(id.get());
    }
    assert!(it.next().is_none());
    out
}

fn woken_ids(woken: Vec<(usize, Waker)>) -> Vec<usize> {
    let mut ids: Vec<usize> = woken.iter().map(|w| w.0).collect();
    ids.sort();
    for (_, waker) in woken {
        waker.wake();
    }
    ids
}

#[test]
fn queue_looks_ahead_and_at_the_tail() {
    let l = Lengths::new(100 * MIB, MIB as u32).unwrap();
    let mut want: Vec<u32> = (0..32).collect();
    want.extend([98, 99]);
    assert_eq!(drain_queue(state(100 * MIB, 0, 0).queue(&l)), want);

    let mut want: Vec<u32> = (10..43).collect();
    want.extend([98, 99]);
    assert_eq!(drain_queue(state(100 * MIB, 0, 10 * MIB + 1).queue(&l)), want);
}

#[test]
fn queue_near_the_end_repeats_the_tail() {
    let l = Lengths::new(100 * MIB, MIB as u32).unwrap();
    assert_eq!(
        drain_queue(state(100 * MIB, 0, 97 * MIB).queue(&l)),
        vec![97, 98, 99, 98, 99]
    );
    assert_eq!(
        drain_queue(state(100 * MIB, 0, 100 * MIB).queue(&l)),
        vec![98, 99]
    );
}

#[test]
fn queue_of_a_short_file_stays_in_the_file() {
    let l = Lengths::new(100 * MIB, MIB as u32).unwrap();
    assert_eq!(drain_queue(state(10, MIB, 0).queue(&l)), vec![1, 1]);
    assert_eq!(drain_queue(state(10, 5 * MIB, 3).queue(&l)), vec![5, 5]);
    assert_eq!(drain_queue(state(MIB, 10 * MIB, 0).queue(&l)), vec![10, 10]);
    assert_eq!(
        drain_queue(state(2 * MIB, 10 * MIB, 0).queue(&l)),
        vec![10, 11, 10, 11]
    );
    assert_eq!(
        drain_queue(state(2 * MIB + 1, 10 * MIB, 0).queue(&l)),
        vec![10, 11, 12, 10, 11, 12]
    );
    assert_eq!(
        drain_queue(state(3 * MIB, 10 * MIB, 0).queue(&l)),
        vec![10, 11, 12, 11, 12]
    );
}

#[test]
fn queue_leaves_out_pieces_that_do_not_exist() {
    let l = Lengths::new(5 * MIB, MIB as u32).unwrap();
    assert_eq!(
        drain_queue(state(10 * MIB, 0, 3 * MIB).queue(&l)),
        vec![3, 4]
    );
    assert_eq!(
        drain_queue(state(10 * MIB, 0, 9 * MIB).queue(&l)),
        Vec::<u32>::new()
    );
}

#[test]
fn queue_starts_with_the_current_piece() {
    let l = Lengths::new(100 * MIB, 3 * MIB as u32).unwrap();
    for position in [0, 1, 3 * MIB - 1, 3 * MIB, 50 * MIB, 80 * MIB - 1] {
        let s = state(80 * MIB, 7 * MIB, position);
        let current = s.current_piece(&l).unwrap();
        assert_eq!(drain_queue(s.queue(&l))[0], current.id.get());
    }
}

#[test]
fn interleave_takes_turns() {
    let l = Lengths::new(100 * MIB, MIB as u32).unwrap();
    let a = state(3 * MIB, 10 * MIB, 0);
    let b = state(MIB, 50 * MIB, 0);
    let c = state(2 * MIB, 90 * MIB, 0);
    assert_eq!(drain_queue(a.queue(&l)), vec![10, 11, 12, 11, 12]);
    assert_eq!(drain_queue(b.queue(&l)), vec![50, 50]);
    assert_eq!(drain_queue(c.queue(&l)), vec![90, 91, 90, 91]);
    let it = Interleave::new(vec![a.queue(&l), b.queue(&l), c.queue(&l)]);
    assert_eq!(
        drain(it),
        vec![10, 50, 90, 11, 50, 91, 12, 90, 11, 91, 12]
    );
}

#[test]
fn interleave_skips_empty_queues() {
    let l = Lengths::new(5 * MIB, MIB as u32).unwrap();
    let empty = state(10 * MIB, 0, 9 * MIB);
    let some = state(10 * MIB, 0, 3 * MIB);
    let it = Interleave::new(vec![
        empty.queue(&l),
        some.queue(&l),
        empty.queue(&l),
        some.queue(&l),
    ]);
    assert_eq!(drain(it), vec![3, 3, 4, 4]);
    assert_eq!(drain(Interleave::new(Vec::new())), Vec::<u32>::new());
}

#[test]
fn no_streams_want_no_pieces() {
    let l = Lengths::new(5 * MIB, MIB as u32).unwrap();
    let streams = TorrentStreams::default();
    assert_eq!(drain(streams.iter_next_pieces(&l)), Vec::<u32>::new());
    assert_eq!(streams.streamed_file_ids(), Vec::<usize>::new());
}

#[test]
fn next_pieces_of_all_streams() {
    let l = Lengths::new(100 * MIB, MIB as u32).unwrap();
    let mut streams = TorrentStreams::default();
    open(&mut streams, 0, 3 * MIB, 10 * MIB);
    open(&mut streams, 1, MIB, 50 * MIB);
    let pieces = drain(streams.iter_next_pieces(&l));
    let one = vec![10, 50, 11, 50, 12, 11, 12];
    let other = vec![50, 10, 50, 11, 12, 11, 12];
    assert!(pieces == one || pieces == other);
}

#[test]
fn the_first_turn_is_left_to_chance() {
    let l = Lengths::new(100 * MIB, MIB as u32).unwrap();
    let mut streams = TorrentStreams::default();
    for i in 0..8 {
        open(&mut streams, i, MIB, 10 * i as u64 * MIB);
    }
    let mut first = HashSet::new();
    for _ in 0..200 {
        let pieces = drain(streams.iter_next_pieces(&l));
        let mut turns: Vec<u32> = pieces[..8].to_vec();
        turns.sort();
        assert_eq!(turns, vec![0, 10, 20, 30, 40, 50, 60, 70]);
        first.insert(pieces[0]);
    }
    assert!(first.len() > 1);
}

#[test]
fn every_stream_counts_once_in_the_file_ids() {
    let mut streams = TorrentStreams::default();
    let a = open(&mut streams, 4, 10, 0);
    let b = open(&mut streams, 9, 10, 10);
    let c = open(&mut streams, 4, 10, 0);
    assert_eq!(
        vec![a.stream_id(), b.stream_id(), c.stream_id()],
        vec![0, 1, 2]
    );
    let ids = |streams: &TorrentStreams| {
        let mut ids = streams.streamed_file_ids();
        ids.sort();
        ids
    };
    assert_eq!(ids(&streams), vec![4, 4, 9]);
    a.close(&mut streams);
    assert_eq!(ids(&streams), vec![4, 9]);
    let d = open(&mut streams, 7, 10, 0);
    assert_eq!(d.stream_id(), 3);
    assert_eq!(ids(&streams), vec![4, 7, 9]);
}

#[test]
fn dropping_a_stream_hands_out_its_entry() {
    let mut streams = TorrentStreams::default();
    let mut a = open(&mut streams, 4, 10, 20);
    a.advance(&mut streams, 3);
    let (_, waker) = counter();
    streams.register_waker(a.stream_id(), waker.clone());
    let entry = streams.drop_stream(a.stream_id()).unwrap();
    assert_eq!(entry.state.file_id, 4);
    assert_eq!(entry.state.file_len, 10);
    assert_eq!(entry.state.file_abs_offset, 20);
    assert_eq!(entry.state.position, 3);
    assert!(entry.waker.unwrap().will_wake(&waker));
    assert!(streams.drop_stream(a.stream_id()).is_none());
}

#[test]
fn a_written_chunk_wakes_who_waits_in_it() {
    let mut streams = TorrentStreams::default();
    let a = open(&mut streams, 0, MIB, 0);
    let mut b = open(&mut streams, 1, MIB, 16384);
    b.advance(&mut streams, 16383);
    let c = open(&mut streams, 2, MIB, 32768);
    let (na, wa) = counter();
    let (nb, wb) = counter();
    let (nc, wc) = counter();
    streams.register_waker(a.stream_id(), wa);
    streams.register_waker(b.stream_id(), wb);
    streams.register_waker(c.stream_id(), wc);

    assert_eq!(
        woken_ids(streams.wake_streams_on_chunk_written(16384)),
        vec![1]
    );
    assert_eq!(nb.0.load(Ordering::SeqCst), 1);
    assert_eq!(
        woken_ids(streams.wake_streams_on_chunk_written(16384)),
        Vec::<usize>::new()
    );
    assert_eq!(woken_ids(streams.wake_streams_on_chunk_written(0)), vec![0]);
    assert_eq!(
        woken_ids(streams.wake_streams_on_chunk_written(32769)),
        Vec::<usize>::new()
    );
    assert_eq!(
        woken_ids(streams.wake_streams_on_chunk_written(20000)),
        vec![2]
    );
    assert_eq!(na.0.load(Ordering::SeqCst), 1);
    assert_eq!(nb.0.load(Ordering::SeqCst), 1);
    assert_eq!(nc.0.load(Ordering::SeqCst), 1);
}

#[test]
fn a_completed_piece_wakes_who_waits_in_it() {
    let l = Lengths::new(100, 30).unwrap();
    let mut streams = TorrentStreams::default();
    let a = open(&mut streams, 0, 100, 0);
    let mut b = open(&mut streams, 0, 100, 0);
    b.advance(&mut streams, 29);
    let mut c = open(&mut streams, 0, 100, 0);
    c.advance(&mut streams, 30);
    let d = open(&mut streams, 0, 100, 0);
    for s in [&a, &b, &c] {
        let (_, waker) = counter();
        streams.register_waker(s.stream_id(), waker);
    }
    let piece = |i: u32| l.validate_piece_index(i).unwrap();
    assert_eq!(
        woken_ids(streams.wake_streams_on_piece_completed(piece(2), &l)),
        Vec::<usize>::new()
    );
    assert_eq!(
        woken_ids(streams.wake_streams_on_piece_completed(piece(0), &l)),
        vec![0, 1]
    );
    assert_eq!(
        woken_ids(streams.wake_streams_on_piece_completed(piece(1), &l)),
        vec![2]
    );
    let (_, waker) = counter();
    streams.register_waker(d.stream_id(), waker);
    assert_eq!(
        woken_ids(streams.wake_streams_on_piece_completed(piece(0), &l)),
        vec![3]
    );
}

#[test]
fn a_later_waker_takes_the_place_of_an_earlier_one() {
    let mut streams = TorrentStreams::default();
    let a = open(&mut streams, 0, MIB, 0);
    let (first, w1) = counter();
    let (second, w2) = counter();
    streams.register_waker(a.stream_id(), w1);
    streams.register_waker(a.stream_id(), w2);
    assert_eq!(woken_ids(streams.wake_streams_on_chunk_written(0)), vec![0]);
    assert_eq!(first.0.load(Ordering::SeqCst), 0);
    assert_eq!(second.0.load(Ordering::SeqCst), 1);
}

#[test]
fn a_dropped_stream_is_not_woken() {
    let mut streams = TorrentStreams::default();
    let a = open(&mut streams, 0, MIB, 0);
    let b = open(&mut streams, 0, MIB, 0);
    let (n, waker) = counter();
    streams.register_waker(a.stream_id(), waker.clone());
    a.close(&mut streams);
    streams.register_waker(a.stream_id(), waker.clone());
    streams.register_waker(b.stream_id(), waker);
    assert_eq!(woken_ids(streams.wake_streams_on_chunk_written(0)), vec![1]);
    assert_eq!(n.0.load(Ordering::SeqCst), 1);
}

#[test]
fn conditions_can_be_tested() {
    let l = Lengths::new(100 * MIB, MIB as u32).unwrap();
    let mut streams = TorrentStreams::default();
    let a = open(&mut streams, 0, 100 * MIB, 0);
    assert!(streams.is_open(a.stream_id()));
    assert!(!streams.is_open(7));
    assert!(streams.check_positions());
    assert!(streams.check_queues(&l));
    a.close(&mut streams);
    assert!(!streams.is_open(a.stream_id()));

    let mut far = open(&mut streams, 0, 10, u64::MAX - 5);
    assert!(streams.check_positions());
    assert!(!streams.check_queues(&l));
    far.advance(&mut streams, 5);
    assert!(streams.check_positions());
    far.advance(&mut streams, 1);
    assert!(!streams.check_positions());
}

#[test]
fn queues_that_cannot_be_computed() {
    let l = Lengths::new(1 << 32, 1).unwrap();
    assert!(state(10, 0, 0).can_queue(&l));
    assert!(state((1 << 32) - 1, 0, 0).can_queue(&l));
    assert!(!state(1 << 32, 0, 0).can_queue(&l));
    assert!(!state(0, u64::MAX - 1, 0).can_queue(&l));
    assert!(!state(0, 1 << 40, 0).can_queue(&l));
    let large = Lengths::new(1 << 40, 1 << 20).unwrap();
    assert!(state(1 << 30, 1 << 39, 1 << 30).can_queue(&large));
    assert!(!state(2, u64::MAX - 1, 0).can_queue(&large));
}

#[test]
fn ids_count_up() {
    let mut streams = TorrentStreams::default();
    assert_eq!(streams.next_id(), 0);
    let a = open(&mut streams, 0, 10, 0);
    assert_eq!(a.stream_id(), 1);
    assert_eq!(streams.next_id(), 2);
    a.close(&mut streams);
    assert_eq!(streams.next_id(), 3);
    assert_eq!(open(&mut streams, 0, 10, 0).stream_id(), 4);
    assert!(streams.is_open(4) && !streams.is_open(3));
}
