//! The streams that are open on a torrent.
use crate::interleave::{
    interleaved, law_first_round_is_short, law_interleaved_keeps_order, law_interleaved_yields_all,
    law_one_turn_each, turn_of, Interleave,
};
use crate::lengths::{
    law_has_current_piece, law_piece_at, Lengths, ValidPieceIndex, CHUNK_SIZE,
};
use crate::stream_map::{
    entries_of, insert_entry, is_permutation, list_entries, lists, new_map, remove_entry,
    replace_entry, shuffle_queues, StreamEntry,
};
use crate::stream_state::{
    law_queue_fits_exactly, law_queue_starts_at_position, PieceQueue, StreamState,
};
use dashmap::DashMap;
use std::task::Waker;
use vstd::arithmetic::div_mod::{
    lemma_fundamental_div_mod, lemma_fundamental_div_mod_converse, lemma_small_mod,
};
use vstd::prelude::*;
use vstd::seq_lib::{lemma_flatten_concat, lemma_multiset_commutative, to_multiset_contains};
use vstd::set_lib::{lemma_int_range, set_int_range};

verus! {

/// The streams that are open on a torrent, each under an id of its own.
pub struct TorrentStreams {
    next_stream_id: usize,
    streams: DashMap<usize, StreamEntry>,
}

/// `ids` has the id of every stream once.
pub open spec fn walks(ids: Seq<usize>, entries: Map<usize, StreamEntry>) -> bool {
    &&& ids.no_duplicates()
    &&& forall|id: usize| #[trigger] ids.contains(id) <==> entries.contains_key(id)
}

/// The next byte that the stream reads lies in piece `piece`.
pub open spec fn reads_piece(state: StreamState, lengths: Lengths, piece: int) -> bool {
    lengths.has_current_piece(state.torrent_pos()) && lengths.piece_at(state.torrent_pos())
        == piece
}

/// The next byte that the stream reads lies in the chunk that starts at `chunk_start`.
pub open spec fn reads_chunk(state: StreamState, chunk_start: int) -> bool {
    chunk_start <= state.torrent_pos() < chunk_start + CHUNK_SIZE
}

/// `entries` after the wakers were taken from all streams for which `reached` holds.
pub open spec fn without_wakers(
    entries: Map<usize, StreamEntry>,
    reached: spec_fn(StreamState) -> bool,
) -> Map<usize, StreamEntry> {
    entries.map_values(
        |e: StreamEntry|
            if reached(e.state) {
                StreamEntry { state: e.state, waker: None }
            } else {
                e
            },
    )
}

/// `woken` has the waker of every stream for which `reached` holds and that has one, once.
pub open spec fn wakes(
    woken: Seq<(usize, Waker)>,
    entries: Map<usize, StreamEntry>,
    reached: spec_fn(StreamState) -> bool,
) -> bool {
    &&& forall|i: int, j: int| 0 <= i < j < woken.len() ==> woken[i].0 != woken[j].0
    &&& forall|i: int|
        0 <= i < woken.len() ==> {
            &&& entries.contains_key((#[trigger] woken[i]).0)
            &&& reached(entries[woken[i].0].state)
            &&& entries[woken[i].0].waker == Some(woken[i].1)
        }
    &&& forall|id: usize| #[trigger]
        entries.contains_key(id) && reached(entries[id].state) && entries[id].waker is Some
            ==> exists|i: int| 0 <= i < woken.len() && (#[trigger] woken[i]).0 == id
}

impl View for TorrentStreams {
    type V = Map<usize, StreamEntry>;

    closed spec fn view(&self) -> Map<usize, StreamEntry> {
        entries_of(self.streams)
    }
}

impl Default for TorrentStreams {
    /// No streams.
    fn default() -> (r: TorrentStreams)
        ensures
            r@ == Map::<usize, StreamEntry>::empty(),
            r.next_id_is() == 0,
            r.wf(),
            r.ids_below_next(),
    {
        let r = TorrentStreams { next_stream_id: 0, streams: new_map() };
        assert(r@ =~= Map::<usize, StreamEntry>::empty());
        r
    }
}

impl TorrentStreams {
    /// The id that the next stream gets.
    pub closed spec fn next_id_is(self) -> usize {
        self.next_stream_id
    }

    /// The queues of all streams can be computed.
    pub open spec fn queues_fit(self, lengths: Lengths) -> bool {
        forall|id: usize| #[trigger]
            self@.contains_key(id) ==> self@[id].state.queue_fits(lengths)
    }

    /// The positions of all streams have an address in the torrent.
    pub open spec fn wf(self) -> bool {
        forall|id: usize| #[trigger]
            self@.contains_key(id) ==> self@[id].state.torrent_pos() <= u64::MAX
    }

    /// Every stream has an id that was given out, and the ids are not used up.
    pub open spec fn ids_below_next(self) -> bool {
        &&& self.next_id_is() < usize::MAX
        &&& forall|id: usize| #[trigger] self@.contains_key(id) ==> id < self.next_id_is()
    }

    /// Gives out an id. The ids start again at 0 when they are used up.
    pub fn next_id(&mut self) -> (r: usize)
        ensures
            r == old(self).next_id_is(),
            final(self).next_id_is() == if r == usize::MAX {
                0
            } else {
                (r + 1) as usize
            },
            final(self)@ == old(self)@,
    {
        let id: usize = self.next_stream_id;
        self.next_stream_id = id.wrapping_add(1);
        id
    }

    /// Opens a stream at the start of a file, and gives the id that it got.
    pub(crate) fn add_stream(
        &mut self,
        file_id: usize,
        file_len: u64,
        file_abs_offset: u64,
    ) -> (id: usize)
        ensures
            id == old(self).next_id_is(),
            final(self).next_id_is() == if id == usize::MAX {
                0
            } else {
                (id + 1) as usize
            },
            final(self)@ == old(self)@.insert(
                id,
                StreamEntry {
                    state: StreamState { file_id, file_len, file_abs_offset, position: 0 },
                    waker: None,
                },
            ),
    {
        let id: usize = self.next_id();
        let state = StreamState { file_id, file_len, file_abs_offset, position: 0 };
        insert_entry(&mut self.streams, id, StreamEntry { state, waker: None });
        id
    }

    /// Takes the waker out of the entry of a stream.
    fn take_waker(&mut self, id: usize, state: StreamState) -> (r: Option<Waker>)
        requires
            old(self)@.contains_key(id),
            old(self)@[id].state == state,
        ensures
            r == old(self)@[id].waker,
            final(self)@ == old(self)@.insert(id, (StreamEntry { state, waker: None })),
            final(self).next_id_is() == old(self).next_id_is(),
    {
        match replace_entry(&mut self.streams, id, StreamEntry { state, waker: None }) {
            Some(entry) => entry.waker,
            None => None,
        }
    }

    /// Leaves `waker` with the stream, in place of any waker that was there. A stream that is
    /// not there is passed over.
    pub fn register_waker(&mut self, stream_id: usize, waker: Waker)
        ensures
            final(self)@ == if old(self)@.contains_key(stream_id) {
                old(self)@.insert(
                    stream_id,
                    StreamEntry { state: old(self)@[stream_id].state, waker: Some(waker) },
                )
            } else {
                old(self)@
            },
            final(self).next_id_is() == old(self).next_id_is(),
    {
        let vacant = StreamEntry { state: StreamState::vacant(), waker: None };
        if let Some(entry) = replace_entry(&mut self.streams, stream_id, vacant) {
            let entry = StreamEntry { state: entry.state, waker: Some(waker) };
            replace_entry(&mut self.streams, stream_id, entry);
        }
        assert(self@ =~= if old(self)@.contains_key(stream_id) {
            old(self)@.insert(
                stream_id,
                StreamEntry { state: old(self)@[stream_id].state, waker: Some(waker) },
            )
        } else {
            old(self)@
        });
    }

    /// Moves a stream to another position in its file.
    pub(crate) fn set_position(&mut self, stream_id: usize, new_pos: u64)
        requires
            old(self)@.contains_key(stream_id),
        ensures
            final(self)@ == old(self)@.insert(
                stream_id,
                StreamEntry {
                    state: StreamState { position: new_pos, ..old(self)@[stream_id].state },
                    waker: old(self)@[stream_id].waker,
                },
            ),
            final(self).next_id_is() == old(self).next_id_is(),
    {
        let vacant = StreamEntry { state: StreamState::vacant(), waker: None };
        if let Some(entry) = replace_entry(&mut self.streams, stream_id, vacant) {
            let StreamEntry { state, waker } = entry;
            let state = StreamState { position: new_pos, ..state };
            replace_entry(&mut self.streams, stream_id, StreamEntry { state, waker });
        }
        assert(self@ =~= old(self)@.insert(
            stream_id,
            StreamEntry {
                state: StreamState { position: new_pos, ..old(self)@[stream_id].state },
                waker: old(self)@[stream_id].waker,
            },
        ));
    }

    /// Closes a stream, and hands out what was known of it.
    pub fn drop_stream(&mut self, stream_id: usize) -> (r: Option<StreamEntry>)
        ensures
            final(self)@ == old(self)@.remove(stream_id),
            r == if old(self)@.contains_key(stream_id) {
                Some(old(self)@[stream_id])
            } else {
                None
            },
            final(self).next_id_is() == old(self).next_id_is(),
    {
        match remove_entry(&mut self.streams, stream_id) {
            Some((_, entry)) => Some(entry),
            None => None,
        }
    }

    /// Tests that the stream is open.
    pub fn is_open(&self, stream_id: usize) -> (r: bool)
        ensures
            r == self@.contains_key(stream_id),
    {
        let listed = list_entries(&self.streams);
        for i in 0..listed.len()
            invariant
                lists(listed@, self@),
                forall|j: int| 0 <= j < i ==> (#[trigger] listed@[j]).0 != stream_id,
        {
            if listed[i].0 == stream_id {
                assert(self@.contains_key(listed@[i as int].0));
                return true;
            }
        }
        false
    }

    /// Tests that the positions of all streams have an address in the torrent.
    pub fn check_positions(&self) -> (r: bool)
        ensures
            r == self.wf(),
            r <==> forall|id: usize| #[trigger]
                self@.contains_key(id) ==> self@[id].state.file_abs_offset
                    + self@[id].state.position <= u64::MAX,
    {
        let listed = list_entries(&self.streams);
        for i in 0..listed.len()
            invariant
                lists(listed@, self@),
                forall|j: int|
                    0 <= j < i ==> (#[trigger] listed@[j]).1.torrent_pos() <= u64::MAX,
        {
            let state = listed[i].1;
            assert(self@.contains_key(listed@[i as int].0));
            if state.file_abs_offset.checked_add(state.position).is_none() {
                return false;
            }
        }
        true
    }

    /// Tests that the queues of all streams can be computed.
    pub fn check_queues(&self, lengths: &Lengths) -> (r: bool)
        requires
            lengths.wf(),
        ensures
            r == self.queues_fit(*lengths),
            r <==> forall|id: usize| #[trigger]
                self@.contains_key(id) ==> {
                    let start = self@[id].state.file_abs_offset + self@[id].state.position;
                    let end = self@[id].state.file_abs_offset + self@[id].state.file_len;
                    &&& end <= u64::MAX
                    &&& start + 32 * 1024 * 1024 <= u64::MAX
                    &&& start < (u32::MAX + 1) * lengths.dpl()
                    &&& end <= u32::MAX * lengths.dpl()
                },
    {
        proof {
            assert forall|id: usize| #[trigger]
                self@.contains_key(id) implies self@[id].state.queue_fits(*lengths) == {
                let start = self@[id].state.file_abs_offset + self@[id].state.position;
                let end = self@[id].state.file_abs_offset + self@[id].state.file_len;
                &&& end <= u64::MAX
                &&& start + 32 * 1024 * 1024 <= u64::MAX
                &&& start < (u32::MAX + 1) * lengths.dpl()
                &&& end <= u32::MAX * lengths.dpl()
            } by {
                law_queue_fits_exactly(self@[id].state, *lengths);
            }
        }
        let listed = list_entries(&self.streams);
        for i in 0..listed.len()
            invariant
                lengths.wf(),
                lists(listed@, self@),
                forall|j: int| 0 <= j < i ==> (#[trigger] listed@[j]).1.queue_fits(*lengths),
        {
            let state = listed[i].1;
            assert(self@.contains_key(listed@[i as int].0));
            if !state.can_queue(lengths) {
                return false;
            }
        }
        true
    }

    /// The pieces that the streams want. They come in turn: the most urgent piece of every
    /// stream, then the second of every stream, and so on. Which stream has the first turn is
    /// left to chance, so that none is favoured.
    pub fn iter_next_pieces(&self, lengths: &Lengths) -> (r: Interleave)
        requires
            lengths.wf(),
            self.queues_fit(*lengths),
        ensures
            r.wf(),
            exists|ids: Seq<usize>|
                walks(ids, self@) && r.queues() == queues_of(ids, self@, *lengths),
            exists|ids: Seq<usize>|
                {
                    &&& #[trigger] ids.no_duplicates()
                    &&& forall|id: usize| #[trigger] ids.contains(id) <==> self@.contains_key(id)
                    &&& r.queues().len() == ids.len()
                    &&& forall|i: int|
                        0 <= i < ids.len() ==> #[trigger] r.queues()[i]
                            == self@[ids[i]].state.wanted(*lengths)
                },
    {
        let listed = list_entries(&self.streams);
        let mut all: Vec<PieceQueue> = Vec::new();
        for i in 0..listed.len()
            invariant
                lengths.wf(),
                lists(listed@, self@),
                self.queues_fit(*lengths),
                all@.len() == i,
                forall|j: int|
                    0 <= j < i ==> (#[trigger] all@[j]).wf() && all@[j]@
                        == self@[listed@[j].0].state.wanted(*lengths),
        {
            let state = listed[i].1;
            assert(self@.contains_key(listed@[i as int].0));
            all.push(state.queue(lengths));
        }
        let ghost built = all@;
        shuffle_queues(&mut all);
        proof {
            let order = choose|order: Seq<int>|
                is_permutation(order, built.len()) && all@ == order.map_values(
                    |i: int| built[i],
                );
            let ids = order.map_values(|i: int| listed@[i].0);
            lemma_shuffled_walk(listed@, self@, order);
            assert(all@.map_values(|q: PieceQueue| q@) =~= queues_of(ids, self@, *lengths));
            assert(ids.no_duplicates());
        }
        Interleave::new(all)
    }

    /// The files that the streams read, once for every stream.
    pub fn streamed_file_ids(&self) -> (r: Vec<usize>)
        ensures
            exists|ids: Seq<usize>|
                walks(ids, self@) && r@ == ids.map_values(|id: usize| self@[id].state.file_id),
            exists|ids: Seq<usize>|
                {
                    &&& #[trigger] ids.no_duplicates()
                    &&& forall|id: usize| #[trigger] ids.contains(id) <==> self@.contains_key(id)
                    &&& r@.len() == ids.len()
                    &&& forall|i: int|
                        0 <= i < ids.len() ==> #[trigger] r@[i] == self@[ids[i]].state.file_id
                },
    {
        let listed = list_entries(&self.streams);
        let mut file_ids: Vec<usize> = Vec::new();
        for i in 0..listed.len()
            invariant
                file_ids@ == listed@.take(i as int).map_values(
                    |entry: (usize, StreamState)| entry.1.file_id,
                ),
        {
            let state = listed[i].1;
            file_ids.push(state.file_id);
            assert(listed@.take(i + 1) =~= listed@.take(i as int).push(listed@[i as int]));
            assert(file_ids@ =~= listed@.take(i + 1).map_values(
                |entry: (usize, StreamState)| entry.1.file_id,
            ));
        }
        proof {
            let order = Seq::new(listed@.len(), |i: int| i);
            let ids = order.map_values(|i: int| listed@[i].0);
            lemma_shuffled_walk(listed@, self@, order);
            assert(listed@.take(listed@.len() as int) =~= listed@);
            assert(file_ids@ =~= ids.map_values(|id: usize| self@[id].state.file_id));
            assert(ids.no_duplicates());
        }
        file_ids
    }

    /// Takes the wakers of those listed streams that are marked in `hits`.
    fn take_wakers(
        &mut self,
        listed: &Vec<(usize, StreamState)>,
        hits: &Vec<bool>,
        Ghost(reached): Ghost<spec_fn(StreamState) -> bool>,
    ) -> (woken: Vec<(usize, Waker)>)
        requires
            lists(listed@, old(self)@),
            hits@.len() == listed@.len(),
            forall|i: int| 0 <= i < hits@.len() ==> #[trigger] hits@[i] == reached(listed@[i].1),
        ensures
            wakes(woken@, old(self)@, reached),
            final(self)@ == without_wakers(old(self)@, reached),
            final(self).next_id_is() == old(self).next_id_is(),
    {
        let ghost entries = self@;
        let ghost cleared = without_wakers(entries, reached);
        let mut woken: Vec<(usize, Waker)> = Vec::new();
        for n in 0..listed.len()
            invariant
                entries == old(self)@,
                cleared == without_wakers(entries, reached),
                lists(listed@, entries),
                hits@.len() == listed@.len(),
                forall|i: int|
                    0 <= i < hits@.len() ==> #[trigger] hits@[i] == reached(listed@[i].1),
                self.next_id_is() == old(self).next_id_is(),
                self@.dom() == entries.dom(),
                forall|i: int|
                    0 <= i < n ==> self@[(#[trigger] listed@[i]).0] == cleared[listed@[i].0],
                forall|i: int|
                    n <= i < listed@.len() ==> self@[(#[trigger] listed@[i]).0]
                        == entries[listed@[i].0],
                forall|i: int, j: int| 0 <= i < j < woken@.len() ==> woken@[i].0 != woken@[j].0,
                forall|k: int, i: int|
                    0 <= k < woken@.len() && n <= i < listed@.len() ==> (#[trigger] woken@[k]).0
                        != (#[trigger] listed@[i]).0,
                forall|k: int|
                    0 <= k < woken@.len() ==> {
                        &&& entries.contains_key((#[trigger] woken@[k]).0)
                        &&& reached(entries[woken@[k].0].state)
                        &&& entries[woken@[k].0].waker == Some(woken@[k].1)
                    },
                forall|i: int|
                    0 <= i < n && reached((#[trigger] listed@[i]).1)
                        && entries[listed@[i].0].waker is Some ==> exists|k: int|
                        0 <= k < woken@.len() && (#[trigger] woken@[k]).0 == listed@[i].0,
        {
            let (id, state) = listed[n];
            assert(listed@[n as int].0 == id);
            assert(entries.contains_key(id) && self@.contains_key(id));
            assert(hits@[n as int] == reached(state));
            if hits[n] {
                let ghost before = woken@;
                if let Some(waker) = self.take_waker(id, state) {
                    woken.push((id, waker));
                    assert(woken@[before.len() as int].0 == id);
                    assert(forall|k: int|
                        0 <= k < before.len() ==> woken@[k] == #[trigger] before[k]);
                }
                assert(self@.dom() =~= entries.dom());
            }
        }
        proof {
            assert forall|id: usize| #[trigger] entries.contains_key(id) implies self@[id]
                == cleared[id] by {
                let i = choose|i: int| 0 <= i < listed@.len() && (#[trigger] listed@[i]).0 == id;
                assert(self@[listed@[i].0] == cleared[listed@[i].0]);
            }
            assert(self@ =~= cleared);
            assert forall|id: usize| #[trigger]
                entries.contains_key(id) && reached(entries[id].state)
                    && entries[id].waker is Some implies exists|k: int|
                0 <= k < woken@.len() && (#[trigger] woken@[k]).0 == id by {
                let i = choose|i: int| 0 <= i < listed@.len() && (#[trigger] listed@[i]).0 == id;
                assert(reached(listed@[i].1));
            }
        }
        woken
    }

    /// Takes the wakers of the streams that wait for the piece, to be woken by the caller.
    pub fn wake_streams_on_piece_completed(
        &mut self,
        piece_id: ValidPieceIndex,
        lengths: &Lengths,
    ) -> (woken: Vec<(usize, Waker)>)
        requires
            old(self).wf(),
            lengths.wf(),
        ensures
            ({
                let reached = |s: StreamState| reads_piece(s, *lengths, piece_id.index() as int);
                &&& wakes(woken@, old(self)@, reached)
                &&& final(self)@ == without_wakers(old(self)@, reached)
            }),
            final(self).next_id_is() == old(self).next_id_is(),
            final(self)@.dom() == old(self)@.dom(),
            forall|id: usize| #[trigger]
                old(self)@.contains_key(id) ==> {
                    let state = old(self)@[id].state;
                    let pos = state.file_abs_offset + state.position;
                    &&& final(self)@[id].state == state
                    &&& final(self)@[id].waker == if {
                        &&& piece_id.index() * lengths.dpl() <= pos < (piece_id.index() + 1)
                            * lengths.dpl()
                        &&& pos < lengths.total() || (pos == lengths.total() && lengths.total()
                            % lengths.dpl() as u64 != 0)
                    } {
                        None
                    } else {
                        old(self)@[id].waker
                    }
                },
            forall|i: int, j: int| 0 <= i < j < woken@.len() ==> woken@[i].0 != woken@[j].0,
            forall|id: usize, waker: Waker| #[trigger]
                woken@.contains((id, waker)) <==> {
                    let state = old(self)@[id].state;
                    let pos = state.file_abs_offset + state.position;
                    &&& old(self)@.contains_key(id)
                    &&& old(self)@[id].waker == Some(waker)
                    &&& {
                        &&& piece_id.index() * lengths.dpl() <= pos < (piece_id.index() + 1)
                            * lengths.dpl()
                        &&& pos < lengths.total() || (pos == lengths.total() && lengths.total()
                            % lengths.dpl() as u64 != 0)
                    }
                },
    {
        let listed = list_entries(&self.streams);
        let mut hits: Vec<bool> = Vec::new();
        let ghost reached = |s: StreamState| reads_piece(s, *lengths, piece_id.index() as int);
        for i in 0..listed.len()
            invariant
                lengths.wf(),
                self.wf(),
                lists(listed@, self@),
                reached == |s: StreamState| reads_piece(s, *lengths, piece_id.index() as int),
                hits@.len() == i,
                forall|j: int| 0 <= j < i ==> #[trigger] hits@[j] == reached(listed@[j].1),
        {
            let state = listed[i].1;
            assert(self@.contains_key(listed@[i as int].0));
            let here = match state.current_piece(lengths) {
                Some(current) => current.id.get() == piece_id.get(),
                None => false,
            };
            hits.push(here);
        }
        let woken = self.take_wakers(&listed, &hits, Ghost(reached));
        proof {
            assert forall|id: usize, waker: Waker| #[trigger]
                woken@.contains((id, waker)) <==> old(self)@.contains_key(id)
                    && old(self)@[id].waker == Some(waker) && reached(old(self)@[id].state) by {
                law_woken_exactly(woken@, old(self)@, reached, id, waker);
            }
            assert forall|s: StreamState| #[trigger] reached(s) <==> {
                let pos = s.file_abs_offset + s.position;
                &&& piece_id.index() * lengths.dpl() <= pos < (piece_id.index() + 1)
                    * lengths.dpl()
                &&& pos < lengths.total() || (pos == lengths.total() && lengths.total()
                    % lengths.dpl() as u64 != 0)
            } by {
                law_reads_piece(s, *lengths, piece_id.index() as int);
            }
        }
        woken
    }

    /// Takes the wakers of the streams that wait for the chunk that was just written, to be
    /// woken by the caller. They need not wait until the whole piece is there and checked.
    pub fn wake_streams_on_chunk_written(&mut self, chunk_torrent_abs_start: u64) -> (woken: Vec<
        (usize, Waker),
    >)
        requires
            old(self).wf(),
            chunk_torrent_abs_start + CHUNK_SIZE <= u64::MAX,
        ensures
            ({
                let reached = |s: StreamState| reads_chunk(s, chunk_torrent_abs_start as int);
                &&& wakes(woken@, old(self)@, reached)
                &&& final(self)@ == without_wakers(old(self)@, reached)
            }),
            final(self).next_id_is() == old(self).next_id_is(),
            final(self)@.dom() == old(self)@.dom(),
            forall|id: usize| #[trigger]
                old(self)@.contains_key(id) ==> {
                    let state = old(self)@[id].state;
                    let pos = state.file_abs_offset + state.position;
                    &&& final(self)@[id].state == state
                    &&& final(self)@[id].waker == if chunk_torrent_abs_start <= pos
                        < chunk_torrent_abs_start + 16384 {
                        None
                    } else {
                        old(self)@[id].waker
                    }
                },
            forall|i: int, j: int| 0 <= i < j < woken@.len() ==> woken@[i].0 != woken@[j].0,
            forall|id: usize, waker: Waker| #[trigger]
                woken@.contains((id, waker)) <==> {
                    let state = old(self)@[id].state;
                    let pos = state.file_abs_offset + state.position;
                    &&& old(self)@.contains_key(id)
                    &&& old(self)@[id].waker == Some(waker)
                    &&& chunk_torrent_abs_start <= pos < chunk_torrent_abs_start + 16384
                },
    {
        let chunk_end: u64 = chunk_torrent_abs_start + CHUNK_SIZE as u64;
        let listed = list_entries(&self.streams);
        let mut hits: Vec<bool> = Vec::new();
        let ghost reached = |s: StreamState| reads_chunk(s, chunk_torrent_abs_start as int);
        for i in 0..listed.len()
            invariant
                self.wf(),
                lists(listed@, self@),
                chunk_end == chunk_torrent_abs_start + CHUNK_SIZE,
                reached == |s: StreamState| reads_chunk(s, chunk_torrent_abs_start as int),
                hits@.len() == i,
                forall|j: int| 0 <= j < i ==> #[trigger] hits@[j] == reached(listed@[j].1),
        {
            let state = listed[i].1;
            assert(self@.contains_key(listed@[i as int].0));
            let stream_torrent_pos: u64 = state.file_abs_offset + state.position;
            hits.push(
                stream_torrent_pos >= chunk_torrent_abs_start && stream_torrent_pos < chunk_end,
            );
        }
        let woken = self.take_wakers(&listed, &hits, Ghost(reached));
        proof {
            assert forall|id: usize, waker: Waker| #[trigger]
                woken@.contains((id, waker)) <==> old(self)@.contains_key(id)
                    && old(self)@[id].waker == Some(waker) && reached(old(self)@[id].state) by {
                law_woken_exactly(woken@, old(self)@, reached, id, waker);
            }
        }
        woken
    }
}

/// A sequence that names `len` indices below `len` misses none.
proof fn lemma_permutation_hits(order: Seq<int>, len: nat, i: int)
    requires
        is_permutation(order, len),
        0 <= i < len,
    ensures
        order.contains(i),
{
    assert(order.no_duplicates());
    order.unique_seq_to_set();
    lemma_int_range(0, len as int);
    if !order.contains(i) {
        assert(order.to_set().subset_of(set_int_range(0, len as int)));
        order.to_set().lemma_subset_not_in_lt(set_int_range(0, len as int), i);
    }
}

proof fn lemma_shuffled_walk(
    listed: Seq<(usize, StreamState)>,
    entries: Map<usize, StreamEntry>,
    order: Seq<int>,
)
    requires
        lists(listed, entries),
        is_permutation(order, listed.len()),
    ensures
        walks(order.map_values(|i: int| listed[i].0), entries),
{
    let ids = order.map_values(|i: int| listed[i].0);
    assert forall|id: usize| #[trigger] ids.contains(id) <==> entries.contains_key(id) by {
        if ids.contains(id) {
            let i = choose|i: int| 0 <= i < ids.len() && ids[i] == id;
            assert(entries.contains_key(listed[order[i]].0));
        }
        if entries.contains_key(id) {
            let i = choose|i: int| 0 <= i < listed.len() && (#[trigger] listed[i]).0 == id;
            lemma_permutation_hits(order, listed.len(), i);
            let j = choose|j: int| 0 <= j < order.len() && order[j] == i;
            assert(ids[j] == id);
        }
    }
}

/// A stream reads a piece exactly if its next byte lies in it. Past the end of the torrent it
/// reads none, and at the end the last piece only where that is short.
pub proof fn law_reads_piece(state: StreamState, lengths: Lengths, piece: int)
    requires
        lengths.wf(),
    ensures
        reads_piece(state, lengths, piece) <==> {
            let pos = state.file_abs_offset + state.position;
            &&& piece * lengths.dpl() <= pos < (piece + 1) * lengths.dpl()
            &&& pos < lengths.total() || (pos == lengths.total() && lengths.total()
                % lengths.dpl() as u64 != 0)
        },
{
    let pos = state.torrent_pos();
    let dpl = lengths.dpl() as int;
    let here = lengths.piece_at(pos);
    law_has_current_piece(lengths, pos);
    law_piece_at(lengths, pos);
    if piece < here {
        assert((piece + 1) * dpl <= here * dpl) by (nonlinear_arith)
            requires
                piece + 1 <= here,
                dpl >= 1,
        ;
    } else if piece > here {
        assert((here + 1) * dpl <= piece * dpl) by (nonlinear_arith)
            requires
                here + 1 <= piece,
                dpl >= 1,
        ;
    }
}

/// A stream reads a chunk exactly if its next byte is one of the 16 KiB from the start of the
/// chunk on.
pub proof fn law_reads_chunk(state: StreamState, chunk_start: int)
    ensures
        reads_chunk(state, chunk_start) <==> 0 <= state.file_abs_offset + state.position
            - chunk_start < 16 * 1024,
{
}

/// A waker is among those that are woken exactly if it is the one left with a stream that was
/// reached.
pub proof fn law_woken_exactly(
    woken: Seq<(usize, Waker)>,
    entries: Map<usize, StreamEntry>,
    reached: spec_fn(StreamState) -> bool,
    id: usize,
    waker: Waker,
)
    requires
        wakes(woken, entries, reached),
    ensures
        woken.contains((id, waker)) <==> entries.contains_key(id) && entries[id].waker == Some(
            waker,
        ) && reached(entries[id].state),
        forall|i: int, j: int| 0 <= i < j < woken.len() ==> woken[i].0 != woken[j].0,
{
    if woken.contains((id, waker)) {
        let i = choose|i: int| 0 <= i < woken.len() && woken[i] == (id, waker);
        assert(entries.contains_key(woken[i].0));
    }
    if entries.contains_key(id) && entries[id].waker == Some(waker) && reached(entries[id].state) {
        let i = choose|i: int| 0 <= i < woken.len() && (#[trigger] woken[i]).0 == id;
        assert(woken[i] == (id, waker));
    }
}

/// Waking takes the wakers of the streams that were reached, and changes nothing else.
pub proof fn law_waking_takes_wakers(
    entries: Map<usize, StreamEntry>,
    reached: spec_fn(StreamState) -> bool,
    id: usize,
)
    ensures
        without_wakers(entries, reached).dom() == entries.dom(),
        entries.contains_key(id) ==> {
            let left = without_wakers(entries, reached)[id];
            &&& left.state == entries[id].state
            &&& left.waker == if reached(entries[id].state) {
                None
            } else {
                entries[id].waker
            }
        },
{
    assert(without_wakers(entries, reached).dom() =~= entries.dom());
}

/// A stream that waits at a position is woken when a chunk that covers the position is
/// written, and when the piece at the position is complete.
pub proof fn law_waiting_stream_is_woken(
    entries: Map<usize, StreamEntry>,
    id: usize,
    waker: Waker,
    chunk_start: int,
    lengths: Lengths,
    woken: Seq<(usize, Waker)>,
)
    requires
        entries.contains_key(id),
        entries[id].waker == Some(waker),
        ({
            let state = entries[id].state;
            let pos = state.torrent_pos();
            ||| chunk_start <= pos < chunk_start + CHUNK_SIZE && wakes(
                woken,
                entries,
                |s: StreamState| reads_chunk(s, chunk_start),
            )
            ||| lengths.has_current_piece(pos) && wakes(
                woken,
                entries,
                |s: StreamState| reads_piece(s, lengths, lengths.piece_at(pos)),
            )
        }),
    ensures
        woken.contains((id, waker)),
{
    let i = choose|i: int| 0 <= i < woken.len() && (#[trigger] woken[i]).0 == id;
    assert(woken[i] == (id, waker));
}

/// No stream is woken but those that waited and were reached. The others go on waiting.
pub proof fn law_others_go_on_waiting(
    entries: Map<usize, StreamEntry>,
    id: usize,
    reached: spec_fn(StreamState) -> bool,
    woken: Seq<(usize, Waker)>,
)
    requires
        wakes(woken, entries, reached),
        entries.contains_key(id),
        !reached(entries[id].state) || entries[id].waker is None,
    ensures
        forall|i: int| 0 <= i < woken.len() ==> (#[trigger] woken[i]).0 != id,
        without_wakers(entries, reached)[id] == entries[id],
{
}

/// A waker is used once: streams that were woken are not woken again before they wait again.
pub proof fn law_woken_once(
    entries: Map<usize, StreamEntry>,
    reached: spec_fn(StreamState) -> bool,
    again: Seq<(usize, Waker)>,
)
    requires
        wakes(again, without_wakers(entries, reached), reached),
    ensures
        again.len() == 0,
{
    if again.len() > 0 {
        assert(entries.contains_key(again[0].0));
    }
}

/// A stream that was dropped is not served any more and not woken.
pub proof fn law_dropped_stream_is_gone(
    entries: Map<usize, StreamEntry>,
    id: usize,
    ids: Seq<usize>,
    reached: spec_fn(StreamState) -> bool,
    woken: Seq<(usize, Waker)>,
)
    requires
        walks(ids, entries.remove(id)),
        wakes(woken, entries.remove(id), reached),
    ensures
        !ids.contains(id),
        forall|i: int| 0 <= i < woken.len() ==> (#[trigger] woken[i]).0 != id,
{
}

/// Until the ids are used up, every new stream gets an id that no open stream has. This stays
/// so whichever streams are opened, moved, woken and dropped.
pub proof fn law_ids_are_fresh(
    before: TorrentStreams,
    after: TorrentStreams,
    entry: StreamEntry,
    id: usize,
    reached: spec_fn(StreamState) -> bool,
)
    requires
        before.ids_below_next(),
        ({
            let opened = before@.insert(before.next_id_is(), entry);
            let kept = after.next_id_is() == before.next_id_is();
            ||| after@ == opened && after.next_id_is() == before.next_id_is() + 1
            ||| kept && before@.contains_key(id) && after@ == before@.insert(id, entry)
            ||| kept && after@ == before@.remove(id)
            ||| kept && after@ == without_wakers(before@, reached)
        }),
    ensures
        !before@.contains_key(before.next_id_is()),
        after.next_id_is() < usize::MAX ==> after.ids_below_next(),
{
}

/// How many of the steps opened a stream.
pub open spec fn opens_in(opened: Seq<bool>) -> nat
    decreases opened.len(),
{
    if opened.len() == 0 {
        0
    } else {
        opens_in(opened.drop_last()) + if opened.last() {
            1nat
        } else {
            0nat
        }
    }
}

/// `history` is a registry that starts with no id given out, before and after each of a number
/// of steps. Those marked in `opened` gave out an id. The others, which move, wake and drop
/// streams, did not.
pub open spec fn is_history(history: Seq<TorrentStreams>, opened: Seq<bool>) -> bool {
    &&& history.len() == opened.len() + 1
    &&& history[0].next_id_is() == 0
    &&& forall|i: int|
        0 <= i < opened.len() ==> history[i + 1].next_id_is() == if #[trigger] opened[i] {
            if history[i].next_id_is() == usize::MAX {
                0
            } else {
                (history[i].next_id_is() + 1) as usize
            }
        } else {
            history[i].next_id_is()
        }
}

proof fn lemma_opens_in(opened: Seq<bool>, i: int, j: int)
    requires
        0 <= i <= j <= opened.len(),
    ensures
        opens_in(opened.take(i)) <= opens_in(opened.take(j)),
        i < j && opened[i] ==> opens_in(opened.take(i)) < opens_in(opened.take(j)),
    decreases j - i,
{
    if i < j {
        lemma_opens_in(opened, i, j - 1);
        assert(opened.take(j).drop_last() =~= opened.take(j - 1));
    }
}

proof fn lemma_next_id_counts(history: Seq<TorrentStreams>, opened: Seq<bool>, i: int)
    requires
        is_history(history, opened),
        0 <= i < history.len(),
    ensures
        history[i].next_id_is() == opens_in(opened.take(i)) % (usize::MAX + 1) as nat,
    decreases i,
{
    let ids = usize::MAX + 1;
    if i == 0 {
        lemma_small_mod(0, ids as nat);
    } else {
        assert(opened.take(i).drop_last() =~= opened.take(i - 1));
        lemma_next_id_counts(history, opened, i - 1);
        assert(opened[i - 1] == opened.take(i).last());
        if opened[i - 1] {
            let count = opens_in(opened.take(i - 1)) as int;
            let id = count % ids;
            let laps = count / ids;
            lemma_fundamental_div_mod(count, ids);
            assert(ids * laps == laps * ids && (laps + 1) * ids == laps * ids + ids)
                by (nonlinear_arith);
            if id == usize::MAX {
                lemma_fundamental_div_mod_converse(count + 1, ids, laps + 1, 0);
            } else {
                lemma_fundamental_div_mod_converse(count + 1, ids, laps, id + 1);
            }
        }
    }
}

/// Ids count up from 0 by the streams that were opened, whatever else is done in between, and
/// start again at 0 when all are used up. So an id comes again only after all others were
/// given out, also where its stream was dropped long before.
pub proof fn law_ids_count_up(history: Seq<TorrentStreams>, opened: Seq<bool>, i: int, j: int)
    requires
        is_history(history, opened),
        0 <= i < j < history.len(),
    ensures
        history[i].next_id_is() == opens_in(opened.take(i)) % (usize::MAX + 1) as nat,
        opens_in(opened) <= usize::MAX ==> history[i].next_id_is() == opens_in(opened.take(i)),
        history[i].next_id_is() == history[j].next_id_is() <==> (opens_in(opened.take(j))
            - opens_in(opened.take(i))) % (usize::MAX + 1) == 0,
        opened[i] && opens_in(opened.take(j)) - opens_in(opened.take(i)) <= usize::MAX
            ==> history[i].next_id_is() != history[j].next_id_is(),
{
    let ids = usize::MAX + 1;
    let before = opens_in(opened.take(i)) as int;
    let later = opens_in(opened.take(j)) as int;
    assert(opened.take(opened.len() as int) =~= opened);
    lemma_opens_in(opened, i, j);
    lemma_opens_in(opened, i, opened.len() as int);
    lemma_next_id_counts(history, opened, i);
    lemma_next_id_counts(history, opened, j);
    lemma_fundamental_div_mod(before, ids);
    lemma_fundamental_div_mod(later, ids);
    lemma_fundamental_div_mod(later - before, ids);
    let laps = before / ids;
    let later_laps = later / ids;
    let between = (later - before) / ids;
    if opens_in(opened) <= usize::MAX {
        lemma_small_mod(before as nat, ids as nat);
    }
    if before % ids == later % ids {
        assert((later_laps - laps) * ids == ids * later_laps - ids * laps) by (nonlinear_arith);
        lemma_fundamental_div_mod_converse(later - before, ids, later_laps - laps, 0);
    }
    if (later - before) % ids == 0 {
        assert((laps + between) * ids == ids * laps + ids * between) by (nonlinear_arith);
        lemma_fundamental_div_mod_converse(later, ids, laps + between, before % ids);
    }
    if opened[i] && later - before <= usize::MAX {
        lemma_small_mod((later - before) as nat, ids as nat);
    }
}

/// The positions of all streams keep an address in the torrent, whichever streams are opened,
/// woken and dropped, and as long as none is moved to a position without one.
pub proof fn law_registry_stays_valid(
    before: TorrentStreams,
    after: TorrentStreams,
    id: usize,
    entry: StreamEntry,
    reached: spec_fn(StreamState) -> bool,
)
    requires
        before.wf(),
        ({
            ||| after@ == before@.insert(id, entry) && entry.state.torrent_pos() <= u64::MAX
            ||| after@ == before@.remove(id)
            ||| after@ == without_wakers(before@, reached)
        }),
    ensures
        after.wf(),
{
}

/// What happens to one stream leaves the entries of the others as they are.
pub proof fn law_streams_are_independent(
    entries: Map<usize, StreamEntry>,
    id: usize,
    entry: StreamEntry,
    other: usize,
)
    requires
        other != id,
    ensures
        entries.insert(id, entry).contains_key(other) <==> entries.contains_key(other),
        entries.contains_key(other) ==> entries.insert(id, entry)[other] == entries[other],
        entries.remove(id).contains_key(other) <==> entries.contains_key(other),
        entries.contains_key(other) ==> entries.remove(id)[other] == entries[other],
{
}

/// The queues of the streams, in the order in which the streams are served.
pub open spec fn queues_of(
    ids: Seq<usize>,
    entries: Map<usize, StreamEntry>,
    lengths: Lengths,
) -> Seq<Seq<int>> {
    ids.map_values(|id: usize| entries[id].state.wanted(lengths))
}

/// There is one queue for each open stream, no more and no fewer, and it holds what that stream
/// wants.
pub proof fn law_one_queue_each(
    ids: Seq<usize>,
    entries: Map<usize, StreamEntry>,
    lengths: Lengths,
)
    requires
        walks(ids, entries),
    ensures
        ids.no_duplicates(),
        forall|id: usize| #[trigger] ids.contains(id) <==> entries.contains_key(id),
        queues_of(ids, entries, lengths).len() == ids.len() == entries.dom().len(),
        forall|i: int|
            0 <= i < ids.len() ==> #[trigger] queues_of(ids, entries, lengths)[i]
                == entries[ids[i]].state.wanted(lengths),
{
    ids.unique_seq_to_set();
    assert(ids.to_set() =~= entries.dom());
}

/// The queues that some items name, one after the other, hold the same in whatever order the
/// items are named.
proof fn lemma_order_is_free(ids: Seq<usize>, others: Seq<usize>, queue: spec_fn(usize) -> Seq<int>)
    requires
        ids.no_duplicates(),
        others.no_duplicates(),
        forall|id: usize| #[trigger] ids.contains(id) <==> others.contains(id),
    ensures
        ids.map_values(queue).flatten().to_multiset() == others.map_values(
            queue,
        ).flatten().to_multiset(),
    decreases ids.len(),
{
    if ids.len() == 0 {
        if others.len() > 0 {
            assert(others.contains(others[0]));
            assert(ids.contains(others[0]));
        }
        assert(ids =~= others);
    } else {
        let id = ids.last();
        let early = ids.drop_last();
        assert(ids.contains(id));
        let k = choose|k: int| 0 <= k < others.len() && others[k] == id;
        let front = others.take(k);
        let back = others.skip(k + 1);
        let rest = front + back;
        assert forall|x: usize| #[trigger] early.contains(x) <==> rest.contains(x) by {
            if early.contains(x) {
                let i = choose|i: int| 0 <= i < early.len() && early[i] == x;
                assert(ids[i] == x);
                assert(ids.contains(x));
                assert(others.contains(x));
                let j = choose|j: int| 0 <= j < others.len() && others[j] == x;
                if j < k {
                    assert(rest[j] == x);
                } else {
                    assert(rest[j - 1] == x);
                }
            }
            if rest.contains(x) {
                let j = choose|j: int| 0 <= j < rest.len() && rest[j] == x;
                let at = if j < k {
                    j
                } else {
                    j + 1
                };
                assert(others[at] == x);
                assert(ids.contains(x));
                let i = choose|i: int| 0 <= i < ids.len() && ids[i] == x;
                assert(early[i] == x);
            }
        }
        lemma_order_is_free(early, rest, queue);
        assert(ids.map_values(queue) =~= early.map_values(queue).push(queue(id)));
        early.map_values(queue).lemma_flatten_push(queue(id));
        let f = front.map_values(queue);
        let b = back.map_values(queue);
        assert(others.map_values(queue) =~= f.push(queue(id)) + b);
        assert(rest.map_values(queue) =~= f + b);
        lemma_flatten_concat(f.push(queue(id)), b);
        lemma_flatten_concat(f, b);
        f.lemma_flatten_push(queue(id));
        lemma_multiset_commutative(early.map_values(queue).flatten(), queue(id));
        lemma_multiset_commutative(f.flatten() + queue(id), b.flatten());
        lemma_multiset_commutative(f.flatten(), queue(id));
        lemma_multiset_commutative(f.flatten(), b.flatten());
    }
}

/// Every stream is offered what it wants once: the pieces that are offered, counted with their
/// repeats, are what the streams want, one stream after the other. That does not depend on
/// the order in which the streams are served.
pub proof fn law_each_stream_is_offered_its_own(
    ids: Seq<usize>,
    others: Seq<usize>,
    entries: Map<usize, StreamEntry>,
    lengths: Lengths,
)
    requires
        walks(ids, entries),
        others.no_duplicates(),
        forall|id: usize| #[trigger] others.contains(id) <==> entries.contains_key(id),
    ensures
        interleaved(queues_of(ids, entries, lengths)).to_multiset() == others.map_values(
            |id: usize| entries[id].state.wanted(lengths),
        ).flatten().to_multiset(),
{
    law_interleaved_yields_all(queues_of(ids, entries, lengths));
    lemma_order_is_free(ids, others, |id: usize| entries[id].state.wanted(lengths));
}

/// No stream has a second turn before every other stream that wants something has had its
/// first: what is offered begins with the most urgent piece of each such stream.
pub proof fn law_streams_take_turns(
    ids: Seq<usize>,
    entries: Map<usize, StreamEntry>,
    lengths: Lengths,
)
    requires
        walks(ids, entries),
    ensures
        ({
            let busy = ids.filter(|id: usize| entries[id].state.wanted(lengths).len() > 0);
            &&& interleaved(queues_of(ids, entries, lengths)).len() >= busy.len()
            &&& forall|i: int|
                0 <= i < busy.len() ==> #[trigger] interleaved(
                    queues_of(ids, entries, lengths),
                )[i] == entries[busy[i]].state.wanted(lengths)[0]
        }),
{
    let queues = queues_of(ids, entries, lengths);
    law_one_turn_each(queues);
    lemma_filter_queues(ids, entries, lengths);
}

proof fn lemma_filter_queues(
    ids: Seq<usize>,
    entries: Map<usize, StreamEntry>,
    lengths: Lengths,
)
    ensures
        queues_of(ids, entries, lengths).filter(|q: Seq<int>| q.len() > 0) == queues_of(
            ids.filter(|id: usize| entries[id].state.wanted(lengths).len() > 0),
            entries,
            lengths,
        ),
    decreases ids.len(),
{
    reveal(Seq::filter);
    if ids.len() > 0 {
        lemma_filter_queues(ids.drop_last(), entries, lengths);
        assert(queues_of(ids, entries, lengths).drop_last() =~= queues_of(
            ids.drop_last(),
            entries,
            lengths,
        ));
    }
    assert(queues_of(ids, entries, lengths).filter(|q: Seq<int>| q.len() > 0) =~= queues_of(
        ids.filter(|id: usize| entries[id].state.wanted(lengths).len() > 0),
        entries,
        lengths,
    ));
}

/// What the streams are offered: as many queues as there are open streams, whose pieces,
/// counted with their repeats, are what the streams want, each stream once. `ids` are the
/// open streams in any order.
pub proof fn law_offer_of_streams(
    streams: TorrentStreams,
    lengths: Lengths,
    offer: Interleave,
    ids: Seq<usize>,
)
    requires
        call_ensures(TorrentStreams::iter_next_pieces, (&streams, &lengths), offer),
        ids.no_duplicates(),
        forall|id: usize| #[trigger] ids.contains(id) <==> streams@.contains_key(id),
    ensures
        offer.queues().len() == ids.len() == streams@.dom().len(),
        interleaved(offer.queues()).to_multiset() == ids.map_values(
            |id: usize| streams@[id].state.wanted(lengths),
        ).flatten().to_multiset(),
{
    let order = choose|order: Seq<usize>|
        {
            &&& #[trigger] order.no_duplicates()
            &&& forall|id: usize| #[trigger] order.contains(id) <==> streams@.contains_key(id)
            &&& offer.queues().len() == order.len()
            &&& forall|i: int|
                0 <= i < order.len() ==> #[trigger] offer.queues()[i]
                    == streams@[order[i]].state.wanted(lengths)
        };
    let queue = |id: usize| streams@[id].state.wanted(lengths);
    order.unique_seq_to_set();
    ids.unique_seq_to_set();
    assert(order.to_set() =~= streams@.dom());
    assert(ids.to_set() =~= streams@.dom());
    assert(offer.queues() =~= order.map_values(queue));
    law_interleaved_yields_all(offer.queues());
    lemma_order_is_free(order, ids, queue);
}

/// There is one name for each open stream, and a file is named exactly if some stream reads it.
pub proof fn law_streamed_files(streams: TorrentStreams, r: Vec<usize>, file_id: usize)
    requires
        call_ensures(TorrentStreams::streamed_file_ids, (&streams,), r),
    ensures
        r@.len() == streams@.dom().len(),
        r@.contains(file_id) <==> exists|id: usize| #[trigger]
            streams@.contains_key(id) && streams@[id].state.file_id == file_id,
{
    let ids = choose|ids: Seq<usize>|
        {
            &&& #[trigger] ids.no_duplicates()
            &&& forall|id: usize| #[trigger] ids.contains(id) <==> streams@.contains_key(id)
            &&& r@.len() == ids.len()
            &&& forall|i: int|
                0 <= i < ids.len() ==> #[trigger] r@[i] == streams@[ids[i]].state.file_id
        };
    ids.unique_seq_to_set();
    assert(ids.to_set() =~= streams@.dom());
    if r@.contains(file_id) {
        let i = choose|i: int| 0 <= i < r@.len() && r@[i] == file_id;
        assert(ids.contains(ids[i]));
    }
    if exists|id: usize| #[trigger]
        streams@.contains_key(id) && streams@[id].state.file_id == file_id {
        let id = choose|id: usize| #[trigger]
            streams@.contains_key(id) && streams@[id].state.file_id == file_id;
        assert(ids.contains(id));
        let i = choose|i: int| 0 <= i < ids.len() && ids[i] == id;
        assert(r@[i] == file_id);
    }
}

/// A stream has no second turn before every other stream that wants something has had its first:
/// with `n` open streams that all want something, the first `n` pieces that are offered are the
/// most urgent one of each stream.
pub proof fn law_first_turns_go_to_all(
    streams: TorrentStreams,
    lengths: Lengths,
    offer: Interleave,
)
    requires
        call_ensures(TorrentStreams::iter_next_pieces, (&streams, &lengths), offer),
        forall|id: usize| #[trigger]
            streams@.contains_key(id) ==> streams@[id].state.wanted(lengths).len() > 0,
    ensures
        exists|ids: Seq<usize>|
            {
                &&& #[trigger] ids.no_duplicates()
                &&& forall|id: usize| #[trigger] ids.contains(id) <==> streams@.contains_key(id)
                &&& interleaved(offer.queues()).len() >= ids.len()
                &&& forall|i: int|
                    0 <= i < ids.len() ==> #[trigger] interleaved(offer.queues())[i]
                        == streams@[ids[i]].state.wanted(lengths)[0]
            },
{
    let ids = choose|ids: Seq<usize>|
        {
            &&& #[trigger] ids.no_duplicates()
            &&& forall|id: usize| #[trigger] ids.contains(id) <==> streams@.contains_key(id)
            &&& offer.queues().len() == ids.len()
            &&& forall|i: int|
                0 <= i < ids.len() ==> #[trigger] offer.queues()[i]
                    == streams@[ids[i]].state.wanted(lengths)
        };
    assert forall|i: int| 0 <= i < offer.queues().len() implies (
    #[trigger] offer.queues()[i]).len() > 0 by {
        assert(ids.contains(ids[i]));
    }
    lemma_all_busy(offer.queues());
    law_one_turn_each(offer.queues());
    assert(ids.no_duplicates());
}

proof fn lemma_all_busy(queues: Seq<Seq<int>>)
    requires
        forall|i: int| 0 <= i < queues.len() ==> (#[trigger] queues[i]).len() > 0,
    ensures
        queues.filter(|q: Seq<int>| q.len() > 0) == queues,
    decreases queues.len(),
{
    reveal(Seq::filter);
    if queues.len() > 0 {
        assert(queues[queues.len() - 1].len() > 0);
        lemma_all_busy(queues.drop_last());
    }
    assert(queues.filter(|q: Seq<int>| q.len() > 0) =~= queues);
}

/// Whatever the order in which the streams are served, the pieces that are offered are those
/// that some stream wants.
pub proof fn law_wanted_pieces_are_offered(
    ids: Seq<usize>,
    entries: Map<usize, StreamEntry>,
    lengths: Lengths,
    piece: int,
)
    requires
        walks(ids, entries),
    ensures
        interleaved(queues_of(ids, entries, lengths)).contains(piece) <==> exists|id: usize|
            entries.contains_key(id) && (#[trigger] entries[id]).state.wanted(lengths).contains(
                piece,
            ),
{
    let queues = queues_of(ids, entries, lengths);
    let offered = interleaved(queues);
    if exists|id: usize|
        entries.contains_key(id) && (#[trigger] entries[id]).state.wanted(lengths).contains(piece) {
        let id = choose|id: usize|
            entries.contains_key(id) && (#[trigger] entries[id]).state.wanted(lengths).contains(
                piece,
            );
        assert(ids.contains(id));
        let i = choose|i: int| 0 <= i < ids.len() && ids[i] == id;
        let k = choose|k: int| 0 <= k < queues[i].len() && queues[i][k] == piece;
        law_interleaved_keeps_order(queues, i, k);
        assert(offered[turn_of(queues, i, k)] == piece);
    }
    if offered.contains(piece) {
        law_interleaved_yields_all(queues);
        to_multiset_contains(offered, piece);
        to_multiset_contains(queues.flatten(), piece);
        assert(queues.flatten().contains(piece));
        lemma_flatten_contains(queues, piece);
        let i = choose|i: int| 0 <= i < queues.len() && (#[trigger] queues[i]).contains(piece);
        assert(ids.contains(ids[i]));
        assert(entries[ids[i]].state.wanted(lengths).contains(piece));
    }
}

/// Whatever the order in which the streams are served, the piece at the position of every
/// stream that has something left to read is offered within as many pieces as there are
/// streams.
pub proof fn law_current_pieces_come_first(
    ids: Seq<usize>,
    entries: Map<usize, StreamEntry>,
    lengths: Lengths,
    id: usize,
)
    requires
        lengths.wf(),
        walks(ids, entries),
        entries.contains_key(id),
        entries[id].state.lies_in(lengths),
        entries[id].state.position < entries[id].state.file_len,
    ensures
        exists|k: int|
            0 <= k < ids.len() && k < interleaved(queues_of(ids, entries, lengths)).len()
                && #[trigger] interleaved(queues_of(ids, entries, lengths))[k] == lengths.piece_at(
                entries[id].state.torrent_pos(),
            ),
{
    let queues = queues_of(ids, entries, lengths);
    assert(ids.contains(id));
    let i = choose|i: int| 0 <= i < ids.len() && ids[i] == id;
    law_queue_starts_at_position(entries[id].state, lengths);
    law_interleaved_keeps_order(queues, i, 0);
    law_first_round_is_short(queues, i);
    assert(interleaved(queues)[turn_of(queues, i, 0)] == queues[i][0]);
}

proof fn lemma_flatten_contains(queues: Seq<Seq<int>>, piece: int)
    requires
        queues.flatten().contains(piece),
    ensures
        exists|i: int| 0 <= i < queues.len() && (#[trigger] queues[i]).contains(piece),
    decreases queues.len(),
{
    if queues.len() > 0 {
        let k = choose|k: int| 0 <= k < queues.flatten().len() && queues.flatten()[k] == piece;
        let rest = queues.drop_first();
        if k < queues[0].len() {
            assert(queues[0][k] == piece);
            assert(queues[0].contains(piece));
        } else {
            assert(rest.flatten()[k - queues[0].len()] == piece);
            lemma_flatten_contains(rest, piece);
            let i = choose|i: int| 0 <= i < rest.len() && (#[trigger] rest[i]).contains(piece);
            assert(queues[i + 1].contains(piece));
        }
    }
}

} // verus!
