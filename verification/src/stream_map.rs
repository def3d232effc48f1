//! The outside parts that the registry of streams stands on: the concurrent map that holds the
//! streams, the wakers of their readers, and the random order in which streams are served.
//! What is claimed of them here is not proved.
use crate::stream_state::{PieceQueue, StreamState};
use dashmap::DashMap;
use rand::seq::SliceRandom;
use std::task::Waker;
use vstd::prelude::*;

verus! {

/// `std::task::Waker`, which is only carried from one place to another.
#[verifier::external_type_specification]
#[verifier::external_body]
pub struct ExWaker(Waker);

/// `dashmap::DashMap`. Its methods change the map through a shared reference. The functions
/// below that change it ask for `&mut`, so that whoever holds a shared reference can rely on
/// what the map holds.
#[verifier::external_type_specification]
#[verifier::external_body]
#[verifier::reject_recursive_types(K)]
#[verifier::reject_recursive_types(V)]
#[verifier::reject_recursive_types(S)]
pub struct ExDashMap<K, V, S>(DashMap<K, V, S>);

/// What the registry holds of one stream.
pub struct StreamEntry {
    pub state: StreamState,
    /// Whom to wake when the data at the position has come in.
    pub waker: Option<Waker>,
}

/// The entries that a map holds, each under the id of its stream.
pub uninterp spec fn entries_of(streams: DashMap<usize, StreamEntry>) -> Map<usize, StreamEntry>;

/// `listed` has every stream of `entries` once, with its state, in some order.
pub open spec fn lists(
    listed: Seq<(usize, StreamState)>,
    entries: Map<usize, StreamEntry>,
) -> bool {
    &&& forall|i: int, j: int| 0 <= i < j < listed.len() ==> listed[i].0 != listed[j].0
    &&& forall|i: int|
        0 <= i < listed.len() ==> {
            &&& entries.contains_key((#[trigger] listed[i]).0)
            &&& entries[listed[i].0].state == listed[i].1
        }
    &&& forall|id: usize| #[trigger]
        entries.contains_key(id) ==> exists|i: int|
            0 <= i < listed.len() && (#[trigger] listed[i]).0 == id
}

/// `order` names every index below `len` once.
pub open spec fn is_permutation(order: Seq<int>, len: nat) -> bool {
    &&& order.len() == len
    &&& forall|i: int| 0 <= i < len ==> 0 <= #[trigger] order[i] < len
    &&& forall|i: int, j: int| 0 <= i < j < len ==> order[i] != order[j]
}

/// `DashMap::default`: makes a map that holds nothing.
#[verifier::external_body]
pub(crate) fn new_map() -> (created: DashMap<usize, StreamEntry>)
    ensures
        entries_of(created).is_empty(),
{
    DashMap::default()
}

/// `DashMap::insert`: puts the entry under the id, and hands back the entry that it replaces.
#[verifier::external_body]
pub(crate) fn insert_entry(
    streams: &mut DashMap<usize, StreamEntry>,
    id: usize,
    entry: StreamEntry,
) -> (replaced: Option<StreamEntry>)
    ensures
        entries_of(*final(streams)) == entries_of(*old(streams)).insert(id, entry),
        replaced == if entries_of(*old(streams)).contains_key(id) {
            Some(entries_of(*old(streams))[id])
        } else {
            None
        },
{
    streams.insert(id, entry)
}

/// `DashMap::get_mut`, with `RefMut::value_mut` on the entry that it finds: writes over the
/// entry under the id and hands back what was there. Where there is none, nothing changes.
#[verifier::external_body]
pub(crate) fn replace_entry(
    streams: &mut DashMap<usize, StreamEntry>,
    id: usize,
    entry: StreamEntry,
) -> (replaced: Option<StreamEntry>)
    ensures
        entries_of(*final(streams)) == if entries_of(*old(streams)).contains_key(id) {
            entries_of(*old(streams)).insert(id, entry)
        } else {
            entries_of(*old(streams))
        },
        replaced == if entries_of(*old(streams)).contains_key(id) {
            Some(entries_of(*old(streams))[id])
        } else {
            None
        },
{
    streams.get_mut(&id).map(|mut found| std::mem::replace(found.value_mut(), entry))
}

/// `DashMap::remove`: takes the entry under the id out of the map.
#[verifier::external_body]
pub(crate) fn remove_entry(streams: &mut DashMap<usize, StreamEntry>, id: usize) -> (removed:
    Option<(usize, StreamEntry)>)
    ensures
        entries_of(*final(streams)) == entries_of(*old(streams)).remove(id),
        removed == if entries_of(*old(streams)).contains_key(id) {
            Some((id, entries_of(*old(streams))[id]))
        } else {
            None
        },
{
    streams.remove(&id)
}

/// `DashMap::iter`: comes to every entry once. The order depends on how the map hashes, which
/// differs from one map to the next, and nothing is said of it.
#[verifier::external_body]
pub(crate) fn list_entries(streams: &DashMap<usize, StreamEntry>) -> (listed: Vec<
    (usize, StreamState),
>)
    ensures
        lists(listed@, entries_of(*streams)),
{
    streams.iter().map(|entry| (*entry.key(), entry.value().state)).collect()
}

/// `SliceRandom::shuffle` of the crate rand, with the generator that `rand::rng` gives: puts
/// the queues in another order. Which one is left to chance. Whatever the queues, it panics
/// where the system has no randomness to give.
#[verifier::external_body]
pub(crate) fn shuffle_queues(queues: &mut Vec<PieceQueue>)
    ensures
        exists|order: Seq<int>|
            is_permutation(order, old(queues)@.len()) && final(queues)@ == order.map_values(
                |i: int| old(queues)@[i],
            ),
{
    queues.shuffle(&mut rand::rng())
}

} // verus!
