//! Taking items from several queues in turn.
use crate::lengths::ValidPieceIndex;
use crate::stream_state::PieceQueue;
use std::collections::VecDeque;
use vstd::prelude::*;
use vstd::seq_lib::lemma_flatten_concat;
use vstd::seq_lib::lemma_multiset_commutative;

verus! {

/// The items at `depth` of all the queues that are long enough, in the order of the queues.
pub open spec fn round<T>(queues: Seq<Seq<T>>, depth: int) -> Seq<T>
    decreases queues.len(),
{
    if queues.len() == 0 {
        Seq::empty()
    } else {
        let rest = round(queues.drop_first(), depth);
        if depth < queues[0].len() {
            seq![queues[0][depth]] + rest
        } else {
            rest
        }
    }
}

/// The length of the longest queue.
pub open spec fn longest<T>(queues: Seq<Seq<T>>) -> nat
    decreases queues.len(),
{
    if queues.len() == 0 {
        0
    } else {
        let rest = longest(queues.drop_first());
        if queues[0].len() > rest {
            queues[0].len()
        } else {
            rest
        }
    }
}

/// The first items of all the queues, then their second items, and so on.
pub open spec fn interleaved<T>(queues: Seq<Seq<T>>) -> Seq<T> {
    Seq::new(longest(queues), |depth: int| round(queues, depth)).flatten()
}

/// Several queues of pieces from which pieces are taken in turn.
pub struct Interleave {
    all: VecDeque<PieceQueue>,
}

impl Interleave {
    /// What the queues still hold. The queue in front has the next turn.
    pub closed spec fn queues(self) -> Seq<Seq<int>> {
        self.all@.map_values(|q: PieceQueue| q@)
    }

    pub closed spec fn wf(self) -> bool {
        forall|i: int| 0 <= i < self.all@.len() ==> (#[trigger] self.all@[i]).wf()
    }

    /// Gives the queues their turns in the order in which they come.
    pub fn new(queues: Vec<PieceQueue>) -> (r: Interleave)
        requires
            forall|i: int| 0 <= i < queues@.len() ==> (#[trigger] queues@[i]).wf(),
        ensures
            r.wf(),
            r.queues() == queues@.map_values(|q: PieceQueue| q@),
    {
        let mut all: VecDeque<PieceQueue> = VecDeque::new();
        for i in 0..queues.len()
            invariant
                all@ == queues@.take(i as int),
        {
            all.push_back(queues[i]);
            assert(all@ =~= queues@.take(i + 1));
        }
        assert(all@ =~= queues@);
        Interleave { all }
    }

    /// Takes the next piece: from the queue in front, which then goes to the back. A queue
    /// that has nothing left is dropped.
    pub fn next(&mut self) -> (r: Option<ValidPieceIndex>)
        requires
            old(self).wf(),
        ensures
            final(self).wf(),
            r is Some <==> interleaved(old(self).queues()).len() > 0,
            r matches Some(id) ==> {
                &&& id.index() == interleaved(old(self).queues())[0]
                &&& interleaved(final(self).queues()) == interleaved(
                    old(self).queues(),
                ).drop_first()
            },
            r is None ==> interleaved(final(self).queues()).len() == 0,
            r is None <==> forall|i: int|
                0 <= i < old(self).queues().len() ==> (#[trigger] old(self).queues()[i]).len() == 0,
            r is None ==> final(self).queues().len() == 0,
            r matches Some(id) ==> exists|k: int|
                {
                    &&& 0 <= k < old(self).queues().len()
                    &&& forall|i: int|
                        0 <= i < k ==> (#[trigger] old(self).queues()[i]).len() == 0
                    &&& (#[trigger] old(self).queues()[k]).len() > 0
                    &&& id.index() == old(self).queues()[k][0]
                    &&& final(self).queues() == old(self).queues().skip(k + 1).push(
                        old(self).queues()[k].drop_first(),
                    )
                },
    {
        proof {
            lemma_turns_interleave(self.queues());
        }
        let ghost mut passed: int = 0;
        assert(self.queues() =~= old(self).queues().skip(0));
        loop
            invariant
                self.wf(),
                turns(self.queues()) == interleaved(old(self).queues()),
                0 <= passed <= old(self).queues().len(),
                self.queues() == old(self).queues().skip(passed),
                forall|i: int|
                    0 <= i < passed ==> (#[trigger] old(self).queues()[i]).len() == 0,
            decreases self.all@.len(),
        {
            let ghost before = self.queues();
            let mut queue = match self.all.pop_front() {
                Some(queue) => queue,
                None => {
                    proof {
                        lemma_turns_interleave(self.queues());
                    }
                    return None;
                },
            };
            assert(before[0] == queue@);
            assert(self.queues() =~= before.drop_first());
            assert(old(self).queues()[passed] == queue@);
            assert(self.queues() =~= old(self).queues().skip(passed + 1));
            if let Some(id) = queue.next() {
                self.all.push_back(queue);
                proof {
                    assert(self.queues() =~= before.drop_first().push(before[0].drop_first()));
                    assert(interleaved(old(self).queues()).drop_first() =~= turns(self.queues()));
                    lemma_turns_interleave(self.queues());
                }
                return Some(id);
            }
            proof {
                passed = passed + 1;
            }
        }
    }
}

/// What is left of `queues` after one round: without the empty ones, and without the first
/// item of the others.
spec fn after_round<T>(queues: Seq<Seq<T>>) -> Seq<Seq<T>>
    decreases queues.len(),
{
    if queues.len() == 0 {
        Seq::empty()
    } else {
        let rest = after_round(queues.drop_first());
        if queues[0].len() > 0 {
            seq![queues[0].drop_first()] + rest
        } else {
            rest
        }
    }
}

spec fn total_len<T>(queues: Seq<Seq<T>>) -> nat
    decreases queues.len(),
{
    if queues.len() == 0 {
        0
    } else {
        1 + queues[0].len() + total_len(queues.drop_first())
    }
}

proof fn lemma_total_len_push<T>(queues: Seq<Seq<T>>, q: Seq<T>)
    ensures
        total_len(queues.push(q)) == total_len(queues) + 1 + q.len(),
    decreases queues.len(),
{
    if queues.len() == 0 {
        assert(queues.push(q).drop_first() =~= queues);
    } else {
        lemma_total_len_push(queues.drop_first(), q);
        assert(queues.push(q).drop_first() =~= queues.drop_first().push(q));
    }
}

/// Taking one item from the queue in front, which then goes to the back, until none is left.
spec fn turns<T>(queues: Seq<Seq<T>>) -> Seq<T>
    decreases total_len(queues),
{
    if queues.len() == 0 {
        Seq::empty()
    } else if queues[0].len() == 0 {
        turns(queues.drop_first())
    } else {
        proof {
            lemma_total_len_push(queues.drop_first(), queues[0].drop_first());
        }
        seq![queues[0][0]] + turns(queues.drop_first().push(queues[0].drop_first()))
    }
}

/// The turns of one round, of which `waiting` are still to come and `done` are over.
proof fn lemma_turns_of_round<T>(waiting: Seq<Seq<T>>, done: Seq<Seq<T>>)
    ensures
        turns(waiting + done) == round(waiting, 0) + turns(done + after_round(waiting)),
    decreases waiting.len(),
{
    if waiting.len() == 0 {
        assert(waiting + done =~= done + after_round(waiting));
    } else {
        let rest = waiting.drop_first();
        assert((waiting + done).drop_first() =~= rest + done);
        if waiting[0].len() == 0 {
            lemma_turns_of_round(rest, done);
        } else {
            let tail = waiting[0].drop_first();
            lemma_turns_of_round(rest, done.push(tail));
            assert((rest + done).push(tail) =~= rest + done.push(tail));
            assert(done.push(tail) + after_round(rest) =~= done + after_round(waiting));
        }
    }
}

proof fn lemma_after_round<T>(queues: Seq<Seq<T>>)
    ensures
        forall|depth: int|
            depth >= 0 ==> #[trigger] round(after_round(queues), depth) == round(queues, depth + 1),
        longest(queues) > 0 ==> longest(after_round(queues)) == longest(queues) - 1,
        longest(queues) == 0 ==> after_round(queues).len() == 0,
    decreases queues.len(),
{
    if queues.len() > 0 {
        let rest = queues.drop_first();
        lemma_after_round(rest);
        if queues[0].len() > 0 {
            assert(after_round(queues).drop_first() =~= after_round(rest));
            assert(after_round(queues)[0] == queues[0].drop_first());
            assert(longest(rest) == 0 ==> longest(after_round(rest)) == 0);
        }
        assert forall|depth: int| depth >= 0 implies #[trigger] round(after_round(queues), depth)
            == round(queues, depth + 1) by {
            assert(round(after_round(rest), depth) == round(rest, depth + 1));
        }
    }
}

proof fn lemma_round_of_empty<T>(queues: Seq<Seq<T>>)
    requires
        longest(queues) == 0,
    ensures
        round(queues, 0).len() == 0,
    decreases queues.len(),
{
    if queues.len() > 0 {
        lemma_round_of_empty(queues.drop_first());
    }
}

/// Taking turns yields the items in the order of [`interleaved`].
proof fn lemma_turns_interleave<T>(queues: Seq<Seq<T>>)
    ensures
        turns(queues) == interleaved(queues),
    decreases longest(queues),
{
    let rest = after_round(queues);
    lemma_turns_of_round(queues, Seq::empty());
    assert(queues + Seq::<Seq<T>>::empty() =~= queues);
    assert(Seq::<Seq<T>>::empty() + rest =~= rest);
    lemma_after_round(queues);
    if longest(queues) == 0 {
        lemma_round_of_empty(queues);
        assert(turns(queues) =~= interleaved(queues));
    } else {
        lemma_turns_interleave(rest);
        let rounds = Seq::new(longest(queues), |depth: int| round(queues, depth));
        let later = Seq::new(longest(rest), |depth: int| round(rest, depth));
        assert(rounds.drop_first() =~= later) by {
            assert forall|i: int| 0 <= i < later.len() implies rounds.drop_first()[i]
                == later[i] by {
                assert(round(rest, i) == round(queues, i + 1));
            }
        }
        assert(rounds.first() == round(queues, 0));
    }
}

proof fn lemma_turns_yield_all<T>(queues: Seq<Seq<T>>)
    ensures
        turns(queues).to_multiset() == queues.flatten().to_multiset(),
    decreases total_len(queues),
{
    if queues.len() == 0 {
        assert(turns(queues) =~= queues.flatten());
    } else {
        let rest = queues.drop_first();
        if queues[0].len() == 0 {
            lemma_turns_yield_all(rest);
            assert(queues.flatten() =~= rest.flatten());
        } else {
            let tail = queues[0].drop_first();
            let item = seq![queues[0][0]];
            lemma_total_len_push(rest, tail);
            lemma_turns_yield_all(rest.push(tail));
            rest.lemma_flatten_push(tail);
            assert(queues[0] =~= item + tail);
            lemma_multiset_commutative(item, turns(rest.push(tail)));
            lemma_multiset_commutative(rest.flatten(), tail);
            lemma_multiset_commutative(queues[0], rest.flatten());
            lemma_multiset_commutative(item, tail);
        }
    }
}

/// Interleaving loses no item, adds none and repeats none.
pub proof fn law_interleaved_yields_all<T>(queues: Seq<Seq<T>>)
    ensures
        interleaved(queues).to_multiset() == queues.flatten().to_multiset(),
{
    lemma_turns_interleave(queues);
    lemma_turns_yield_all(queues);
}

/// Interleaving takes the first item of the queue in front and moves what is left of that queue
/// behind the others. A queue that is empty is passed over. With no queue there is no item.
pub proof fn law_interleaved_step<T>(queues: Seq<Seq<T>>)
    ensures
        queues.len() == 0 ==> interleaved(queues).len() == 0,
        queues.len() > 0 && queues[0].len() == 0 ==> interleaved(queues) == interleaved(
            queues.drop_first(),
        ),
        queues.len() > 0 && queues[0].len() > 0 ==> interleaved(queues) == seq![queues[0][0]]
            + interleaved(queues.drop_first().push(queues[0].drop_first())),
{
    lemma_turns_interleave(queues);
    if queues.len() > 0 {
        lemma_turns_interleave(queues.drop_first());
        lemma_turns_interleave(queues.drop_first().push(queues[0].drop_first()));
    }
}

proof fn lemma_busy<T>(queues: Seq<Seq<T>>)
    ensures
        ({
            let busy = queues.filter(|q: Seq<T>| q.len() > 0);
            &&& round(queues, 0) == busy.map_values(|q: Seq<T>| q[0])
            &&& after_round(queues) == busy.map_values(|q: Seq<T>| q.drop_first())
        }),
    decreases queues.len(),
{
    reveal(Seq::filter);
    let keep = |q: Seq<T>| q.len() > 0;
    let busy = queues.filter(keep);
    if queues.len() > 0 {
        let front = seq![queues[0]];
        let rest = queues.drop_first();
        lemma_busy(rest);
        Seq::filter_distributes_over_add(front, rest, keep);
        assert(queues =~= front + rest);
        assert(front.drop_last() =~= Seq::empty());
        assert(front.drop_last().filter(keep) =~= Seq::empty());
        if queues[0].len() > 0 {
            assert(busy =~= front + rest.filter(keep));
        } else {
            assert(busy =~= rest.filter(keep));
        }
    }
    assert(round(queues, 0) =~= busy.map_values(|q: Seq<T>| q[0]));
    assert(after_round(queues) =~= busy.map_values(|q: Seq<T>| q.drop_first()));
}

/// No queue has a second turn before every other queue that holds something has had its first:
/// what is offered begins with one item of each such queue, in the order of the queues, and
/// goes on with what is left of them.
pub proof fn law_one_turn_each<T>(queues: Seq<Seq<T>>)
    ensures
        ({
            let busy = queues.filter(|q: Seq<T>| q.len() > 0);
            &&& interleaved(queues) == busy.map_values(|q: Seq<T>| q[0]) + interleaved(
                busy.map_values(|q: Seq<T>| q.drop_first()),
            )
            &&& busy.len() == 0 ==> interleaved(queues).len() == 0
        }),
{
    let busy = queues.filter(|q: Seq<T>| q.len() > 0);
    lemma_busy(queues);
    lemma_turns_of_round(queues, Seq::empty());
    assert(queues + Seq::<Seq<T>>::empty() =~= queues);
    assert(Seq::<Seq<T>>::empty() + after_round(queues) =~= after_round(queues));
    lemma_turns_interleave(queues);
    lemma_turns_interleave(after_round(queues));
    if busy.len() == 0 {
        law_interleaved_step(after_round(queues));
    }
}

/// The first `depth` items of every queue.
pub open spec fn cut<T>(queues: Seq<Seq<T>>, depth: nat) -> Seq<Seq<T>> {
    queues.map_values(
        |q: Seq<T>|
            if depth < q.len() {
                q.take(depth as int)
            } else {
                q
            },
    )
}

proof fn lemma_cut<T>(queues: Seq<Seq<T>>, depth: nat)
    ensures
        longest(cut(queues, depth)) == if depth < longest(queues) {
            depth
        } else {
            longest(queues)
        },
        forall|d: int|
            0 <= d < depth ==> #[trigger] round(cut(queues, depth), d) == round(queues, d),
    decreases queues.len(),
{
    if queues.len() > 0 {
        lemma_cut(queues.drop_first(), depth);
        assert(cut(queues, depth).drop_first() =~= cut(queues.drop_first(), depth));
        assert forall|d: int| 0 <= d < depth implies #[trigger] round(cut(queues, depth), d)
            == round(queues, d) by {
            assert(round(cut(queues.drop_first(), depth), d) == round(queues.drop_first(), d));
        }
    }
}

/// The queues take turns: the first `depth` items of every queue come before any later item
/// of any queue.
pub proof fn law_interleaved_takes_turns<T>(queues: Seq<Seq<T>>, depth: nat)
    ensures
        interleaved(cut(queues, depth)).is_prefix_of(interleaved(queues)),
{
    lemma_cut(queues, depth);
    let early = cut(queues, depth);
    let rounds = Seq::new(longest(queues), |d: int| round(queues, d));
    let early_rounds = Seq::new(longest(early), |d: int| round(early, d));
    let n = longest(early) as int;
    assert(early_rounds =~= rounds.take(n)) by {
        assert forall|i: int| 0 <= i < n implies early_rounds[i] == rounds[i] by {
            assert(round(early, i) == round(queues, i));
        }
    }
    assert(rounds =~= rounds.take(n) + rounds.skip(n));
    lemma_flatten_concat(rounds.take(n), rounds.skip(n));
}

/// Where the item at `depth` of queue `i` stands in [`interleaved`].
pub open spec fn turn_of<T>(queues: Seq<Seq<T>>, i: int, depth: int) -> int {
    let earlier_rounds = Seq::new(depth as nat, |d: int| round(queues, d)).flatten();
    earlier_rounds.len() as int + round(queues.take(i), depth).len()
}

proof fn lemma_place_in_round<T>(queues: Seq<Seq<T>>, i: int, depth: int)
    requires
        0 <= i < queues.len(),
        0 <= depth < queues[i].len(),
    ensures
        0 <= round(queues.take(i), depth).len() < round(queues, depth).len(),
        round(queues, depth)[round(queues.take(i), depth).len() as int] == queues[i][depth],
        depth < longest(queues),
    decreases queues.len(),
{
    if i == 0 {
        assert(queues.take(0).len() == 0);
    } else {
        let rest = queues.drop_first();
        lemma_place_in_round(rest, i - 1, depth);
        assert(queues.take(i).drop_first() =~= rest.take(i - 1));
    }
}

/// Before the first item of a queue comes at most one item of each queue in front of it.
pub proof fn law_first_round_is_short<T>(queues: Seq<Seq<T>>, i: int)
    requires
        0 <= i < queues.len(),
    ensures
        turn_of(queues, i, 0) <= i,
{
    assert(Seq::new(0, |d: int| round(queues, d)).flatten().len() == 0);
    lemma_round_len(queues.take(i), 0);
}

proof fn lemma_round_len<T>(queues: Seq<Seq<T>>, depth: int)
    ensures
        round(queues, depth).len() <= queues.len(),
    decreases queues.len(),
{
    if queues.len() > 0 {
        lemma_round_len(queues.drop_first(), depth);
    }
}

/// Every item comes at its turn, and the items of one queue come in their order.
pub proof fn law_interleaved_keeps_order<T>(queues: Seq<Seq<T>>, i: int, depth: int)
    requires
        0 <= i < queues.len(),
        0 <= depth < queues[i].len(),
    ensures
        0 <= turn_of(queues, i, depth) < interleaved(queues).len(),
        interleaved(queues)[turn_of(queues, i, depth)] == queues[i][depth],
        depth > 0 ==> turn_of(queues, i, depth - 1) < turn_of(queues, i, depth),
{
    lemma_place_in_round(queues, i, depth);
    let rounds = Seq::new(longest(queues), |d: int| round(queues, d));
    let before = Seq::new(depth as nat, |d: int| round(queues, d));
    assert(rounds =~= before + rounds.skip(depth));
    lemma_flatten_concat(before, rounds.skip(depth));
    assert(rounds.skip(depth).first() == round(queues, depth));
    if depth > 0 {
        lemma_place_in_round(queues, i, depth - 1);
        let earlier = Seq::new((depth - 1) as nat, |d: int| round(queues, d));
        assert(before =~= earlier.push(round(queues, depth - 1)));
        earlier.lemma_flatten_push(round(queues, depth - 1));
    }
}

} // verus!
