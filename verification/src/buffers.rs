//! The bounded buffers that sit between blocks.

use crate::flow::head;
use crate::flow::rest;
use crate::flow::taken;
use crate::flow::Stream;
use std::collections::VecDeque;
use vstd::prelude::*;

verus! {

/// A single-stream prefetch buffer: whenever it has drained empty it pulls up
/// to `capacity` items from its upstream at once, then hands them out one at
/// a time.
pub struct FixedBuffer1<A, It> {
    buff: VecDeque<A>,
    capacity: usize,
    input: It,
}

impl<A, It: Stream<Item = A>> FixedBuffer1<A, It> {
    /// The items held in the buffer, oldest first.
    pub closed spec fn queued(&self) -> Seq<A> {
        self.buff@
    }

    /// The most items the buffer ever holds.
    pub closed spec fn capacity(&self) -> nat {
        self.capacity as nat
    }

    /// What the upstream has yet to yield.
    pub closed spec fn upstream(&self) -> Seq<A> {
        self.input.pending()
    }

    /// A buffer never holds more than its capacity, and what it will yield is
    /// what it holds followed by what its upstream holds.
    pub proof fn lemma_occupancy(&self)
        requires
            self.wf(),
        ensures
            self.queued().len() <= self.capacity(),
            self.capacity() > 0 ==> self.pending() == self.queued() + self.upstream(),
            self.capacity() == 0 ==> self.pending() == Seq::<A>::empty(),
    {
    }
}

impl<A, It: Stream<Item = A>> Stream for FixedBuffer1<A, It> {
    type Item = A;

    closed spec fn wf(&self) -> bool {
        &&& self.input.wf()
        &&& self.buff@.len() <= self.capacity
    }

    closed spec fn pending(&self) -> Seq<A> {
        if self.capacity == 0 {
            Seq::empty()
        } else {
            self.buff@ + self.input.pending()
        }
    }

    fn next(&mut self) -> (item: Option<A>)
        ensures
            final(self).capacity() == old(self).capacity(),
            old(self).queued().len() > 0 ==> final(self).queued() == old(self).queued().drop_first() && final(self).upstream() == old(self).upstream(),
            old(self).queued().len() == 0 ==> final(self).queued() == rest(
                old(self).upstream().take(
                    taken(old(self).upstream().len(), old(self).capacity()),
                ),
            ) && final(self).upstream() == old(self).upstream().skip(
                taken(old(self).upstream().len(), old(self).capacity()),
            ),
    {
        if self.buff.len() == 0 {
            let ghost upstream = self.input.pending();
            let mut n: usize = 0;
            while n < self.capacity
                invariant_except_break
                    n <= self.capacity,
                    self.capacity == old(self).capacity,
                    self.input.wf(),
                    self.buff@.len() == n,
                    self.buff@ + self.input.pending() == upstream,
                ensures
                    self.capacity == old(self).capacity,
                    self.input.wf(),
                    self.buff@.len() <= self.capacity,
                    self.buff@ + self.input.pending() == upstream,
                    self.buff@.len() < self.capacity ==> self.input.pending().len() == 0,
                decreases self.capacity - n,
            {
                let ghost held = self.buff@;
                let ghost left = self.input.pending();
                match self.input.next() {
                    Some(a) => {
                        self.buff.push_back(a);
                        assert(self.buff@ + self.input.pending() =~= held + left);
                    },
                    None => {
                        break ;
                    },
                }
                n = n + 1;
            }
            assert(Seq::<A>::empty() + upstream =~= upstream);
        }
        let ghost held = self.buff@;
        let item = self.buff.pop_front();
        proof {
            if self.capacity > 0 && held.len() > 0 {
                assert(self.buff@ + self.input.pending() =~= (held + self.input.pending()).drop_first());
            }
        }
        item
    }
}

/// Puts a prefetch buffer of `capacity` items in front of a stream.
pub fn buffer_fixed<A, It: Stream<Item = A>>(it: It, capacity: usize) -> (buffered: FixedBuffer1<
    A,
    It,
>)
    requires
        it.wf(),
    ensures
        buffered.wf(),
        buffered.queued() == Seq::<A>::empty(),
        buffered.capacity() == capacity,
        buffered.upstream() == it.pending(),
        buffered.pending() == (if capacity == 0 {
            Seq::<A>::empty()
        } else {
            it.pending()
        }),
{
    let buffered = FixedBuffer1 { buff: VecDeque::new(), capacity, input: it };
    assert(buffered.buff@ + it.pending() =~= it.pending());
    buffered
}

/// The first components of a sequence of pairs.
pub open spec fn firsts<A, B>(pairs: Seq<(A, B)>) -> Seq<A> {
    Seq::new(pairs.len(), |i: int| pairs[i].0)
}

/// The second components of a sequence of pairs.
pub open spec fn seconds<A, B>(pairs: Seq<(A, B)>) -> Seq<B> {
    Seq::new(pairs.len(), |i: int| pairs[i].1)
}

/// Two sequences of one length, paired up item by item.
pub open spec fn zipped<A, B>(left: Seq<A>, right: Seq<B>) -> Seq<(A, B)> {
    Seq::new(left.len(), |i: int| (left[i], right[i]))
}

/// A paired-stream buffer: two rails fed from one stream of pairs.
///
/// Each pair pulled from the source puts its first component on the first
/// rail and its second component on the second rail. A rail is refilled when
/// it is pulled while empty, with as many pairs as both rails have room for.
///
/// A rail that is empty while there is no room for a refill cannot be
/// served: the topology around the buffer would need unbounded buffering.
/// Pulling such a rail is an error of the caller, which `can_pull_first` and
/// `can_pull_second` tell in advance.
pub struct FixedBuffer2<A, B, It> {
    iter: It,
    first: VecDeque<A>,
    first_capacity: usize,
    second: VecDeque<B>,
    second_capacity: usize,
}

/// The first rail of a paired buffer, for as long as it is borrowed.
pub struct FixedBuffer2First<'a, A, B, It> {
    pub data: &'a mut FixedBuffer2<A, B, It>,
}

/// The second rail of a paired buffer, for as long as it is borrowed.
pub struct FixedBuffer2Second<'a, A, B, It> {
    pub data: &'a mut FixedBuffer2<A, B, It>,
}

impl<A, B, It: Stream<Item = (A, B)>> FixedBuffer2<A, B, It> {
    /// The internal invariant: the source is sound and no rail holds more
    /// than its capacity.
    pub closed spec fn wf(&self) -> bool {
        &&& self.iter.wf()
        &&& self.first@.len() <= self.first_capacity
        &&& self.second@.len() <= self.second_capacity
    }

    /// The items waiting on the first rail, oldest first.
    pub closed spec fn first_rail(&self) -> Seq<A> {
        self.first@
    }

    /// The items waiting on the second rail, oldest first.
    pub closed spec fn second_rail(&self) -> Seq<B> {
        self.second@
    }

    /// The pairs that the source has yet to yield.
    pub closed spec fn source(&self) -> Seq<(A, B)> {
        self.iter.pending()
    }

    /// The most items the first rail ever holds.
    pub closed spec fn first_capacity(&self) -> nat {
        self.first_capacity as nat
    }

    /// The most items the second rail ever holds.
    pub closed spec fn second_capacity(&self) -> nat {
        self.second_capacity as nat
    }

    /// How many pairs a refill may take: the smaller of the room left on the
    /// two rails.
    pub open spec fn room(&self) -> int {
        let first_room = self.first_capacity() - self.first_rail().len();
        let second_room = self.second_capacity() - self.second_rail().len();
        if first_room <= second_room {
            first_room
        } else {
            second_room
        }
    }

    /// A refill changes neither capacity and moves the first `count` pairs
    /// of the source, as far as there are any, onto the rails.
    pub open spec fn refilled(&self, before: &Self, count: int) -> bool {
        let batch = before.source().take(count);
        &&& self.first_capacity() == before.first_capacity()
        &&& self.second_capacity() == before.second_capacity()
        &&& self.first_rail() == before.first_rail() + firsts(batch)
        &&& self.second_rail() == before.second_rail() + seconds(batch)
        &&& self.source() == before.source().skip(count)
    }

    /// Whether the first rail can be pulled: it holds an item, or there is
    /// room to refill it.
    pub open spec fn first_servable(&self) -> bool {
        self.first_rail().len() > 0 || self.room() > 0
    }

    /// Whether the second rail can be pulled: it holds an item, or there is
    /// room to refill it.
    pub open spec fn second_servable(&self) -> bool {
        self.second_rail().len() > 0 || self.room() > 0
    }

    /// How many pairs a refill may take.
    fn room_now(&self) -> (room: usize)
        requires
            self.wf(),
        ensures
            room == self.room(),
    {
        let first_room = self.first_capacity - self.first.len();
        let second_room = self.second_capacity - self.second.len();
        if first_room <= second_room {
            first_room
        } else {
            second_room
        }
    }

    /// Tells whether the first rail can be pulled.
    pub fn can_pull_first(&self) -> (ok: bool)
        requires
            self.wf(),
        ensures
            ok == self.first_servable(),
    {
        self.first.len() > 0 || self.room_now() > 0
    }

    /// Tells whether the second rail can be pulled.
    pub fn can_pull_second(&self) -> (ok: bool)
        requires
            self.wf(),
        ensures
            ok == self.second_servable(),
    {
        self.second.len() > 0 || self.room_now() > 0
    }

    /// No rail ever holds more than its capacity.
    pub proof fn lemma_occupancy(&self)
        requires
            self.wf(),
        ensures
            self.first_rail().len() <= self.first_capacity(),
            self.second_rail().len() <= self.second_capacity(),
            self.room() >= 0,
    {
    }

    /// Pulls up to `limit` pairs from the source and spreads them over the
    /// rails.
    fn refill(&mut self, limit: usize)
        requires
            old(self).wf(),
            limit <= old(self).room(),
        ensures
            final(self).wf(),
            final(self).refilled(old(self), taken(old(self).source().len(), limit as nat)),
    {
        let ghost source = self.iter.pending();
        let ghost first = self.first@;
        let ghost second = self.second@;
        let mut n: usize = 0;
        while n < limit
            invariant_except_break
                n <= limit,
                n <= source.len(),
                self.iter.wf(),
                self.first_capacity == old(self).first_capacity,
                self.second_capacity == old(self).second_capacity,
                first.len() + limit <= self.first_capacity,
                second.len() + limit <= self.second_capacity,
                self.first@ == first + firsts(source.take(n as int)),
                self.second@ == second + seconds(source.take(n as int)),
                self.iter.pending() == source.skip(n as int),
            ensures
                self.iter.wf(),
                self.first_capacity == old(self).first_capacity,
                self.second_capacity == old(self).second_capacity,
                self.first@ == first + firsts(source.take(taken(source.len(), limit as nat))),
                self.second@ == second + seconds(source.take(taken(source.len(), limit as nat))),
                self.iter.pending() == source.skip(taken(source.len(), limit as nat)),
            decreases limit - n,
        {
            match self.iter.next() {
                Some((a, b)) => {
                    self.first.push_back(a);
                    self.second.push_back(b);
                    proof {
                        let m = n as int;
                        assert(source.skip(m)[0] == source[m]);
                        assert(source.take(m + 1) =~= source.take(m).push(source[m]));
                        assert(firsts(source.take(m + 1)) =~= firsts(source.take(m)).push(a));
                        assert(seconds(source.take(m + 1)) =~= seconds(source.take(m)).push(b));
                        assert(self.first@ =~= first + firsts(source.take(m + 1)));
                        assert(self.second@ =~= second + seconds(source.take(m + 1)));
                        assert(source.skip(m).drop_first() =~= source.skip(m + 1));
                    }
                },
                None => {
                    assert(source.skip(n as int).len() == 0);
                    break ;
                },
            }
            n = n + 1;
        }
    }
}

/// What a pull on the first rail returns, and what it leaves behind.
///
/// An item waiting on the rail is handed out at once. An empty rail is
/// refilled first, with `room` pairs at most. `None` says that the source
/// is exhausted.
pub open spec fn first_pulled<A, B, It: Stream<Item = (A, B)>>(
    before: &FixedBuffer2<A, B, It>,
    after: &FixedBuffer2<A, B, It>,
    item: Option<A>,
) -> bool {
    let count = taken(before.source().len(), before.room() as nat);
    let batch = before.source().take(count);
    &&& after.first_capacity() == before.first_capacity()
    &&& after.second_capacity() == before.second_capacity()
    &&& if before.first_rail().len() > 0 {
        &&& item == Some(before.first_rail()[0])
        &&& after.first_rail() == before.first_rail().drop_first()
        &&& after.second_rail() == before.second_rail()
        &&& after.source() == before.source()
    } else {
        &&& item == head(firsts(batch))
        &&& after.first_rail() == rest(firsts(batch))
        &&& after.second_rail() == before.second_rail() + seconds(batch)
        &&& after.source() == before.source().skip(count)
    }
}

/// What a pull on the second rail returns, and what it leaves behind: as
/// for the first rail, with the rails' roles exchanged.
pub open spec fn second_pulled<A, B, It: Stream<Item = (A, B)>>(
    before: &FixedBuffer2<A, B, It>,
    after: &FixedBuffer2<A, B, It>,
    item: Option<B>,
) -> bool {
    let count = taken(before.source().len(), before.room() as nat);
    let batch = before.source().take(count);
    &&& after.first_capacity() == before.first_capacity()
    &&& after.second_capacity() == before.second_capacity()
    &&& if before.second_rail().len() > 0 {
        &&& item == Some(before.second_rail()[0])
        &&& after.second_rail() == before.second_rail().drop_first()
        &&& after.first_rail() == before.first_rail()
        &&& after.source() == before.source()
    } else {
        &&& item == head(seconds(batch))
        &&& after.second_rail() == rest(seconds(batch))
        &&& after.first_rail() == before.first_rail() + firsts(batch)
        &&& after.source() == before.source().skip(count)
    }
}

/// One pull on a paired buffer: the rail that was pulled, and what came
/// of it.
pub enum RailPull<A, B> {
    First(Option<A>),
    Second(Option<B>),
}

/// Whether `pull` leads from one state of a paired buffer to the next: the
/// rail could be pulled, and the pull gave what `pull` says.
pub open spec fn rail_pulled<A, B, It: Stream<Item = (A, B)>>(
    before: &FixedBuffer2<A, B, It>,
    after: &FixedBuffer2<A, B, It>,
    pull: RailPull<A, B>,
) -> bool {
    match pull {
        RailPull::First(item) => before.first_servable() && first_pulled(before, after, item),
        RailPull::Second(item) => before.second_servable() && second_pulled(before, after, item),
    }
}

/// By how many items the first rail has run ahead of the second in a run
/// of pulls: the items handed out by the first rail less those handed out
/// by the second.
pub open spec fn lead<A, B>(pulls: Seq<RailPull<A, B>>) -> int
    decreases pulls.len(),
{
    if pulls.len() == 0 {
        0
    } else {
        lead(pulls.drop_last()) + match pulls.last() {
            RailPull::First(Some(_)) => 1int,
            RailPull::Second(Some(_)) => -1int,
            _ => 0int,
        }
    }
}

/// The slack of a paired buffer: how far the first rail can still run
/// ahead of the second.
pub open spec fn slack<A, B, It: Stream<Item = (A, B)>>(rails: &FixedBuffer2<A, B, It>) -> int {
    rails.first_rail().len() + rails.second_capacity() - rails.second_rail().len()
}

/// The slack the other way round: how far the second rail can still run
/// ahead of the first.
pub open spec fn counter_slack<A, B, It: Stream<Item = (A, B)>>(
    rails: &FixedBuffer2<A, B, It>,
) -> int {
    rails.second_rail().len() + rails.first_capacity() - rails.first_rail().len()
}

/// However the pulls on the two rails are mixed, a rail cannot run ahead
/// of the other without bound: each item that the first rail hands out
/// uses up one unit of slack, each item that the second rail hands out
/// gives one back, and the slack never falls below zero. Once a rail has
/// run ahead by all the slack there was, it can no longer be pulled: a
/// reader that keeps taking from one rail faster than from the other comes
/// to that point after finitely many items, instead of being served from a
/// buffer that grows.
pub proof fn lemma_lead_is_bounded<A, B, It: Stream<Item = (A, B)>>(
    states: Seq<FixedBuffer2<A, B, It>>,
    pulls: Seq<RailPull<A, B>>,
)
    requires
        states.len() == pulls.len() + 1,
        forall|i: int| 0 <= i < states.len() ==> (#[trigger] states[i]).wf(),
        forall|i: int|
            0 <= i < pulls.len() ==> rail_pulled(&states[i], &states[i + 1], #[trigger] pulls[i]),
    ensures
        lead(pulls) == slack(&states[0]) - slack(&states.last()),
        lead(pulls) <= slack(&states[0]),
        lead(pulls) == slack(&states[0]) ==> !states.last().first_servable(),
        -lead(pulls) == counter_slack(&states[0]) - counter_slack(&states.last()),
        -lead(pulls) <= counter_slack(&states[0]),
        -lead(pulls) == counter_slack(&states[0]) ==> !states.last().second_servable(),
    decreases pulls.len(),
{
    let n = pulls.len() as int;
    states.last().lemma_occupancy();
    states[0].lemma_occupancy();
    if n > 0 {
        let earlier_states = states.drop_last();
        let earlier_pulls = pulls.drop_last();
        assert forall|i: int| 0 <= i < earlier_pulls.len() implies rail_pulled(
            &earlier_states[i],
            &earlier_states[i + 1],
            #[trigger] earlier_pulls[i],
        ) by {
            assert(rail_pulled(&states[i], &states[i + 1], pulls[i]));
        }
        lemma_lead_is_bounded(earlier_states, earlier_pulls);
        let before = states[n - 1];
        let after = states[n];
        assert(earlier_states.last() == before);
        assert(rail_pulled(&before, &after, pulls[n - 1]));
        before.lemma_occupancy();
        let count = taken(before.source().len(), before.room() as nat);
        let batch = before.source().take(count);
        assert(firsts(batch).len() == count);
        assert(seconds(batch).len() == count);
        lemma_capacities_stay(states, pulls, n);
    }
}

/// No pull changes a capacity.
proof fn lemma_capacities_stay<A, B, It: Stream<Item = (A, B)>>(
    states: Seq<FixedBuffer2<A, B, It>>,
    pulls: Seq<RailPull<A, B>>,
    k: int,
)
    requires
        states.len() == pulls.len() + 1,
        0 <= k < states.len(),
        forall|i: int|
            0 <= i < pulls.len() ==> rail_pulled(&states[i], &states[i + 1], #[trigger] pulls[i]),
    ensures
        states[k].first_capacity() == states[0].first_capacity(),
        states[k].second_capacity() == states[0].second_capacity(),
    decreases k,
{
    if k > 0 {
        lemma_capacities_stay(states, pulls, k - 1);
        assert(rail_pulled(&states[k - 1], &states[k], pulls[k - 1]));
    }
}

impl<'a, A, B, It: Stream<Item = (A, B)>> FixedBuffer2First<'a, A, B, It> {
    /// Pulls the next item off the first rail. The rail must hold an item
    /// or have room for a refill.
    pub fn next(&mut self) -> (item: Option<A>)
        requires
            old(self).data.wf(),
            old(self).data.first_servable(),
        ensures
            final(self).data.wf(),
            first_pulled(old(self).data, final(self).data, item),
            *final(final(self).data) == *final(old(self).data),
    {
        if self.data.first.len() == 0 {
            let num_to_take = self.data.room_now();
            let ghost before = *self.data;
            self.data.refill(num_to_take);
            proof {
                let batch = before.source().take(taken(before.source().len(), num_to_take as nat));
                assert(Seq::<A>::empty() + firsts(batch) =~= firsts(batch));
            }
        }
        self.data.first.pop_front()
    }
}

impl<'a, A, B, It: Stream<Item = (A, B)>> FixedBuffer2Second<'a, A, B, It> {
    /// Pulls the next item off the second rail. The rail must hold an
    /// item or have room for a refill.
    pub fn next(&mut self) -> (item: Option<B>)
        requires
            old(self).data.wf(),
            old(self).data.second_servable(),
        ensures
            final(self).data.wf(),
            second_pulled(old(self).data, final(self).data, item),
            *final(final(self).data) == *final(old(self).data),
    {
        if self.data.second.len() == 0 {
            let num_to_take = self.data.room_now();
            let ghost before = *self.data;
            self.data.refill(num_to_take);
            proof {
                let batch = before.source().take(taken(before.source().len(), num_to_take as nat));
                assert(Seq::<B>::empty() + seconds(batch) =~= seconds(batch));
            }
        }
        self.data.second.pop_front()
    }
}

/// Splits a stream of pairs into two buffered rails of the given
/// capacities.
pub fn split_fixed<A, B, It: Stream<Item = (A, B)>>(it: It, cap_a: usize, cap_b: usize) -> (rails:
    FixedBuffer2<A, B, It>)
    requires
        it.wf(),
    ensures
        rails.wf(),
        rails.first_rail() == Seq::<A>::empty(),
        rails.second_rail() == Seq::<B>::empty(),
        rails.source() == it.pending(),
        rails.first_capacity() == cap_a,
        rails.second_capacity() == cap_b,
{
    FixedBuffer2 {
        iter: it,
        first: VecDeque::new(),
        first_capacity: cap_a,
        second: VecDeque::new(),
        second_capacity: cap_b,
    }
}

/// What a pull on both rails, one after the other, leaves of a paired
/// buffer whose rails are level: each rail is one item shorter; empty rails
/// are refilled first, with `room` pairs at most.
pub open spec fn zip_pulled<A, B, It: Stream<Item = (A, B)>>(
    before: &FixedBuffer2<A, B, It>,
    after: &FixedBuffer2<A, B, It>,
) -> bool {
    let count = taken(before.source().len(), before.room() as nat);
    let batch = before.source().take(count);
    &&& after.first_capacity() == before.first_capacity()
    &&& after.second_capacity() == before.second_capacity()
    &&& if before.first_rail().len() > 0 {
        &&& after.first_rail() == before.first_rail().drop_first()
        &&& after.second_rail() == before.second_rail().drop_first()
        &&& after.source() == before.source()
    } else {
        &&& after.first_rail() == rest(firsts(batch))
        &&& after.second_rail() == rest(seconds(batch))
        &&& after.source() == before.source().skip(count)
    }
}

/// The two rails of a paired buffer joined again, pair by pair.
///
/// Pulled in lock-step the rails stay level, so a refill always finds room
/// on both and either rail can always be pulled.
pub struct ZipRails<A, B, It> {
    rails: FixedBuffer2<A, B, It>,
}

impl<A, B, It: Stream<Item = (A, B)>> ZipRails<A, B, It> {
    /// The paired buffer underneath.
    pub closed spec fn rails(&self) -> FixedBuffer2<A, B, It> {
        self.rails
    }

    /// The rails are level, and what is still to come is the pairs waiting
    /// on the rails and then the pairs of the source.
    pub proof fn lemma_pending(&self)
        requires
            self.wf(),
        ensures
            self.rails().wf(),
            self.rails().first_rail().len() == self.rails().second_rail().len(),
            self.rails().first_capacity() >= 1,
            self.rails().second_capacity() >= 1,
            self.pending() == zipped(self.rails().first_rail(), self.rails().second_rail())
                + self.rails().source(),
    {
    }
}

impl<A, B, It: Stream<Item = (A, B)>> Stream for ZipRails<A, B, It> {
    type Item = (A, B);

    closed spec fn wf(&self) -> bool {
        &&& self.rails.wf()
        &&& self.rails.first@.len() == self.rails.second@.len()
        &&& self.rails.first_capacity >= 1
        &&& self.rails.second_capacity >= 1
    }

    closed spec fn pending(&self) -> Seq<(A, B)> {
        zipped(self.rails.first@, self.rails.second@) + self.rails.iter.pending()
    }

    fn next(&mut self) -> (item: Option<(A, B)>)
        ensures
            zip_pulled(&old(self).rails(), &final(self).rails()),
    {
        let ghost before = self.rails;
        let a = (FixedBuffer2First { data: &mut self.rails }).next();
        let ghost between = self.rails;
        let b = (FixedBuffer2Second { data: &mut self.rails }).next();
        proof {
            let source = before.source();
            if before.first_rail().len() == 0 {
                let count = taken(source.len(), before.room() as nat);
                let batch = source.take(count);
                assert(Seq::<B>::empty() + seconds(batch) =~= seconds(batch));
                assert(zipped(before.first_rail(), before.second_rail()) + source =~= source);
                if count > 0 {
                    assert(self.pending() =~= source.drop_first());
                } else {
                    let again = between.source().take(
                        taken(between.source().len(), between.room() as nat),
                    );
                    assert(firsts(again) =~= Seq::<A>::empty());
                    assert(seconds(again) =~= Seq::<B>::empty());
                    assert(self.rails.first_rail() =~= rest(firsts(batch)));
                    assert(self.rails.second_rail() =~= rest(seconds(batch)));
                    assert(self.rails.source() =~= source.skip(count));
                    assert(self.pending() =~= source);
                }
            } else {
                assert(self.pending() =~= old(self).pending().drop_first());
            }
        }
        match (a, b) {
            (Some(a), Some(b)) => Some((a, b)),
            _ => None,
        }
    }
}

/// Joins the rails of a paired buffer into one stream of pairs.
pub fn zip_rails<A, B, It: Stream<Item = (A, B)>>(rails: FixedBuffer2<A, B, It>) -> (joined:
    ZipRails<A, B, It>)
    requires
        rails.wf(),
        rails.first_rail().len() == rails.second_rail().len(),
        rails.first_capacity() >= 1,
        rails.second_capacity() >= 1,
    ensures
        joined.wf(),
        joined.rails() == rails,
        joined.pending() == zipped(rails.first_rail(), rails.second_rail()) + rails.source(),
{
    ZipRails { rails }
}

/// A bounded first-in, first-out queue: the buffer that a producer and a
/// consumer share. Whoever holds it exclusively, as under a lock, acts on it
/// as `Producer` or as `Consumer`.
pub struct Buff<T> {
    queue: VecDeque<T>,
    capacity: usize,
}

impl<T> View for Buff<T> {
    type V = Seq<T>;

    /// The items in the queue, oldest first.
    closed spec fn view(&self) -> Seq<T> {
        self.queue@
    }
}

impl<T> Buff<T> {
    /// The most items the queue ever holds.
    pub closed spec fn capacity(&self) -> nat {
        self.capacity as nat
    }

    /// The internal invariant: the queue holds no more than its capacity.
    pub closed spec fn wf(&self) -> bool {
        self.queue@.len() <= self.capacity
    }

    /// A queue never holds more than its capacity.
    pub proof fn lemma_occupancy(&self)
        requires
            self.wf(),
        ensures
            self@.len() <= self.capacity(),
    {
    }
}

/// How many items of a batch of `batch_len` a queue takes that holds
/// `queue_len` items of `capacity`.
pub open spec fn accepted(queue_len: nat, capacity: nat, batch_len: nat) -> nat {
    if queue_len + batch_len <= capacity {
        batch_len
    } else if queue_len <= capacity {
        (capacity - queue_len) as nat
    } else {
        0
    }
}

/// A queue after a batch was pushed onto it: it takes the items in order
/// until it is full.
pub open spec fn after_push<T>(queue: Seq<T>, capacity: nat, batch: Seq<T>) -> Seq<T> {
    queue + batch.take(accepted(queue.len(), capacity, batch.len()) as int)
}

/// What a batch push reports: success if the whole batch went in, else the
/// number of items that did.
pub open spec fn push_report(queue_len: nat, capacity: nat, batch_len: nat) -> Result<(), usize> {
    if queue_len + batch_len <= capacity {
        Ok(())
    } else {
        Err(accepted(queue_len, capacity, batch_len) as usize)
    }
}

/// A queue after `pulls` pulls by the consumer.
pub open spec fn after_pulls<T>(queue: Seq<T>, pulls: nat) -> Seq<T>
    decreases pulls,
{
    if pulls == 0 {
        queue
    } else {
        rest(after_pulls(queue, (pulls - 1) as nat))
    }
}

/// Pulling hands the queue out from the front: after `pulls` pulls what is
/// left is the queue without its first `pulls` items.
pub proof fn lemma_after_pulls<T>(queue: Seq<T>, pulls: nat)
    ensures
        after_pulls(queue, pulls) == queue.skip(taken(queue.len(), pulls)),
    decreases pulls,
{
    if pulls == 0 {
        assert(queue.skip(0) =~= queue);
    } else {
        lemma_after_pulls(queue, (pulls - 1) as nat);
        let earlier = after_pulls(queue, (pulls - 1) as nat);
        if pulls <= queue.len() {
            assert(rest(earlier) =~= queue.skip(pulls as int));
        } else {
            assert(rest(earlier) =~= queue.skip(queue.len() as int));
        }
    }
}

/// A batch that does not fit is cut at the queue's capacity: the report
/// names the exact number of items that went in, and the consumer then sees
/// exactly those items, in the order of the batch, before the queue runs
/// empty.
pub proof fn lemma_overfull_batch<T>(capacity: usize, batch: Seq<T>)
    requires
        batch.len() > capacity,
    ensures
        push_report(0, capacity as nat, batch.len()) == Err::<(), usize>(capacity),
        after_push(Seq::<T>::empty(), capacity as nat, batch) == batch.take(capacity as int),
        forall|i: nat|
            i < capacity ==> head(
                #[trigger] after_pulls(
                    after_push(Seq::<T>::empty(), capacity as nat, batch),
                    i,
                ),
            ) == Some(batch[i as int]),
        head(
            after_pulls(after_push(Seq::<T>::empty(), capacity as nat, batch), capacity as nat),
        ) == None::<T>,
{
    let queue = after_push(Seq::<T>::empty(), capacity as nat, batch);
    assert(queue =~= batch.take(capacity as int));
    assert forall|i: nat| i < capacity implies head(#[trigger] after_pulls(queue, i)) == Some(
        batch[i as int],
    ) by {
        lemma_after_pulls(queue, i);
    }
    lemma_after_pulls(queue, capacity as nat);
}

/// The producing side of a shared queue, for as long as the queue is
/// borrowed.
pub struct Producer<'a, T> {
    pub inner: &'a mut Buff<T>,
}

/// The consuming side of a shared queue, for as long as the queue is
/// borrowed.
pub struct Consumer<'a, T> {
    pub inner: &'a mut Buff<T>,
}

impl<'a, T: Copy> Producer<'a, T> {
    /// Pushes a slice of items onto the queue.
    ///
    /// If the queue has no room for all of them, `Err(n)` is returned, where
    /// `n` is the number of items of the slice that went in; the call never
    /// waits for room.
    pub fn push_slice(&mut self, elts: &[T]) -> (report: Result<(), usize>)
        requires
            old(self).inner.wf(),
        ensures
            final(self).inner.wf(),
            final(self).inner.capacity() == old(self).inner.capacity(),
            final(self).inner@ == after_push(
                old(self).inner@,
                old(self).inner.capacity(),
                elts@,
            ),
            report == push_report(old(self).inner@.len(), old(self).inner.capacity(), elts@.len()),
            *final(final(self).inner) == *final(old(self).inner),
    {
        let ghost queue = self.inner.queue@;
        let mut count: usize = 0;
        while count < elts.len()
            invariant
                count <= elts@.len(),
                self.inner.capacity == old(self).inner.capacity,
                self.inner.queue@ == queue + elts@.take(count as int),
                self.inner.queue@.len() <= self.inner.capacity,
                queue == old(self).inner.queue@,
                *final(self.inner) == *final(old(self).inner),
            decreases elts@.len() - count,
        {
            if self.inner.queue.len() == self.inner.capacity {
                return Err(count);
            }
            self.inner.queue.push_back(elts[count]);
            assert(elts@.take(count + 1) =~= elts@.take(count as int).push(elts@[count as int]));
            assert(self.inner.queue@ =~= queue + elts@.take(count + 1));
            count = count + 1;
        }
        Ok(())
    }
}

impl<'a, T> Consumer<'a, T> {
    /// Takes the oldest item off the queue. `None` says that the queue is
    /// empty for now: the consumer has to wait for the producer's signal and
    /// pull again.
    pub fn next(&mut self) -> (item: Option<T>)
        requires
            old(self).inner.wf(),
        ensures
            final(self).inner.wf(),
            final(self).inner.capacity() == old(self).inner.capacity(),
            item == head(old(self).inner@),
            final(self).inner@ == rest(old(self).inner@),
            *final(final(self).inner) == *final(old(self).inner),
    {
        self.inner.queue.pop_front()
    }
}

/// Makes the queue that a producer and a consumer share. Items go in
/// through a `Producer` and come out, oldest first, through a `Consumer`;
/// the queue never holds more than `capacity` items.
pub fn push_buffer<T>(capacity: usize) -> (buff: Buff<T>)
    ensures
        buff.wf(),
        buff@ == Seq::<T>::empty(),
        buff.capacity() == capacity,
{
    Buff { queue: VecDeque::new(), capacity }
}

} // verus!
