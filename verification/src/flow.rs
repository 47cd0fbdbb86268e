//! Pull-based streams: the edges of a pipeline.

use vstd::prelude::*;

verus! {

/// A forward-only sequence of items that is handed out one item per pull.
///
/// A stream is modelled by the items it has yet to yield. Pulling hands out
/// the first of them; once none is left every further pull yields `None`.
///
/// Only finite streams are meant: what is pending is a sequence, which has
/// a length, and every pull on a stream that is not exhausted shortens it
/// by one item. A source without end has no value in this model; it enters
/// a pipeline as the finite run of items that was taken from it.
pub trait Stream {
    type Item;

    /// The internal invariant of the stream's state.
    spec fn wf(&self) -> bool;

    /// The items that are still to come, next one first.
    spec fn pending(&self) -> Seq<Self::Item>;

    fn next(&mut self) -> (item: Option<Self::Item>)
        requires
            old(self).wf(),
        ensures
            final(self).wf(),
            item == head(old(self).pending()),
            final(self).pending() == rest(old(self).pending()),
    ;
}

/// What a pull on a stream with items `s` pending returns.
pub open spec fn head<A>(s: Seq<A>) -> Option<A> {
    if s.len() > 0 {
        Some(s[0])
    } else {
        None
    }
}

/// What is still pending after a pull on a stream with items `s` pending.
pub open spec fn rest<A>(s: Seq<A>) -> Seq<A> {
    if s.len() > 0 {
        s.drop_first()
    } else {
        s
    }
}

/// A stream over the items of a vector, first item first.
pub struct VecSource<A> {
    items: Vec<A>,
    cursor: usize,
}

impl<A: Copy> VecSource<A> {
    pub fn new(items: Vec<A>) -> (source: Self)
        ensures
            source.wf(),
            source.pending() == items@,
    {
        let source = VecSource { items, cursor: 0 };
        assert(source.items@.subrange(0, source.items@.len() as int) =~= source.items@);
        source
    }
}

impl<A: Copy> Stream for VecSource<A> {
    type Item = A;

    closed spec fn wf(&self) -> bool {
        self.cursor <= self.items.len()
    }

    closed spec fn pending(&self) -> Seq<A> {
        self.items@.subrange(self.cursor as int, self.items.len() as int)
    }

    fn next(&mut self) -> (item: Option<A>) {
        if self.cursor < self.items.len() {
            let x = self.items[self.cursor];
            self.cursor = self.cursor + 1;
            assert(self.pending() =~= old(self).pending().drop_first());
            Some(x)
        } else {
            None
        }
    }
}

/// Pulls a stream until it is exhausted and returns everything it yielded.
pub fn collect<S: Stream>(stream: S) -> (items: Vec<S::Item>)
    requires
        stream.wf(),
    ensures
        items@ == stream.pending(),
{
    let mut stream = stream;
    let ghost all = stream.pending();
    let mut items: Vec<S::Item> = Vec::new();
    loop
        invariant_except_break
            stream.wf(),
            items@ + stream.pending() == all,
        ensures
            items@ == all,
        decreases stream.pending().len(),
    {
        let ghost before = stream.pending();
        match stream.next() {
            Some(x) => {
                items.push(x);
                assert(items@ + stream.pending() =~= all) by {
                    assert(before =~= seq![before[0]] + before.drop_first());
                }
            },
            None => {
                assert(items@ + before =~= items@);
                break ;
            },
        }
    }
    items
}

/// Pulls at most `limit` items off a stream and returns them.
pub fn collect_up_to<S: Stream>(stream: &mut S, limit: usize) -> (items: Vec<S::Item>)
    requires
        old(stream).wf(),
    ensures
        final(stream).wf(),
        items@ == old(stream).pending().take(taken(old(stream).pending().len(), limit as nat)),
        final(stream).pending() == old(stream).pending().skip(
            taken(old(stream).pending().len(), limit as nat),
        ),
{
    let ghost all = stream.pending();
    let mut items: Vec<S::Item> = Vec::new();
    while items.len() < limit
        invariant_except_break
            stream.wf(),
            items@.len() <= limit,
            items@.len() <= all.len(),
            items@ == all.take(items@.len() as int),
            stream.pending() == all.skip(items@.len() as int),
        ensures
            stream.wf(),
            items@ == all.take(taken(all.len(), limit as nat)),
            stream.pending() == all.skip(taken(all.len(), limit as nat)),
        decreases limit - items.len(),
    {
        let ghost n = items@.len() as int;
        match stream.next() {
            Some(x) => {
                items.push(x);
                assert(items@ =~= all.take(n + 1));
                assert(stream.pending() =~= all.skip(n + 1));
            },
            None => {
                assert(all.skip(n).len() == 0);
                break ;
            },
        }
    }
    items
}

/// How many items a bounded pull takes from `available` of them.
pub open spec fn taken(available: nat, limit: nat) -> int {
    if available <= limit {
        available as int
    } else {
        limit as int
    }
}

} // verus!
