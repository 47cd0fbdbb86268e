//! Stream adaptors that take a function of the caller.

use crate::flow::rest;
use crate::flow::Stream;
use vstd::prelude::*;

verus! {

/// Whether `f` may be called on the chunk `(x, y)` and can give one result
/// only.
pub open spec fn chunk_defined<A, B, F: Fn(A, A) -> B>(f: F, x: A, y: A) -> bool {
    &&& call_requires(f, (x, y))
    &&& forall|b1: B, b2: B|
        call_ensures(f, (x, y), b1) && call_ensures(f, (x, y), b2) ==> b1 == b2
}

/// What `f` makes of the chunk `(x, y)`.
pub open spec fn chunk_image<A, B, F: Fn(A, A) -> B>(f: F, x: A, y: A) -> B {
    choose|b: B| call_ensures(f, (x, y), b)
}

/// Whether `f` is defined on every chunk of two neighbours of a sequence.
pub open spec fn chunks_defined<A, B, F: Fn(A, A) -> B>(f: F, input: Seq<A>) -> bool {
    forall|i: int|
        0 <= i < input.len() / 2 ==> chunk_defined(f, #[trigger] input[2 * i], input[2 * i + 1])
}

/// A sequence cut into chunks of two neighbours, each chunk mapped through
/// `f`; an item left over at the end is dropped.
pub open spec fn chunks_mapped<A, B, F: Fn(A, A) -> B>(f: F, input: Seq<A>) -> Seq<B> {
    Seq::new(input.len() / 2, |i: int| chunk_image(f, input[2 * i], input[2 * i + 1]))
}

/// A stream that maps each chunk of two items of its upstream through a
/// function.
pub struct MapChunk2<It, F> {
    iter: It,
    f: F,
}

impl<A, B, It: Stream<Item = A>, F: Fn(A, A) -> B> MapChunk2<It, F> {
    /// What the upstream has yet to yield.
    pub closed spec fn upstream(&self) -> Seq<A> {
        self.iter.pending()
    }

    /// The function that the chunks are mapped through.
    pub closed spec fn function(&self) -> F {
        self.f
    }

    /// What is still to come is the images of the upstream's chunks, on
    /// each of which the function is defined.
    pub proof fn lemma_pending(&self)
        requires
            self.wf(),
        ensures
            chunks_defined(self.function(), self.upstream()),
            self.pending() == chunks_mapped(self.function(), self.upstream()),
    {
    }
}

impl<A, B, It: Stream<Item = A>, F: Fn(A, A) -> B> Stream for MapChunk2<It, F> {
    type Item = B;

    closed spec fn wf(&self) -> bool {
        &&& self.iter.wf()
        &&& chunks_defined(self.f, self.iter.pending())
    }

    closed spec fn pending(&self) -> Seq<B> {
        chunks_mapped(self.f, self.iter.pending())
    }

    fn next(&mut self) -> (item: Option<B>)
        ensures
            final(self).function() == old(self).function(),
            final(self).upstream() == rest(rest(old(self).upstream())),
            item matches Some(image) ==> call_ensures(
                old(self).function(),
                (old(self).upstream()[0], old(self).upstream()[1]),
                image,
            ),
    {
        let ghost upstream = self.iter.pending();
        let a = self.iter.next();
        let b = self.iter.next();
        match (a, b) {
            (Some(x), Some(y)) => {
                assert(upstream[2 * 0int] == x && upstream[2 * 0int + 1] == y);
                assert(self.iter.pending() =~= upstream.skip(2));
                let image = (self.f)(x, y);
                proof {
                    assert forall|i: int| 0 <= i < self.iter.pending().len() / 2 implies chunk_defined(
                        self.f,
                        #[trigger] self.iter.pending()[2 * i],
                        self.iter.pending()[2 * i + 1],
                    ) by {
                        assert(self.iter.pending()[2 * i] == upstream[2 * (i + 1)]);
                    }
                    assert(self.pending() =~= old(self).pending().drop_first());
                }
                Some(image)
            },
            _ => {
                assert(self.pending() =~= old(self).pending());
                None
            },
        }
    }
}

/// Maps the chunks of two items of a stream through `f`.
pub fn map_chunk_2<A, B, I: Stream<Item = A>, F: Fn(A, A) -> B>(iter: I, f: F) -> (mapped:
    MapChunk2<I, F>)
    requires
        iter.wf(),
        chunks_defined(f, iter.pending()),
    ensures
        mapped.wf(),
        mapped.pending() == chunks_mapped(f, iter.pending()),
        mapped.upstream() == iter.pending(),
        mapped.function() == f,
{
    MapChunk2 { iter, f }
}

} // verus!
