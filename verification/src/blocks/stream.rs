//! Blocks that rearrange and combine streams of almost any item type.

use crate::blocks::RadioBlock;
use crate::flow::rest;
use crate::flow::Stream;
use crate::sample::Sample;
use vstd::arithmetic::div_mod::lemma_basic_div;
use vstd::arithmetic::div_mod::lemma_div_plus_one;
use vstd::arithmetic::div_mod::lemma_fundamental_div_mod;
use vstd::prelude::*;

verus! {

/// Each item, twice: once for either rail.
pub open spec fn doubled<A>(input: Seq<A>) -> Seq<(A, A)> {
    Seq::new(input.len(), |i: int| (input[i], input[i]))
}

/// Splits a stream into two identical rails.
pub struct Split;

/// The running state of a `Split` over its upstream.
pub struct SplitIter<I> {
    iterator: I,
}

impl<A: Copy, I: Stream<Item = A>> SplitIter<I> {
    /// What the upstream has yet to yield.
    pub closed spec fn upstream(&self) -> Seq<A> {
        self.iterator.pending()
    }

    /// What is still to come is each upstream item, twice.
    pub proof fn lemma_pending(&self)
        ensures
            self.pending() == doubled(self.upstream()),
    {
    }
}

impl<A: Copy, I: Stream<Item = A>> Stream for SplitIter<I> {
    type Item = (A, A);

    closed spec fn wf(&self) -> bool {
        self.iterator.wf()
    }

    closed spec fn pending(&self) -> Seq<(A, A)> {
        doubled(self.iterator.pending())
    }

    fn next(&mut self) -> (item: Option<(A, A)>)
        ensures
            final(self).upstream() == rest(old(self).upstream()),
    {
        match self.iterator.next() {
            Some(a) => {
                assert(self.pending() =~= old(self).pending().drop_first());
                Some((a, a))
            },
            None => None,
        }
    }
}

impl<A: Copy, I: Stream<Item = A>> RadioBlock<I> for Split {
    type Output = SplitIter<I>;

    open spec fn valid(&self) -> bool {
        true
    }

    open spec fn transfer(&self, input: Seq<A>) -> Seq<(A, A)> {
        doubled(input)
    }

    fn process(&self, input: I) -> (output: SplitIter<I>)
        ensures
            output.upstream() == input.pending(),
    {
        SplitIter { iterator: input }
    }
}

/// The two rails of a sequence of pairs flattened into one sequence, first
/// component before second.
pub open spec fn interleaved<A>(input: Seq<(A, A)>) -> Seq<A> {
    Seq::new(
        2 * input.len(),
        |i: int|
            if i % 2 == 0 {
                input[i / 2].0
            } else {
                input[i / 2].1
            },
    )
}

/// Interleaves two rails into one stream.
pub struct Interleave;

/// The running state of an `Interleave` over its upstream.
pub struct InterleaveIter<A, I> {
    iterator: I,
    other: Option<A>,
}

impl<A, I: Stream<Item = (A, A)>> InterleaveIter<A, I> {
    /// The second component of the pair whose first component went out
    /// last, if it has not gone out itself yet.
    pub closed spec fn held(&self) -> Seq<A> {
        match self.other {
            Some(b) => seq![b],
            None => Seq::empty(),
        }
    }

    /// What the upstream has yet to yield.
    pub closed spec fn upstream(&self) -> Seq<(A, A)> {
        self.iterator.pending()
    }

    /// What is still to come is the component held back, if any, and then
    /// the upstream pairs flattened.
    pub proof fn lemma_pending(&self)
        ensures
            self.pending() == self.held() + interleaved(self.upstream()),
            self.held().len() <= 1,
    {
    }
}

impl<A, I: Stream<Item = (A, A)>> Stream for InterleaveIter<A, I> {
    type Item = A;

    closed spec fn wf(&self) -> bool {
        self.iterator.wf()
    }

    closed spec fn pending(&self) -> Seq<A> {
        self.held() + interleaved(self.iterator.pending())
    }

    fn next(&mut self) -> (item: Option<A>)
        ensures
            old(self).held().len() > 0 ==> final(self).held() == Seq::<A>::empty() && final(self).upstream() == old(self).upstream(),
            old(self).held().len() == 0 ==> final(self).upstream() == rest(old(self).upstream())
                && final(self).held().len() == (if old(self).upstream().len() > 0 {
                1nat
            } else {
                0nat
            }),
    {
        let ghost upstream = self.iterator.pending();
        match self.other.take() {
            Some(b) => {
                assert(self.pending() =~= old(self).pending().drop_first());
                Some(b)
            },
            None => {
                match self.iterator.next() {
                    Some((a, b)) => {
                        self.other = Some(b);
                        assert(self.pending() =~= old(self).pending().drop_first());
                        Some(a)
                    },
                    None => {
                        assert(self.pending() =~= old(self).pending());
                        None
                    },
                }
            },
        }
    }
}

impl<A, I: Stream<Item = (A, A)>> RadioBlock<I> for Interleave {
    type Output = InterleaveIter<A, I>;

    open spec fn valid(&self) -> bool {
        true
    }

    open spec fn transfer(&self, input: Seq<(A, A)>) -> Seq<A> {
        interleaved(input)
    }

    fn process(&self, input: I) -> (output: InterleaveIter<A, I>)
        ensures
            output.held() == Seq::<A>::empty(),
            output.upstream() == input.pending(),
    {
        let output = InterleaveIter { iterator: input, other: None };
        assert(output.pending() =~= interleaved(input.pending()));
        output
    }
}

/// A flat sequence cut into pairs of neighbours; an item left over at the
/// end is dropped.
pub open spec fn paired<A>(input: Seq<A>) -> Seq<(A, A)> {
    Seq::new(input.len() / 2, |i: int| (input[2 * i], input[2 * i + 1]))
}

/// Cuts one stream into pairs: the inverse of `Interleave`.
pub struct DeInterleave;

/// The running state of a `DeInterleave` over its upstream.
pub struct DeInterleaveIter<I> {
    iterator: I,
}

impl<A, I: Stream<Item = A>> DeInterleaveIter<I> {
    /// What the upstream has yet to yield.
    pub closed spec fn upstream(&self) -> Seq<A> {
        self.iterator.pending()
    }

    /// What is still to come is the upstream cut into pairs.
    pub proof fn lemma_pending(&self)
        ensures
            self.pending() == paired(self.upstream()),
    {
    }
}

impl<A, I: Stream<Item = A>> Stream for DeInterleaveIter<I> {
    type Item = (A, A);

    closed spec fn wf(&self) -> bool {
        self.iterator.wf()
    }

    closed spec fn pending(&self) -> Seq<(A, A)> {
        paired(self.iterator.pending())
    }

    fn next(&mut self) -> (item: Option<(A, A)>)
        ensures
            final(self).upstream() == rest(rest(old(self).upstream())),
    {
        let ghost upstream = self.iterator.pending();
        let a = self.iterator.next();
        let b = self.iterator.next();
        match (a, b) {
            (Some(x), Some(y)) => {
                assert(self.iterator.pending() =~= upstream.skip(2));
                assert(self.pending() =~= old(self).pending().drop_first());
                Some((x, y))
            },
            _ => {
                assert(self.pending() =~= old(self).pending());
                None
            },
        }
    }
}

impl<A, I: Stream<Item = A>> RadioBlock<I> for DeInterleave {
    type Output = DeInterleaveIter<I>;

    open spec fn valid(&self) -> bool {
        true
    }

    open spec fn transfer(&self, input: Seq<A>) -> Seq<(A, A)> {
        paired(input)
    }

    fn process(&self, input: I) -> (output: DeInterleaveIter<I>)
        ensures
            output.upstream() == input.pending(),
    {
        DeInterleaveIter { iterator: input }
    }
}

/// Cutting an interleaved sequence into pairs gives the pairs back.
pub proof fn lemma_paired_interleaved<A>(input: Seq<(A, A)>)
    ensures
        paired(interleaved(input)) == input,
{
    assert(paired(interleaved(input)) =~= input);
}

/// The products of the pairs of a sequence.
pub open spec fn products<T: Sample>(input: Seq<(T, T)>) -> Seq<T> {
    Seq::new(input.len(), |i: int| input[i].0.spec_times(input[i].1))
}

/// Multiplies two rails, item by item.
pub struct Multiply;

/// The running state of a `Multiply` over its upstream.
pub struct MultiplyIter<I> {
    iterator: I,
}

impl<T: Sample, I: Stream<Item = (T, T)>> MultiplyIter<I> {
    /// What the upstream has yet to yield.
    pub closed spec fn upstream(&self) -> Seq<(T, T)> {
        self.iterator.pending()
    }

    /// What is still to come is the products of the upstream pairs.
    pub proof fn lemma_pending(&self)
        ensures
            self.pending() == products(self.upstream()),
    {
    }
}

impl<T: Sample, I: Stream<Item = (T, T)>> Stream for MultiplyIter<I> {
    type Item = T;

    closed spec fn wf(&self) -> bool {
        self.iterator.wf()
    }

    closed spec fn pending(&self) -> Seq<T> {
        products(self.iterator.pending())
    }

    fn next(&mut self) -> (item: Option<T>)
        ensures
            final(self).upstream() == rest(old(self).upstream()),
    {
        match self.iterator.next() {
            Some((a, b)) => {
                assert(self.pending() =~= old(self).pending().drop_first());
                Some(a.times(b))
            },
            None => None,
        }
    }
}

impl<T: Sample, I: Stream<Item = (T, T)>> RadioBlock<I> for Multiply {
    type Output = MultiplyIter<I>;

    open spec fn valid(&self) -> bool {
        true
    }

    open spec fn transfer(&self, input: Seq<(T, T)>) -> Seq<T> {
        products(input)
    }

    fn process(&self, input: I) -> (output: MultiplyIter<I>)
        ensures
            output.upstream() == input.pending(),
    {
        MultiplyIter { iterator: input }
    }
}

/// How many items are kept of `len` when every `stride`-th is kept,
/// starting with the first.
pub open spec fn strided_len(len: nat, stride: int) -> nat {
    if len == 0 || stride <= 0 {
        0
    } else {
        ((len - 1) / stride + 1) as nat
    }
}

/// Every `stride`-th item of a sequence, starting with the first.
pub open spec fn strided<A>(input: Seq<A>, stride: int) -> Seq<A> {
    Seq::new(strided_len(input.len(), stride), |i: int| input[i * stride])
}

/// Keeping every `stride`-th item keeps the first item and then every
/// `stride`-th of what follows `stride` items later.
pub proof fn lemma_strided_step<A>(input: Seq<A>, stride: int)
    requires
        stride >= 1,
        input.len() >= 1,
    ensures
        strided(input, stride).len() >= 1,
        strided(input, stride)[0] == input[0],
        strided(input, stride).drop_first() == strided(after_stride(input, stride), stride),
{
    let len = input.len() as int;
    let jump = if stride <= len {
        stride
    } else {
        len
    };
    let here = strided(input, stride);
    let there = strided(input.skip(jump), stride);
    if len <= stride {
        lemma_basic_div(len - 1, stride);
    } else {
        lemma_div_plus_one(len - 1 - stride, stride);
    }
    assert(0 * stride == 0);
    assert(there.len() == here.len() - 1);
    assert forall|i: int| 0 <= i < there.len() implies there[i] == here.drop_first()[i] by {
        let x: int = len - jump - 1;
        let q: int = x / stride;
        assert((i + 1) * stride == i * stride + stride) by (nonlinear_arith);
        assert(i * stride >= 0) by (nonlinear_arith)
            requires
                i >= 0,
                stride >= 1,
        ;
        lemma_fundamental_div_mod(x, stride);
        assert(i * stride <= stride * q) by (nonlinear_arith)
            requires
                0 <= i <= q,
                stride >= 1,
        ;
        assert(input.skip(jump)[i * stride] == input[jump + i * stride]);
    }
    assert(there =~= here.drop_first());
}

/// Takes every `stride`-th item: after an item has gone out, the
/// `stride - 1` items that follow are skipped.
pub struct Stride {
    pub stride: usize,
}

/// The running state of a `Stride` over its upstream.
pub struct Strider<I> {
    iterator: I,
    stride: usize,
}

impl<I: Stream> Strider<I> {
    /// The distance between two items that are kept.
    pub closed spec fn stride(&self) -> int {
        self.stride as int
    }

    /// What the upstream has yet to yield.
    pub closed spec fn upstream(&self) -> Seq<I::Item> {
        self.iterator.pending()
    }

    /// What is still to come is every `stride`-th item of the upstream,
    /// starting with its next one.
    pub proof fn lemma_pending(&self)
        requires
            self.wf(),
        ensures
            self.stride() >= 1,
            self.pending() == strided(self.upstream(), self.stride()),
    {
    }
}

/// What is left of `input` once an item has gone out and the skip after it
/// is done: `stride` items less, or nothing where fewer were left.
pub open spec fn after_stride<A>(input: Seq<A>, stride: int) -> Seq<A> {
    input.skip(
        if stride <= input.len() {
            stride
        } else {
            input.len() as int
        },
    )
}

impl<A, I: Stream<Item = A>> Stream for Strider<I> {
    type Item = A;

    closed spec fn wf(&self) -> bool {
        &&& self.iterator.wf()
        &&& self.stride >= 1
    }

    closed spec fn pending(&self) -> Seq<A> {
        strided(self.iterator.pending(), self.stride as int)
    }

    fn next(&mut self) -> (item: Option<A>)
        ensures
            final(self).stride() == old(self).stride(),
            final(self).upstream() == after_stride(old(self).upstream(), old(self).stride()),
    {
        let ghost upstream = self.iterator.pending();
        match self.iterator.next() {
            None => {
                assert(upstream.skip(0) =~= upstream);
                None
            },
            Some(x) => {
                let mut skipped: usize = 1;
                while skipped < self.stride
                    invariant_except_break
                        1 <= skipped <= self.stride,
                        skipped <= upstream.len(),
                        self.stride == old(self).stride,
                        self.iterator.wf(),
                        self.iterator.pending() == upstream.skip(skipped as int),
                    ensures
                        self.stride == old(self).stride,
                        self.iterator.wf(),
                        self.iterator.pending() == upstream.skip(
                            if self.stride <= upstream.len() {
                                self.stride as int
                            } else {
                                upstream.len() as int
                            },
                        ),
                    decreases self.stride - skipped,
                {
                    match self.iterator.next() {
                        Some(_) => {
                            assert(upstream.skip(skipped as int).drop_first() =~= upstream.skip(
                                skipped + 1,
                            ));
                        },
                        None => {
                            break ;
                        },
                    }
                    skipped = skipped + 1;
                }
                proof {
                    lemma_strided_step(upstream, self.stride as int);
                }
                Some(x)
            },
        }
    }
}

impl<A, I: Stream<Item = A>> RadioBlock<I> for Stride {
    type Output = Strider<I>;

    open spec fn valid(&self) -> bool {
        self.stride >= 1
    }

    open spec fn transfer(&self, input: Seq<A>) -> Seq<A> {
        strided(input, self.stride as int)
    }

    fn process(&self, input: I) -> (output: Strider<I>)
        ensures
            output.stride() == self.stride,
            output.upstream() == input.pending(),
    {
        Strider { iterator: input, stride: self.stride }
    }
}

} // verus!
