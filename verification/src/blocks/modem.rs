//! Modulation and demodulation: the phase accumulator of a frequency
//! modulator and the phase detector of its demodulator.
//!
//! The blocks keep the bookkeeping, which sample is combined with which,
//! and leave the trigonometry to two functions of the caller: one that turns
//! a phase into the sample to emit, one that measures the phase between two
//! samples.

use crate::blocks::RadioBlock;
use crate::flow::rest;
use crate::flow::Stream;
use crate::sample::Sample;
use vstd::prelude::*;

verus! {

/// Whether `f` may be called on `x` and can give one result only.
pub open spec fn defined_at<T, C, F: Fn(T) -> C>(f: F, x: T) -> bool {
    &&& call_requires(f, (x,))
    &&& forall|c1: C, c2: C| call_ensures(f, (x,), c1) && call_ensures(f, (x,), c2) ==> c1 == c2
}

/// What `f` makes of `x`.
pub open spec fn image_of<T, C, F: Fn(T) -> C>(f: F, x: T) -> C {
    choose|c: C| call_ensures(f, (x,), c)
}

/// Whether `f` may be called on `(x, y)` and can give one result only.
pub open spec fn defined_between<T, U, F: Fn(T, T) -> U>(f: F, x: T, y: T) -> bool {
    &&& call_requires(f, (x, y))
    &&& forall|u1: U, u2: U|
        call_ensures(f, (x, y), u1) && call_ensures(f, (x, y), u2) ==> u1 == u2
}

/// What `f` makes of `(x, y)`.
pub open spec fn image_between<T, U, F: Fn(T, T) -> U>(f: F, x: T, y: T) -> U {
    choose|u: U| call_ensures(f, (x, y), u)
}

/// The phase after the first `k` frequency samples have been added to a
/// starting phase, in order.
pub open spec fn phase_after<T: Sample>(start: T, input: Seq<T>, k: int) -> T
    decreases k,
{
    if k <= 0 {
        start
    } else {
        phase_after(start, input, k - 1).spec_plus(input[k - 1])
    }
}

/// What a frequency modulator makes of its input: for each frequency
/// sample, the emission at the phase reached before that sample is added.
pub open spec fn modulated<T: Sample, C, E: Fn(T) -> C>(emit: E, start: T, input: Seq<T>) -> Seq<
    C,
> {
    Seq::new(input.len(), |k: int| image_of(emit, phase_after(start, input, k)))
}

/// Adding the first sample to the start is the same as starting one
/// sample later.
pub proof fn lemma_phase_shift<T: Sample>(start: T, input: Seq<T>, k: int)
    requires
        0 <= k < input.len(),
    ensures
        phase_after(start.spec_plus(input[0]), input.drop_first(), k) == phase_after(
            start,
            input,
            k + 1,
        ),
    decreases k,
{
    if k > 0 {
        lemma_phase_shift(start, input, k - 1);
        assert(input.drop_first()[k - 1] == input[k]);
    } else {
        assert(phase_after(start, input, 0) == start);
        assert(phase_after(start, input, 1) == phase_after(start, input, 0).spec_plus(input[0]));
    }
}

/// Analog frequency modulation.
///
/// The input is in phase units per sample. For each input sample the block
/// emits `emit` of the current phase and then advances the phase by the
/// sample: the output runs one sample behind the phase.
pub struct FreqMod<E> {
    pub emit: E,
}

/// The running state of a `FreqMod` over its upstream.
pub struct FreqModIter<I, T, E> {
    iterator: I,
    phase: T,
    emit: E,
}

impl<T: Sample, C, I: Stream<Item = T>, E: Fn(T) -> C> FreqModIter<I, T, E> {
    /// The phase that the next emission is made at.
    pub closed spec fn phase(&self) -> T {
        self.phase
    }

    /// What the upstream has yet to yield.
    pub closed spec fn upstream(&self) -> Seq<T> {
        self.iterator.pending()
    }

    /// The function that turns a phase into an emission.
    pub closed spec fn emitter(&self) -> E {
        self.emit
    }

    /// What is still to come is the emissions at the phases that the
    /// upstream leads through, starting at the phase reached.
    pub proof fn lemma_pending(&self)
        requires
            self.wf(),
        ensures
            forall|p: T| defined_at(self.emitter(), p),
            self.pending() == modulated(self.emitter(), self.phase(), self.upstream()),
    {
    }
}

impl<T: Sample, C, I: Stream<Item = T>, E: Fn(T) -> C> Stream for FreqModIter<I, T, E> {
    type Item = C;

    closed spec fn wf(&self) -> bool {
        &&& self.iterator.wf()
        &&& forall|p: T| defined_at(self.emit, p)
    }

    closed spec fn pending(&self) -> Seq<C> {
        modulated(self.emit, self.phase, self.iterator.pending())
    }

    fn next(&mut self) -> (item: Option<C>)
        ensures
            final(self).emitter() == old(self).emitter(),
            final(self).upstream() == rest(old(self).upstream()),
            item matches Some(emitted) ==> call_ensures(
                old(self).emitter(),
                (old(self).phase(),),
                emitted,
            ),
            final(self).phase() == (if old(self).upstream().len() > 0 {
                old(self).phase().spec_plus(old(self).upstream()[0])
            } else {
                old(self).phase()
            }),
    {
        let ghost upstream = self.iterator.pending();
        let ghost start = self.phase;
        match self.iterator.next() {
            None => None,
            Some(frequency) => {
                assert(defined_at(self.emit, self.phase));
                let emitted = (self.emit)(self.phase);
                self.phase = self.phase.plus(frequency);
                proof {
                    assert forall|k: int| 0 <= k < upstream.len() - 1 implies phase_after(
                        self.phase,
                        upstream.drop_first(),
                        k,
                    ) == phase_after(start, upstream, k + 1) by {
                        lemma_phase_shift(start, upstream, k);
                    }
                    assert(self.pending() =~= old(self).pending().drop_first());
                }
                Some(emitted)
            },
        }
    }
}

impl<T: Sample, C, I: Stream<Item = T>, E: Fn(T) -> C + Copy> RadioBlock<I> for FreqMod<E> {
    type Output = FreqModIter<I, T, E>;

    open spec fn valid(&self) -> bool {
        forall|p: T| defined_at(self.emit, p)
    }

    open spec fn transfer(&self, input: Seq<T>) -> Seq<C> {
        modulated(self.emit, T::spec_zero(), input)
    }

    fn process(&self, input: I) -> (output: FreqModIter<I, T, E>)
        ensures
            output.phase() == T::spec_zero(),
            output.upstream() == input.pending(),
            output.emitter() == self.emit,
    {
        FreqModIter { iterator: input, phase: T::zero(), emit: self.emit }
    }
}

/// What a phase detector makes of its input: one measurement for each
/// sample and its predecessor, none for the first sample.
pub open spec fn differences<T, U, D: Fn(T, T) -> U>(detect: D, input: Seq<T>) -> Seq<U> {
    Seq::new(
        if input.len() == 0 {
            0
        } else {
            (input.len() - 1) as nat
        },
        |i: int| image_between(detect, input[i], input[i + 1]),
    )
}

/// Measures the phase between successive samples.
///
/// The first sample is consumed as a seed and gives no output; each later
/// sample gives `detect` of its predecessor and itself.
pub struct PhaseDiffs<D> {
    pub detect: D,
}

/// The running state of a `PhaseDiffs` over its upstream.
pub struct PhaseDiffsIter<I, T, D> {
    iterator: I,
    last: Option<T>,
    detect: D,
}

impl<T: Copy, U, I: Stream<Item = T>, D: Fn(T, T) -> U> PhaseDiffsIter<I, T, D> {
    /// The sample that the next one is measured against, once there is
    /// one.
    pub closed spec fn held(&self) -> Seq<T> {
        match self.last {
            Some(sample) => seq![sample],
            None => Seq::empty(),
        }
    }

    /// What the upstream has yet to yield.
    pub closed spec fn upstream(&self) -> Seq<T> {
        self.iterator.pending()
    }

    /// The function that measures the phase between two samples.
    pub closed spec fn detector(&self) -> D {
        self.detect
    }

    /// What is still to come is the measurements along the sample held
    /// and the upstream after it.
    pub proof fn lemma_pending(&self)
        requires
            self.wf(),
        ensures
            forall|x: T, y: T| defined_between(self.detector(), x, y),
            self.held().len() <= 1,
            self.pending() == differences(self.detector(), self.held() + self.upstream()),
    {
    }
}

impl<T: Copy, U, I: Stream<Item = T>, D: Fn(T, T) -> U> Stream for PhaseDiffsIter<I, T, D> {
    type Item = U;

    closed spec fn wf(&self) -> bool {
        &&& self.iterator.wf()
        &&& forall|x: T, y: T| defined_between(self.detect, x, y)
    }

    closed spec fn pending(&self) -> Seq<U> {
        differences(self.detect, self.held() + self.iterator.pending())
    }

    fn next(&mut self) -> (item: Option<U>)
        ensures
            final(self).detector() == old(self).detector(),
            item matches Some(measured) ==> call_ensures(
                old(self).detector(),
                ((old(self).held() + old(self).upstream())[0], (old(self).held() + old(self).upstream())[1]),
                measured,
            ),
            final(self).held() + final(self).upstream() == (if item is Some {
                (old(self).held() + old(self).upstream()).drop_first()
            } else {
                old(self).held() + old(self).upstream()
            }),
            final(self).upstream().len() == 0 || final(self).held().len() == 1,
            final(self).held().len() <= 1,
    {
        let ghost all = self.held() + self.iterator.pending();
        let previous = match self.last {
            Some(sample) => sample,
            None => {
                match self.iterator.next() {
                    None => {
                        return None;
                    },
                    Some(seed) => {
                        self.last = Some(seed);
                        assert(self.held() + self.iterator.pending() =~= all);
                        seed
                    },
                }
            },
        };
        match self.iterator.next() {
            None => {
                assert(self.held() + self.iterator.pending() =~= all);
                None
            },
            Some(current) => {
                assert(defined_between(self.detect, previous, current));
                let measured = (self.detect)(previous, current);
                self.last = Some(current);
                proof {
                    assert(self.held() + self.iterator.pending() =~= all.drop_first());
                    assert(self.pending() =~= old(self).pending().drop_first());
                }
                Some(measured)
            },
        }
    }
}

impl<T: Copy, U, I: Stream<Item = T>, D: Fn(T, T) -> U + Copy> RadioBlock<I> for PhaseDiffs<D> {
    type Output = PhaseDiffsIter<I, T, D>;

    open spec fn valid(&self) -> bool {
        forall|x: T, y: T| defined_between(self.detect, x, y)
    }

    open spec fn transfer(&self, input: Seq<T>) -> Seq<U> {
        differences(self.detect, input)
    }

    fn process(&self, input: I) -> (output: PhaseDiffsIter<I, T, D>)
        ensures
            output.held() == Seq::<T>::empty(),
            output.upstream() == input.pending(),
            output.detector() == self.detect,
    {
        let output = PhaseDiffsIter { iterator: input, last: None, detect: self.detect };
        assert(output.held() + input.pending() =~= input.pending());
        output
    }
}

} // verus!
