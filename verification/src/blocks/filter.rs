//! Digital filtering: the FIR filter and the polyphase rational resampler.

use crate::blocks::RadioBlock;
use crate::flow::rest;
use crate::flow::Stream;
use crate::sample::lemma_wrap64_fits;
use crate::sample::lemma_wrap64_plus;
use crate::sample::wrap64;
use crate::sample::ExactSample;
use crate::sample::Sample;
use std::collections::VecDeque;
use vstd::arithmetic::div_mod::lemma_basic_div;
use vstd::arithmetic::div_mod::lemma_div_is_ordered;
use vstd::arithmetic::div_mod::lemma_div_plus_one;
use vstd::arithmetic::div_mod::lemma_fundamental_div_mod;
use vstd::arithmetic::div_mod::lemma_fundamental_div_mod_converse;
use vstd::prelude::*;
use vstd::slice::slice_to_vec;

verus! {

/// The part of an FIR output that taps `k` and later contribute: the sum,
/// nested to the right, of `input[n - j] * taps[j]` for `j` from `k` on.
/// Samples before the start of the input count as absent, not as zero
/// terms.
pub open spec fn fir_tail<T: Sample>(taps: Seq<T>, input: Seq<T>, n: int, k: int) -> T
    decreases taps.len() - k,
{
    if k < 0 || k >= taps.len() || n < k {
        T::spec_zero()
    } else {
        input[n - k].spec_times(taps[k]).spec_plus(fir_tail(taps, input, n, k + 1))
    }
}

/// Output `n` of an FIR filter: the taps convolved with the input up to
/// sample `n`, tap 0 weighting the newest sample.
pub open spec fn fir_output<T: Sample>(taps: Seq<T>, input: Seq<T>, n: int) -> T {
    fir_tail(taps, input, n, 0)
}

/// Everything an FIR filter makes of an input: one output per sample.
pub open spec fn fir_response<T: Sample>(taps: Seq<T>, input: Seq<T>) -> Seq<T> {
    Seq::new(input.len(), |n: int| fir_output(taps, input, n))
}

/// An FIR output depends only on the samples up to its own index.
pub proof fn lemma_fir_tail_prefix<T: Sample>(taps: Seq<T>, a: Seq<T>, b: Seq<T>, n: int, k: int)
    requires
        0 <= k,
        n - k < a.len(),
        n - k < b.len(),
        forall|i: int| 0 <= i <= n - k ==> a[i] == b[i],
    ensures
        fir_tail(taps, a, n, k) == fir_tail(taps, b, n, k),
    decreases taps.len() - k,
{
    if k < taps.len() && n >= k {
        lemma_fir_tail_prefix(taps, a, b, n, k + 1);
    }
}

/// Applies an FIR filter.
///
/// The first tap multiplies the most recent sample and the last tap the
/// earliest sample of the history.
pub struct FilterFIR<'b, T> {
    pub taps: &'b [T],
}

/// The running state of an FIR filter over its upstream.
pub struct FilterFIRiter<T, I> {
    filter: Vec<T>,
    // one slot longer than the filter; the last slot stays zero
    buff: Vec<T>,
    iterator: I,
    seen: Ghost<Seq<T>>,
}

impl<T: Sample, I: Stream<Item = T>> FilterFIRiter<T, I> {
    /// The taps the filter runs with.
    pub closed spec fn taps(&self) -> Seq<T> {
        self.filter@
    }

    /// The samples consumed so far, oldest first.
    pub closed spec fn history(&self) -> Seq<T> {
        self.seen@
    }

    /// What the upstream has yet to yield.
    pub closed spec fn upstream(&self) -> Seq<T> {
        self.iterator.pending()
    }

    /// What the filter will yield: the FIR outputs that are still due for
    /// the whole input, the part consumed and the part to come.
    pub proof fn lemma_pending(&self)
        requires
            self.wf(),
        ensures
            self.pending() == fir_response(self.taps(), self.history() + self.upstream()).skip(
                self.history().len() as int,
            ),
    {
        assert(self.pending() =~= fir_response(self.taps(), self.history() + self.upstream()).skip(
            self.history().len() as int,
        ));
    }
}

impl<T: Sample, I: Stream<Item = T>> Stream for FilterFIRiter<T, I> {
    type Item = T;

    closed spec fn wf(&self) -> bool {
        &&& self.iterator.wf()
        &&& self.buff.len() == self.filter.len() + 1
        &&& forall|i: int|
            0 <= i <= self.filter.len() ==> #[trigger] self.buff[i] == fir_tail(
                self.filter@,
                self.seen@,
                self.seen@.len() - 1 + i,
                i,
            )
    }

    closed spec fn pending(&self) -> Seq<T> {
        let all = self.seen@ + self.iterator.pending();
        Seq::new(
            self.iterator.pending().len(),
            |j: int| fir_output(self.filter@, all, self.seen@.len() + j),
        )
    }

    fn next(&mut self) -> (item: Option<T>)
        ensures
            final(self).taps() == old(self).taps(),
            final(self).upstream() == rest(old(self).upstream()),
            final(self).history() + final(self).upstream() == old(self).history() + old(self).upstream(),
    {
        let ghost before = self.seen@;
        let ghost upcoming = self.iterator.pending();
        let ghost all = before + upcoming;
        match self.iterator.next() {
            None => None,
            Some(x) => {
                let ghost after = before.push(x);
                let ghost n = before.len() as int;
                assert(upcoming[0] == x);
                assert(after + self.iterator.pending() =~= all);
                let taps_len = self.filter.len();
                let mut i: usize = 0;
                while i < taps_len
                    invariant
                        i <= taps_len,
                        taps_len == self.filter.len(),
                        self.filter == old(self).filter,
                        self.buff.len() == taps_len + 1,
                        self.iterator.wf(),
                        self.iterator.pending() == rest(upcoming),
                        self.seen@ == before,
                        after == before.push(x),
                        n == before.len(),
                        forall|j: int|
                            0 <= j < i ==> #[trigger] self.buff[j] == fir_tail(
                                self.filter@,
                                after,
                                n + j,
                                j,
                            ),
                        forall|j: int|
                            i <= j <= taps_len ==> #[trigger] self.buff[j] == fir_tail(
                                self.filter@,
                                before,
                                n - 1 + j,
                                j,
                            ),
                    decreases taps_len - i,
                {
                    let value = x.times(self.filter[i]).plus(self.buff[i + 1]);
                    proof {
                        lemma_fir_tail_prefix(
                            self.filter@,
                            before,
                            after,
                            n + i,
                            i as int + 1,
                        );
                    }
                    self.buff.set(i, value);
                    i = i + 1;
                }
                self.seen = Ghost(after);
                proof {
                    assert(self.buff[taps_len as int] == fir_tail(
                        self.filter@,
                        after,
                        n + taps_len,
                        taps_len as int,
                    ));
                    lemma_fir_tail_prefix(self.filter@, after, all, n, 0);
                    assert(self.pending() =~= old(self).pending().drop_first());
                }
                Some(self.buff[0])
            },
        }
    }
}

impl<'b, T: Sample, I: Stream<Item = T>> RadioBlock<I> for FilterFIR<'b, T> {
    type Output = FilterFIRiter<T, I>;

    open spec fn valid(&self) -> bool {
        self.taps@.len() < usize::MAX
    }

    open spec fn transfer(&self, input: Seq<T>) -> Seq<T> {
        fir_response(self.taps@, input)
    }

    fn process(&self, input: I) -> (output: FilterFIRiter<T, I>)
        ensures
            output.taps() == self.taps@,
            output.history() == Seq::<T>::empty(),
            output.upstream() == input.pending(),
    {
        let filter = slice_to_vec(self.taps);
        let mut buff: Vec<T> = Vec::new();
        let slots = filter.len() + 1;
        while buff.len() < slots
            invariant
                buff.len() <= slots,
                forall|i: int| 0 <= i < buff.len() ==> #[trigger] buff[i] == T::spec_zero(),
            decreases slots - buff.len(),
        {
            buff.push(T::zero());
        }
        let output = FilterFIRiter { filter, buff, iterator: input, seen: Ghost(Seq::empty()) };
        assert(output.seen@ + input.pending() =~= input.pending());
        assert(output.pending() =~= fir_response(self.taps@, input.pending()));
        output
    }
}

/// How many taps sub-filter `phase` of a bank of `up` sub-filters takes out
/// of `taps_len` taps.
pub open spec fn subfilter_len(taps_len: nat, up: int, phase: int) -> nat {
    if 0 <= phase < taps_len && up > 0 {
        ((taps_len - phase - 1) / up + 1) as nat
    } else {
        0
    }
}

/// Sub-filter `phase` of the polyphase bank: every `up`-th tap, starting at
/// tap `phase`.
pub open spec fn subfilter<T>(taps: Seq<T>, up: int, phase: int) -> Seq<T> {
    Seq::new(subfilter_len(taps.len(), up, phase), |k: int| taps[phase + k * up])
}

/// Every tap stands in exactly one place of the bank: tap `j` is entry
/// `j / up` of sub-filter `j % up`.
pub proof fn lemma_tap_in_bank<T>(taps: Seq<T>, up: int, j: int)
    requires
        up >= 1,
        0 <= j < taps.len(),
    ensures
        0 <= j % up < up,
        0 <= j / up < subfilter(taps, up, j % up).len(),
        subfilter(taps, up, j % up)[j / up] == taps[j],
{
    let phase = j % up;
    let k = j / up;
    lemma_fundamental_div_mod(j, up);
    assert(up * k == k * up) by (nonlinear_arith);
    assert(k >= 0) by (nonlinear_arith)
        requires
            up >= 1,
            j == k * up + phase,
            0 <= phase < up,
            j >= 0,
    ;
    lemma_fundamental_div_mod_converse(j - phase, up, k, 0);
    lemma_div_is_ordered(j - phase, taps.len() - phase - 1, up);
}

/// The number of taps that the first `phases` sub-filters of a bank hold
/// together.
pub open spec fn bank_size(taps_len: nat, up: int, phases: int) -> nat
    decreases phases,
{
    if phases <= 0 {
        0
    } else {
        bank_size(taps_len, up, phases - 1) + subfilter_len(taps_len, up, phases - 1)
    }
}

/// One tap more lengthens one sub-filter by one: the one whose turn it is.
proof fn lemma_subfilter_grows(taps_len: nat, up: int, phase: int)
    requires
        up >= 1,
        0 <= phase < up,
    ensures
        subfilter_len(taps_len + 1, up, phase) == subfilter_len(taps_len, up, phase) + (if phase
            == taps_len as int % up {
            1nat
        } else {
            0nat
        }),
{
    let len = taps_len as int;
    if phase > len {
        lemma_fundamental_div_mod_converse(len, up, 0, len);
    } else if phase == len {
        lemma_fundamental_div_mod_converse(len, up, 0, len);
        lemma_basic_div(0, up);
    } else {
        let x: int = len - phase - 1;
        let q: int = (x + 1) / up;
        let r: int = (x + 1) % up;
        lemma_fundamental_div_mod(x + 1, up);
        assert(up * q == q * up) by (nonlinear_arith);
        if r == 0 {
            assert(x == (q - 1) * up + (up - 1)) by (nonlinear_arith)
                requires
                    x + 1 == q * up,
            ;
            lemma_fundamental_div_mod_converse(x, up, q - 1, up - 1);
            lemma_fundamental_div_mod_converse(len, up, q, phase);
        } else {
            lemma_fundamental_div_mod_converse(x, up, q, r - 1);
            if phase == len % up {
                let w: int = len / up;
                lemma_fundamental_div_mod(len, up);
                assert(up * w == w * up) by (nonlinear_arith);
                lemma_fundamental_div_mod_converse(x + 1, up, w, 0);
            }
        }
    }
}

/// One tap more lengthens the first `phases` sub-filters by one tap in
/// all if the tap's sub-filter is among them.
proof fn lemma_bank_grows(taps_len: nat, up: int, phases: int)
    requires
        up >= 1,
        0 <= phases <= up,
    ensures
        bank_size(taps_len + 1, up, phases) == bank_size(taps_len, up, phases) + (if taps_len as int
            % up < phases {
            1nat
        } else {
            0nat
        }),
    decreases phases,
{
    if phases > 0 {
        lemma_bank_grows(taps_len, up, phases - 1);
        lemma_subfilter_grows(taps_len, up, phases - 1);
    }
}

/// The sub-filters of a bank share the taps out among them: their lengths
/// sum to the number of taps.
pub proof fn lemma_bank_holds_all_taps(taps_len: nat, up: int)
    requires
        up >= 1,
    ensures
        bank_size(taps_len, up, up) == taps_len,
    decreases taps_len,
{
    if taps_len == 0 {
        lemma_empty_bank(up, up);
    } else {
        let fewer = (taps_len - 1) as nat;
        lemma_bank_holds_all_taps(fewer, up);
        lemma_bank_grows(fewer, up, up);
        assert(0 <= fewer as int % up < up) by (nonlinear_arith)
            requires
                up >= 1,
        ;
    }
}

/// A bank cut from no taps holds none.
proof fn lemma_empty_bank(up: int, phases: int)
    requires
        phases >= 0,
    ensures
        bank_size(0, up, phases) == 0,
    decreases phases,
{
    if phases > 0 {
        lemma_empty_bank(up, phases - 1);
    }
}

/// The sample `k` steps before sample `newest`; zero where the input has
/// not started yet.
pub open spec fn window_at<T: Sample>(input: Seq<T>, newest: int, k: int) -> T {
    if 0 <= newest - k < input.len() {
        input[newest - k]
    } else {
        T::spec_zero()
    }
}

/// The first `k` terms of the dot product of a filter with the history that
/// ends at sample `newest`, summed from zero in filter order.
pub open spec fn correlate<T: Sample>(filter: Seq<T>, input: Seq<T>, newest: int, k: int) -> T
    decreases k,
{
    if k <= 0 {
        T::spec_zero()
    } else {
        correlate(filter, input, newest, k - 1).spec_plus(
            filter[k - 1].spec_times(window_at(input, newest, k - 1)),
        )
    }
}

/// The resampler's output at a position of the upsampled time axis: input
/// sample `position / up` is the newest one in the history, and sub-filter
/// `position % up` is the one applied.
pub open spec fn polyphase_output<T: Sample>(
    taps: Seq<T>,
    up: int,
    input: Seq<T>,
    position: int,
) -> T {
    let filter = subfilter(taps, up, position % up);
    correlate(filter, input, position / up, filter.len() as int)
}

/// How many outputs are left from `position` on: one for each step of
/// `down` that still lands on a sample of the input.
pub open spec fn resample_count(input_len: nat, up: int, down: int, position: int) -> nat {
    if position >= input_len * up || down <= 0 {
        0
    } else {
        ((input_len * up - position - 1) / down + 1) as nat
    }
}

/// The outputs of the resampler from `position` on.
pub open spec fn resample_from<T: Sample>(
    taps: Seq<T>,
    up: int,
    down: int,
    input: Seq<T>,
    position: int,
) -> Seq<T> {
    Seq::new(
        resample_count(input.len(), up, down, position),
        |j: int| polyphase_output(taps, up, input, position + j * down),
    )
}

/// Everything the resampler makes of an input: output `j` stands at
/// position `j * down` of the input upsampled by `up`.
pub open spec fn resample<T: Sample>(taps: Seq<T>, up: int, down: int, input: Seq<T>) -> Seq<T> {
    resample_from(taps, up, down, input, 0)
}

/// Emitting one output leaves one output fewer, `down` positions on.
pub proof fn lemma_resample_step<T: Sample>(
    taps: Seq<T>,
    up: int,
    down: int,
    input: Seq<T>,
    position: int,
)
    requires
        up >= 1,
        down >= 1,
        0 <= position < input.len() * up,
    ensures
        resample_from(taps, up, down, input, position).len() >= 1,
        resample_from(taps, up, down, input, position)[0] == polyphase_output(
            taps,
            up,
            input,
            position,
        ),
        resample_from(taps, up, down, input, position + down) == resample_from(
            taps,
            up,
            down,
            input,
            position,
        ).drop_first(),
{
    let n = input.len();
    let a: int = n * up - position - 1;
    if position + down >= n * up {
        lemma_basic_div(a, down);
    } else {
        lemma_div_plus_one(a - down, down);
    }
    let here = resample_from(taps, up, down, input, position);
    let there = resample_from(taps, up, down, input, position + down);
    assert(position + 0 * down == position);
    assert(there.len() == here.len() - 1);
    assert forall|j: int| 0 <= j < there.len() implies there[j] == here.drop_first()[j] by {
        assert((position + down) + j * down == position + (j + 1) * down) by (nonlinear_arith);
    }
    assert(there =~= here.drop_first());
}

/// The exact sum of `taps[j] * input[n - j]` over the taps from `k` on that
/// reach a sample of the input.
pub open spec fn convolution_sum(taps: Seq<i64>, input: Seq<i64>, n: int, k: int) -> int
    decreases taps.len() - k,
{
    if k < 0 || k >= taps.len() || n < k {
        0
    } else {
        taps[k] * input[n - k] + convolution_sum(taps, input, n, k + 1)
    }
}

/// On 64-bit integers an FIR output is the convolution of taps and input,
/// reduced once to 64 bits: `output[n] = sum of taps[k] * input[n - k]`.
pub proof fn lemma_fir_is_convolution(taps: Seq<i64>, input: Seq<i64>, n: int, k: int)
    requires
        0 <= k,
        0 <= n < input.len(),
    ensures
        fir_tail(taps, input, n, k) == wrap64(convolution_sum(taps, input, n, k)),
    decreases taps.len() - k,
{
    if k < taps.len() && n >= k {
        lemma_fir_is_convolution(taps, input, n, k + 1);
        let tap: int = taps[k] as int;
        let sample: int = input[n - k] as int;
        let product: int = sample * tap;
        let later: int = convolution_sum(taps, input, n, k + 1);
        assert(tap * sample == sample * tap) by (nonlinear_arith);
        lemma_wrap64_plus(product, later);
        lemma_wrap64_fits(wrap64(product) as int);
        lemma_wrap64_fits(wrap64(later) as int);
    } else {
        lemma_wrap64_fits(0);
    }
}

/// Summing a correlation from the front and the rest of the convolution
/// from the back meet at the same total, whatever the split point.
proof fn lemma_correlate_meets_fir<T: ExactSample>(taps: Seq<T>, input: Seq<T>, n: int, k: int)
    requires
        0 <= k <= taps.len(),
        0 <= n < input.len(),
    ensures
        correlate(taps, input, n, k).spec_plus(fir_tail(taps, input, n, k)) == fir_output(
            taps,
            input,
            n,
        ),
    decreases k,
{
    if k == 0 {
        T::zero_is_neutral(fir_tail(taps, input, n, 0));
    } else {
        let j = k - 1;
        lemma_correlate_meets_fir(taps, input, n, j);
        let front = correlate(taps, input, n, j);
        let term = taps[j].spec_times(window_at(input, n, j));
        let back = fir_tail(taps, input, n, k);
        T::plus_associates(front, term, back);
        if j <= n {
            T::times_commutes(taps[j], input[n - j]);
        } else {
            T::times_zero(taps[j]);
            T::zero_is_neutral(back);
        }
    }
}

/// With `up = 1` and `down = 1` the resampler is the FIR filter: on every
/// input the two produce the same outputs, element for element.
pub proof fn lemma_unit_resampler_is_fir<T: ExactSample>(taps: Seq<T>, input: Seq<T>)
    requires
        taps.len() >= 1,
    ensures
        resample(taps, 1, 1, input) == fir_response(taps, input),
{
    let resampled = resample(taps, 1, 1, input);
    let filtered = fir_response(taps, input);
    assert(subfilter(taps, 1, 0) =~= taps);
    assert(resampled.len() == filtered.len());
    assert forall|j: int| 0 <= j < resampled.len() implies resampled[j] == filtered[j] by {
        lemma_correlate_meets_fir(taps, input, j, taps.len() as int);
        T::zero_is_neutral(correlate(taps, input, j, taps.len() as int));
    }
    assert(resampled =~= filtered);
}

/// The input upsampled by `up`: each sample followed by `up - 1` zeros.
pub open spec fn upsampled<T: Sample>(input: Seq<T>, up: int) -> Seq<T> {
    Seq::new(
        (input.len() * up) as nat,
        |i: int|
            if i % up == 0 {
                input[i / up]
            } else {
                T::spec_zero()
            },
    )
}

/// In the FIR sum over the upsampled input only every `up`-th term is not
/// zero, and those terms are the FIR sum of one sub-filter over the input
/// itself: from tap `k` on, the sum is the sub-filter's sum from its entry
/// `m` on, where entry `m` is the first one that stands at tap `k` or
/// later.
proof fn lemma_stuffed_tail<T: ExactSample>(
    taps: Seq<T>,
    up: int,
    input: Seq<T>,
    position: int,
    k: int,
    m: int,
)
    requires
        up >= 1,
        0 <= position < input.len() * up,
        0 <= k,
        0 <= m,
        k <= position % up + m * up,
        m == 0 || position % up + (m - 1) * up < k,
    ensures
        fir_tail(taps, upsampled(input, up), position, k) == fir_tail(
            subfilter(taps, up, position % up),
            input,
            position / up,
            m,
        ),
    decreases taps.len() - k,
{
    let phase = position % up;
    let newest = position / up;
    let at_m = phase + m * up;
    let stuffed = upsampled(input, up);
    let filter = subfilter(taps, up, phase);
    lemma_fundamental_div_mod(position, up);
    assert(up * newest == newest * up) by (nonlinear_arith);
    assert(m * up == (m - 1) * up + up) by (nonlinear_arith);
    assert((m + 1) * up == m * up + up) by (nonlinear_arith);
    assert(m * up >= 0) by (nonlinear_arith)
        requires
            m >= 0,
            up >= 1,
    ;
    if k >= taps.len() {
        // no tap is left, and no entry of the sub-filter either
        if phase < taps.len() {
            let x: int = taps.len() - phase - 1;
            lemma_fundamental_div_mod(x, up);
            assert(x / up < m) by (nonlinear_arith)
                requires
                    x == up * (x / up) + x % up,
                    0 <= x % up,
                    x < m * up,
                    up >= 1,
            ;
        }
    } else if position < k {
        // the input has not started yet
        assert(newest < m) by (nonlinear_arith)
            requires
                newest * up + phase < phase + m * up,
                up >= 1,
        ;
    } else if k == at_m {
        // a term that stands on a sample of the input
        let back: int = newest - m;
        assert(newest >= m) by (nonlinear_arith)
            requires
                phase + m * up <= newest * up + phase,
                up >= 1,
        ;
        assert(position - k == back * up) by (nonlinear_arith)
            requires
                position == newest * up + phase,
                k == phase + m * up,
                back == newest - m,
        ;
        lemma_fundamental_div_mod_converse(position - k, up, back, 0);
        lemma_fundamental_div_mod_converse(k, up, m, phase);
        lemma_tap_in_bank(taps, up, k);
        assert(newest < input.len()) by (nonlinear_arith)
            requires
                newest * up + phase < input.len() * up,
                0 <= phase,
                up >= 1,
        ;
        assert(stuffed[position - k] == input[back]);
        lemma_stuffed_tail(taps, up, input, position, k + 1, m + 1);
    } else {
        // a term that stands on a stuffed zero
        let gap: int = at_m - k;
        let back: int = newest - m;
        assert(position - k == back * up + gap) by (nonlinear_arith)
            requires
                position == newest * up + phase,
                gap == phase + m * up - k,
                back == newest - m,
        ;
        lemma_fundamental_div_mod_converse(position - k, up, back, gap);
        assert(stuffed[position - k] == T::spec_zero());
        T::times_commutes(T::spec_zero(), taps[k]);
        T::times_zero(taps[k]);
        T::zero_is_neutral(fir_tail(taps, stuffed, position, k + 1));
        lemma_stuffed_tail(taps, up, input, position, k + 1, m);
    }
}

/// The resampler upsamples, filters and downsamples: its output `j` is
/// output `j * down` of the FIR filter with the same taps over the input
/// upsampled by `up`.
pub proof fn lemma_resample_is_filtered_upsampling<T: ExactSample>(
    taps: Seq<T>,
    up: int,
    down: int,
    input: Seq<T>,
    j: int,
)
    requires
        up >= 1,
        down >= 1,
        0 <= j < resample(taps, up, down, input).len(),
    ensures
        0 <= j * down < upsampled(input, up).len(),
        resample(taps, up, down, input)[j] == fir_response(taps, upsampled(input, up))[j * down],
{
    let position = j * down;
    let reach: int = input.len() * up - 1;
    lemma_fundamental_div_mod(reach, down);
    assert(0 <= position <= reach) by (nonlinear_arith)
        requires
            position == j * down,
            0 <= j <= reach / down,
            reach == down * (reach / down) + reach % down,
            0 <= reach % down,
            down >= 1,
    ;
    let phase = position % up;
    let newest = position / up;
    let filter = subfilter(taps, up, phase);
    lemma_fundamental_div_mod(position, up);
    assert(0 <= newest < input.len()) by (nonlinear_arith)
        requires
            position == up * newest + phase,
            0 <= phase < up,
            0 <= position < input.len() * up,
            up >= 1,
    ;
    lemma_correlate_meets_fir(filter, input, newest, filter.len() as int);
    T::zero_is_neutral(correlate(filter, input, newest, filter.len() as int));
    assert(0 * up == 0);
    lemma_stuffed_tail(taps, up, input, position, 0, 0);
}

/// Polyphase rational resampler.
///
/// Resamples the incoming samples by the rational factor `up / down`: it
/// upsamples, applies the FIR filter given by `taps`, then downsamples.
/// The taps are in the order of `FilterFIR`: tap 0 multiplies the most
/// recent sample.
pub struct RationalResampler<'b, T> {
    pub up: usize,
    pub down: usize,
    pub taps: &'b [T],
}

/// The running state of a resampler over its upstream.
pub struct RationalResamplerIter<T, I> {
    up: usize,
    down: usize,
    filter_length: usize,
    filters: Vec<Vec<T>>,
    filter_idx: usize,
    // newest sample at the front
    sample_history: VecDeque<T>,
    iterator: I,
    taps: Ghost<Seq<T>>,
    seen: Ghost<Seq<T>>,
}

/// Every `step`-th tap from tap `offset` on.
fn every_nth_tap<T: Sample>(taps: &[T], offset: usize, step: usize) -> (sub: Vec<T>)
    requires
        step >= 1,
    ensures
        sub@ == subfilter(taps@, step as int, offset as int),
{
    let taps_len = taps.len();
    let mut sub: Vec<T> = Vec::new();
    let mut j: usize = offset;
    while j < taps_len
        invariant
            step >= 1,
            taps_len == taps@.len(),
            sub.len() > 0 ==> offset + (sub.len() - 1) * step < taps_len,
            j < taps_len ==> j == offset + sub.len() * step,
            j >= taps_len ==> offset + sub.len() * step >= taps_len,
            forall|m: int| 0 <= m < sub.len() ==> #[trigger] sub[m] == taps@[offset + m * step],
        decreases taps_len - j,
    {
        let ghost k = sub.len() as int;
        sub.push(taps[j]);
        assert((k + 1) * step == k * step + step) by (nonlinear_arith);
        let room = taps_len - j;
        if step >= room {
            j = taps_len;
        } else {
            j = j + step;
        }
    }
    proof {
        let k = sub.len() as int;
        let step_i = step as int;
        assert(k * step_i == (k - 1) * step_i + step_i) by (nonlinear_arith);
        if k > 0 {
            assert((k - 1) * step_i >= 0) by (nonlinear_arith)
                requires
                    k >= 1,
                    step_i >= 1,
            ;
            let x: int = taps_len - offset - 1;
            lemma_fundamental_div_mod_converse(x, step_i, k - 1, x - (k - 1) * step_i);
        } else {
            assert(0 * step_i == 0);
        }
        assert(sub@ =~= subfilter(taps@, step_i, offset as int));
    }
    sub
}

impl<T: Sample, I: Stream<Item = T>> RationalResamplerIter<T, I> {
    /// The taps the bank was cut from.
    pub closed spec fn taps(&self) -> Seq<T> {
        self.taps@
    }

    /// The upsampling factor.
    pub closed spec fn up(&self) -> int {
        self.up as int
    }

    /// The downsampling factor.
    pub closed spec fn down(&self) -> int {
        self.down as int
    }

    /// The samples consumed so far, oldest first.
    pub closed spec fn history(&self) -> Seq<T> {
        self.seen@
    }

    /// What the upstream has yet to yield.
    pub closed spec fn upstream(&self) -> Seq<T> {
        self.iterator.pending()
    }

    /// The phase cursor: which sub-filter the next output uses, once it has
    /// been brought below `up` by consuming input.
    pub closed spec fn cursor(&self) -> int {
        self.filter_idx as int
    }

    /// The position of the next output on the upsampled time axis.
    pub closed spec fn position(&self) -> int {
        if self.seen@.len() == 0 {
            0
        } else {
            (self.seen@.len() - 1) * self.up + self.filter_idx
        }
    }

    /// What the resampler will yield: the outputs from its position on, for
    /// the whole input, the part consumed and the part to come.
    pub proof fn lemma_pending(&self)
        requires
            self.wf(),
        ensures
            self.pending() == resample_from(
                self.taps(),
                self.up(),
                self.down(),
                self.history() + self.upstream(),
                self.position(),
            ),
            self.up() >= 1,
            self.down() >= 1,
            self.position() >= 0,
            self.position() == (if self.history().len() == 0 {
                0
            } else {
                (self.history().len() - 1) * self.up() + self.cursor()
            }),
            self.bank_is_cut(),
            self.window_is_current(),
    {
        let c = self.seen@.len() - 1;
        let up = self.up as int;
        if c >= 0 {
            assert(c * up >= 0) by (nonlinear_arith)
                requires
                    c >= 0,
                    up >= 1,
            ;
        }
    }

    /// The sub-filters of the polyphase bank, by phase.
    pub closed spec fn bank(&self) -> Seq<Seq<T>> {
        Seq::new(self.filters@.len(), |p: int| self.filters@[p]@)
    }

    /// The history window that the sub-filters are applied to, newest
    /// sample first.
    pub closed spec fn window(&self) -> Seq<T> {
        self.sample_history@
    }

    /// The polyphase bank holds `up` sub-filters, sub-filter `p` made of
    /// every `up`-th tap from tap `p` on.
    pub open spec fn bank_is_cut(&self) -> bool {
        &&& self.bank().len() == self.up()
        &&& forall|p: int|
            0 <= p < self.up() ==> #[trigger] self.bank()[p] == subfilter(
                self.taps(),
                self.up(),
                p,
            )
    }

    /// The history window holds the newest samples, newest first, padded
    /// with zeros to the length of the longest sub-filter; it is empty
    /// until the first sample has arrived.
    pub open spec fn window_is_current(&self) -> bool {
        if self.history().len() == 0 {
            self.window().len() == 0 && self.cursor() == 0
        } else {
            &&& self.window().len() == subfilter_len(self.taps().len(), self.up(), 0)
            &&& forall|k: int|
                0 <= k < self.window().len() ==> #[trigger] self.window()[k] == window_at(
                    self.history(),
                    self.history().len() - 1,
                    k,
                )
        }
    }

    /// Brings the window up to date with one more sample.
    fn shift_in(&mut self, x: T)
        requires
            old(self).wf(),
            old(self).seen@.len() > 0,
            old(self).filter_idx >= old(self).up,
        ensures
            final(self).bank_is_cut(),
            final(self).window_is_current(),
            final(self).seen@ == old(self).seen@.push(x),
            final(self).filter_idx == old(self).filter_idx - old(self).up,
            final(self).up == old(self).up,
            final(self).down == old(self).down,
            final(self).filter_length == old(self).filter_length,
            final(self).taps == old(self).taps,
            final(self).iterator == old(self).iterator,
            final(self).position() == old(self).position(),
    {
        let ghost before = self.seen@;
        let ghost window = self.sample_history@;
        self.filter_idx = self.filter_idx - self.up;
        self.sample_history.pop_back();
        self.sample_history.push_front(x);
        self.seen = Ghost(before.push(x));
        proof {
            let c = before.len() as int;
            let up = self.up as int;
            assert(c * up == (c - 1) * up + up) by (nonlinear_arith);
            assert forall|k: int| 0 <= k < self.filter_length implies #[trigger] self.sample_history@[k]
                == window_at(self.seen@, self.seen@.len() - 1, k) by {
                if k > 0 {
                    assert(self.sample_history@[k] == window[k - 1]);
                }
            }
        }
    }
}

impl<T: Sample, I: Stream<Item = T>> Stream for RationalResamplerIter<T, I> {
    type Item = T;

    closed spec fn wf(&self) -> bool {
        &&& self.iterator.wf()
        &&& self.up >= 1
        &&& self.down >= 1
        &&& self.up + self.down <= usize::MAX
        &&& self.taps@.len() >= 1
        &&& self.bank_is_cut()
        &&& self.filter_length == subfilter_len(self.taps@.len(), self.up as int, 0)
        &&& self.filter_idx < self.up + self.down
        &&& self.window_is_current()
    }

    closed spec fn pending(&self) -> Seq<T> {
        resample_from(
            self.taps@,
            self.up as int,
            self.down as int,
            self.seen@ + self.iterator.pending(),
            self.position(),
        )
    }

    fn next(&mut self) -> (item: Option<T>)
        ensures
            final(self).taps() == old(self).taps(),
            final(self).up() == old(self).up(),
            final(self).down() == old(self).down(),
            final(self).bank_is_cut(),
            final(self).window_is_current(),
            final(self).history() + final(self).upstream() == old(self).history() + old(self).upstream(),
            item is Some ==> {
                &&& final(self).position() == old(self).position() + old(self).down()
                &&& final(self).history().len() == old(self).position() / old(self).up() + 1
                &&& final(self).cursor() == old(self).position() % old(self).up() + old(self).down()
            },
            item is None ==> final(self).position() == old(self).position(),
    {
        let ghost all = self.seen@ + self.iterator.pending();
        let ghost up = self.up as int;
        let ghost down = self.down as int;
        if self.sample_history.len() == 0 {
            // start off with all zeros and the first sample
            match self.iterator.next() {
                None => {
                    assert(all.len() * up == 0) by (nonlinear_arith)
                        requires
                            all.len() == 0,
                    ;
                    return None;
                },
                Some(x) => {
                    let mut i: usize = 1;
                    while i < self.filter_length
                        invariant
                            1 <= i,
                            self.filter_length >= 1,
                            i <= self.filter_length,
                            self.sample_history@.len() == i - 1,
                            forall|k: int|
                                0 <= k < i - 1 ==> #[trigger] self.sample_history@[k]
                                    == T::spec_zero(),
                            self.up == old(self).up,
                            self.down == old(self).down,
                            self.filter_length == old(self).filter_length,
                            self.filters == old(self).filters,
                            self.filter_idx == old(self).filter_idx,
                            self.taps == old(self).taps,
                            self.seen == old(self).seen,
                            self.iterator.wf(),
                            self.iterator.pending() == rest(old(self).iterator.pending()),
                        decreases self.filter_length - i,
                    {
                        self.sample_history.push_front(T::zero());
                        i = i + 1;
                    }
                    self.sample_history.push_front(x);
                    self.seen = Ghost(Seq::empty().push(x));
                    assert(self.seen@ + self.iterator.pending() =~= all);
                    assert(0 * up == 0);
                },
            }
        }
        // get new samples, if needed
        while self.filter_idx >= self.up
            invariant
                self.wf(),
                self.seen@.len() > 0,
                self.up == old(self).up,
                self.down == old(self).down,
                self.taps == old(self).taps,
                up == self.up,
                down == self.down,
                self.seen@ + self.iterator.pending() == all,
                all == old(self).seen@ + old(self).iterator.pending(),
                self.position() == old(self).position(),
            decreases self.filter_idx,
        {
            match self.iterator.next() {
                None => {
                    proof {
                        let c = self.seen@.len() as int;
                        assert(c * up == (c - 1) * up + up) by (nonlinear_arith);
                        assert(all =~= self.seen@);
                    }
                    return None;
                },
                Some(x) => {
                    let ghost upcoming = self.iterator.pending();
                    self.shift_in(x);
                    assert(self.seen@ + upcoming =~= all);
                },
            }
        }
        // save the current filter index, and then increment for next time
        let phase = self.filter_idx;
        self.filter_idx = phase + self.down;
        let ghost newest = self.seen@.len() - 1;
        let ghost position = newest * up + phase;
        proof {
            lemma_fundamental_div_mod_converse(position, up, newest, phase as int);
            lemma_div_is_ordered(
                self.taps@.len() - phase - 1,
                self.taps@.len() - 1,
                up,
            );
            assert((newest + 1) * up == newest * up + up) by (nonlinear_arith);
            assert((newest + 1) * up <= all.len() * up) by (nonlinear_arith)
                requires
                    newest + 1 <= all.len(),
                    up >= 1,
            ;
            assert(newest * up >= 0) by (nonlinear_arith)
                requires
                    newest >= 0,
                    up >= 1,
            ;
            lemma_resample_step(self.taps@, up, down, all, position);
        }
        // correlate the most recent samples against the current sub-filter
        let filter = &self.filters[phase];
        let filter_len = filter.len();
        assert(self.bank()[phase as int] == filter@);
        assert(self.window() == self.sample_history@);
        let mut sum = T::zero();
        let mut k: usize = 0;
        while k < filter_len
            invariant
                k <= filter_len,
                filter_len == filter@.len(),
                filter_len <= self.sample_history@.len(),
                self.seen@.len() - 1 == newest,
                newest >= 0,
                self.seen@ + self.iterator.pending() == all,
                forall|m: int|
                    0 <= m < self.sample_history@.len() ==> #[trigger] self.sample_history@[m]
                        == window_at(self.seen@, newest, m),
                sum == correlate(filter@, all, newest, k as int),
            decreases filter_len - k,
        {
            proof {
                assert(window_at(all, newest, k as int) == window_at(self.seen@, newest, k as int));
            }
            sum = sum.plus(filter[k].times(self.sample_history[k]));
            k = k + 1;
        }
        Some(sum)
    }
}

impl<'b, T: Sample, I: Stream<Item = T>> RadioBlock<I> for RationalResampler<'b, T> {
    type Output = RationalResamplerIter<T, I>;

    open spec fn valid(&self) -> bool {
        &&& self.up >= 1
        &&& self.down >= 1
        &&& self.up + self.down <= usize::MAX
        &&& self.taps@.len() >= 1
    }

    open spec fn transfer(&self, input: Seq<T>) -> Seq<T> {
        resample(self.taps@, self.up as int, self.down as int, input)
    }

    fn process(&self, input: I) -> (output: RationalResamplerIter<T, I>)
        ensures
            output.taps() == self.taps@,
            output.up() == self.up,
            output.down() == self.down,
            output.history() == Seq::<T>::empty(),
            output.upstream() == input.pending(),
            output.cursor() == 0,
            output.position() == 0,
            output.bank_is_cut(),
            output.window_is_current(),
    {
        // split the given FIR filter into smaller filters
        let mut filters: Vec<Vec<T>> = Vec::new();
        let mut i: usize = 0;
        while i < self.up
            invariant
                i <= self.up,
                self.up >= 1,
                filters.len() == i,
                forall|p: int|
                    0 <= p < i ==> (#[trigger] filters[p])@ == subfilter(
                        self.taps@,
                        self.up as int,
                        p,
                    ),
            decreases self.up - i,
        {
            filters.push(every_nth_tap(self.taps, i, self.up));
            i = i + 1;
        }
        let filter_length = filters[0].len();
        let output = RationalResamplerIter {
            up: self.up,
            down: self.down,
            filter_length,
            filters,
            filter_idx: 0,
            sample_history: VecDeque::new(),
            iterator: input,
            taps: Ghost(self.taps@),
            seen: Ghost(Seq::empty()),
        };
        assert(output.seen@ + input.pending() =~= input.pending());
        output
    }
}

/// How the number of taps of a designed filter is given: directly, or by
/// the width of the transition band, a 32-bit float carried by its bit
/// pattern.
#[derive(Clone, Copy, Debug)]
pub enum NumTapsSpecifier {
    NumTaps(usize),
    TransitionWidth(u32),
}

/// A filter was asked for in terms that the design routine does not know
/// how to meet.
#[derive(Clone, Copy, Debug, PartialEq, Eq)]
pub enum DesignError {
    /// The number of taps cannot be derived from a transition width.
    TransitionWidthUnsupported,
}

/// The number of taps that a specifier asks for. Only a direct count can
/// be met; a transition width is refused before any tap is computed.
pub fn tap_count(num_taps: NumTapsSpecifier) -> (count: Result<usize, DesignError>)
    ensures
        match num_taps {
            NumTapsSpecifier::NumTaps(n) => count == Ok::<usize, DesignError>(n),
            NumTapsSpecifier::TransitionWidth(_) => count == Err::<usize, DesignError>(
                DesignError::TransitionWidthUnsupported,
            ),
        },
{
    match num_taps {
        NumTapsSpecifier::NumTaps(n) => Ok(n),
        NumTapsSpecifier::TransitionWidth(_) => Err(DesignError::TransitionWidthUnsupported),
    }
}

/// The time index of tap `idx` of a filter of `n_taps` taps: its distance
/// from the centre tap, which is tap `(n_taps - 1) / 2`.
pub fn time_index(idx: usize, n_taps: usize) -> (t: i64)
    requires
        idx < n_taps,
        n_taps <= i64::MAX,
    ensures
        t == idx - (n_taps - 1) / 2,
{
    let centre: usize = (n_taps - 1) / 2;
    if idx >= centre {
        (idx - centre) as i64
    } else {
        -((centre - idx) as i64)
    }
}

} // verus!
