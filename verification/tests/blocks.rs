use rustradio::blocks::filter::tap_count;
use rustradio::blocks::filter::time_index;
use rustradio::blocks::filter::DesignError;
use rustradio::blocks::filter::FilterFIR;
use rustradio::blocks::filter::NumTapsSpecifier;
use rustradio::blocks::filter::RationalResampler;
use rustradio::blocks::itertools::map_chunk_2;
use rustradio::blocks::stream::DeInterleave;
use rustradio::blocks::stream::Interleave;
use rustradio::blocks::stream::Multiply;
use rustradio::blocks::stream::Split;
use rustradio::blocks::stream::Stride;
use rustradio::blocks::Identity;
use rustradio::blocks::RadioBlock;
use rustradio::connect;
use rustradio::connect_sized;
use rustradio::flow::collect;
use rustradio::flow::collect_up_to;
use rustradio::flow::Stream;
use rustradio::flow::VecSource;
use rustradio::sample::Sample;
use rustradio::DEFAULT_BUFFER_SIZE;

fn count(from: i64, len: i64) -> VecSource<i64> {
    VecSource::new((from..from + len).collect())
}

#[test]
fn default_buffer_size() {
    assert_eq!(DEFAULT_BUFFER_SIZE, 2048);
}

#[test]
fn filter_fir_alternating_taps() {
    let taps = vec![1i64, -1, 1];
    let b_filter = FilterFIR { taps: taps.as_slice() };
    let mut filtered = connect(&b_filter, count(0, 50));
    assert_eq!(collect_up_to(&mut filtered, 6), vec![0i64, 1, 1, 2, 3, 4]);
}

#[test]
fn filter_fir_without_taps_gives_zeros() {
    let taps: Vec<i64> = vec![];
    let b_filter = FilterFIR { taps: taps.as_slice() };
    assert_eq!(collect(b_filter.process(count(5, 3))), vec![0i64, 0, 0]);
}

#[test]
fn filter_fir_wraps_around() {
    let taps = vec![2i64, 1];
    let b_filter = FilterFIR { taps: taps.as_slice() };
    let filtered = collect(b_filter.process(VecSource::new(vec![i64::MAX, i64::MAX])));
    // 2 * MAX wraps to -2; then -2 + MAX
    assert_eq!(filtered, vec![-2i64, i64::MAX - 2]);
}

#[test]
fn integer_samples_wrap() {
    assert_eq!(<i64 as Sample>::zero(), 0);
    assert_eq!(i64::MAX.plus(1), i64::MIN);
    assert_eq!(i64::MIN.plus(-1), i64::MAX);
    assert_eq!(3i64.plus(-5), -2);
    assert_eq!((1i64 << 62).times(4), 0);
    assert_eq!((-3i64).times(7), -21);
    assert_eq!(i64::MIN.times(-1), i64::MIN);
}

#[test]
fn resampler_runs_through_any_buffer_size() {
    let taps = vec![1i64, -1, 1];
    let b_resampler = RationalResampler { up: 3, down: 2, taps: taps.as_slice() };
    let plain: Vec<i64> = collect(b_resampler.process(count(0, 20)));
    assert_eq!(plain.len(), 30);
    for capacity in [1usize, 2, 7] {
        let buffered: Vec<i64> = collect(connect_sized(&b_resampler, count(0, 20), capacity));
        assert_eq!(buffered, plain);
    }
}

#[test]
fn resampler_with_more_phases_than_taps() {
    // sub-filters 1 and 2 are empty and give zero
    let taps = vec![5i64];
    let b_resampler = RationalResampler { up: 3, down: 1, taps: taps.as_slice() };
    let resampled: Vec<i64> = collect(b_resampler.process(count(1, 3)));
    assert_eq!(resampled, vec![5i64, 0, 0, 10, 0, 0, 15, 0, 0]);
}

#[test]
fn resampler_of_nothing_is_nothing() {
    let taps = vec![1i64, 2];
    let b_resampler = RationalResampler { up: 2, down: 3, taps: taps.as_slice() };
    let mut resampled = b_resampler.process(count(0, 0));
    assert_eq!(resampled.next(), None);
    assert_eq!(resampled.next(), None);
}

#[test]
fn resampler_stays_exhausted() {
    let taps = vec![1i64, 1, 1];
    let b_resampler = RationalResampler { up: 1, down: 4, taps: taps.as_slice() };
    let mut resampled = b_resampler.process(count(1, 6));
    assert_eq!(resampled.next(), Some(1));
    assert_eq!(resampled.next(), Some(5 + 4 + 3));
    assert_eq!(resampled.next(), None);
    assert_eq!(resampled.next(), None);
}

#[test]
fn identity_passes_through() {
    assert_eq!(collect(Identity.process(count(3, 4))), vec![3i64, 4, 5, 6]);
}

#[test]
fn interleave_flattens_pairs() {
    let pairs = VecSource::new(vec![(1i64, 2i64), (3, 4), (5, 6)]);
    assert_eq!(collect(Interleave.process(pairs)), vec![1i64, 2, 3, 4, 5, 6]);
}

#[test]
fn deinterleave_drops_an_unpaired_item() {
    assert_eq!(collect(DeInterleave.process(count(1, 5))), vec![(1i64, 2i64), (3, 4)]);
    assert_eq!(collect(DeInterleave.process(count(1, 4))), vec![(1i64, 2i64), (3, 4)]);
    assert_eq!(collect(DeInterleave.process(count(1, 1))), Vec::<(i64, i64)>::new());
}

#[test]
fn deinterleave_undoes_interleave() {
    let pairs = vec![(1i64, 2i64), (3, 4), (5, 6)];
    let there = Interleave.process(VecSource::new(pairs.clone()));
    assert_eq!(collect(DeInterleave.process(there)), pairs);
}

#[test]
fn multiply_pairs() {
    let pairs = VecSource::new(vec![(2i64, 3i64), (-4, 5), (0, 9)]);
    assert_eq!(collect(Multiply.process(pairs)), vec![6i64, -20, 0]);
}

#[test]
fn split_doubles() {
    assert_eq!(collect(Split.process(count(7, 2))), vec![(7i64, 7i64), (8, 8)]);
}

#[test]
fn stride_keeps_every_nth() {
    assert_eq!(collect((Stride { stride: 3 }).process(count(0, 10))), vec![0i64, 3, 6, 9]);
    assert_eq!(collect((Stride { stride: 3 }).process(count(0, 9))), vec![0i64, 3, 6]);
    // the source runs out in the middle of a skip
    assert_eq!(collect((Stride { stride: 3 }).process(count(0, 8))), vec![0i64, 3, 6]);
    assert_eq!(collect((Stride { stride: 1 }).process(count(0, 3))), vec![0i64, 1, 2]);
    assert_eq!(collect((Stride { stride: 100 }).process(count(0, 3))), vec![0i64]);
    assert_eq!(collect((Stride { stride: 2 }).process(count(0, 0))), Vec::<i64>::new());
}

#[test]
fn map_chunk_2_maps_neighbours() {
    let mapped = map_chunk_2(count(1, 7), |x: i64, y: i64| x * 10 + y);
    assert_eq!(collect(mapped), vec![12i64, 34, 56]);
}

#[test]
fn tap_count_refuses_a_transition_width() {
    assert_eq!(tap_count(NumTapsSpecifier::NumTaps(13)), Ok(13));
    assert_eq!(
        tap_count(NumTapsSpecifier::TransitionWidth(0.2f32.to_bits())),
        Err(DesignError::TransitionWidthUnsupported)
    );
}

#[test]
fn time_index_counts_from_the_centre_tap() {
    let odd: Vec<i64> = (0..13).map(|idx| time_index(idx, 13)).collect();
    assert_eq!(odd, (-6..=6).collect::<Vec<i64>>());
    let even: Vec<i64> = (0..4).map(|idx| time_index(idx, 4)).collect();
    assert_eq!(even, vec![-1i64, 0, 1, 2]);
    assert_eq!(time_index(0, 1), 0);
}

#[test]
fn resampler_upsamples_filters_and_downsamples() {
    let taps = vec![3i64, -1, 4, 1, -5, 9, 2];
    let input: Vec<i64> = vec![2, 7, 1, 8, 2, 8, 1, 8];
    for (up, down) in [(1usize, 1usize), (2, 1), (1, 3), (3, 2), (4, 7), (9, 2)] {
        // each sample followed by up - 1 zeros
        let mut stuffed: Vec<i64> = Vec::new();
        for &x in input.iter() {
            stuffed.push(x);
            for _ in 1..up {
                stuffed.push(0);
            }
        }
        let b_filter = FilterFIR { taps: taps.as_slice() };
        let filtered = b_filter.process(VecSource::new(stuffed));
        let expected: Vec<i64> = collect((Stride { stride: down }).process(filtered));

        let b_resampler = RationalResampler { up, down, taps: taps.as_slice() };
        let resampled: Vec<i64> = collect(b_resampler.process(VecSource::new(input.clone())));
        assert_eq!(resampled, expected);
    }
}

#[test]
fn rails_cannot_run_apart_without_bound() {
    let pairs: Vec<(i64, i64)> = (0..100).map(|x| (x, -x)).collect();
    let mut rails = rustradio::buffers::split_fixed(VecSource::new(pairs), 5, 3);
    // only the first rail is read: it gets as far as the second rail has room
    let mut handed_out = 0;
    while rails.can_pull_first() {
        let a = (rustradio::buffers::FixedBuffer2First { data: &mut rails }).next();
        assert_eq!(a, Some(handed_out));
        handed_out += 1;
    }
    assert_eq!(handed_out, 3);
    assert!(rails.can_pull_second());
}
