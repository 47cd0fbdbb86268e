use rustradio::blocks::filter::FilterFIR;
use rustradio::blocks::filter::RationalResampler;
use rustradio::blocks::stream::Multiply;
use rustradio::blocks::stream::Split;
use rustradio::blocks::stream::Stride;
use rustradio::blocks::RadioBlock;
use rustradio::buffers::FixedBuffer2First;
use rustradio::buffers::FixedBuffer2Second;
use rustradio::connect;
use rustradio::connect_split;
use rustradio::connect_zip;
use rustradio::flow::collect;
use rustradio::flow::collect_up_to;
use rustradio::flow::VecSource;
use rustradio::sample::Sample;

fn count(from: i64, len: i64) -> VecSource<i64> {
    VecSource::new((from..from + len).collect())
}

#[test]
fn split() {
    let source = VecSource::new(vec![0i64, 1, 2, 3, 4]);

    let rails = connect_split(&Split, source);
    let combined = connect_zip(&Multiply, rails);

    let collected: Vec<i64> = collect(combined);
    assert_eq!(collected, vec![0i64, 1, 4, 9, 16]);
}

#[test]
fn split_buffer_overrun() {
    // This flowgraph needs unbounded memory growth, which fixed buffers
    // cannot satisfy: one rail is read a hundred times as fast as the other.
    let source = count(0, 1000000);

    let b_stride = Stride { stride: 100 };

    let mut rails = connect_split(&Split, source);
    let mut together: Vec<i64> = Vec::new();
    let mut refused = false;
    'pulls: while together.len() < 1000000 {
        // the sparse rail: one item, then the skip after it
        if !rails.can_pull_first() {
            refused = true;
            break;
        }
        let sparse = match (FixedBuffer2First { data: &mut rails }).next() {
            Some(a) => a,
            None => break,
        };
        for _ in 1..b_stride.stride {
            if !rails.can_pull_first() {
                refused = true;
                break 'pulls;
            }
            if (FixedBuffer2First { data: &mut rails }).next().is_none() {
                break;
            }
        }
        together.push(sparse);
        if !rails.can_pull_second() {
            refused = true;
            break;
        }
        match (FixedBuffer2Second { data: &mut rails }).next() {
            Some(b) => together.push(b),
            None => break,
        }
    }
    // the sparse rail can no longer be served, long before the source ends
    assert!(refused);
    assert!(!rails.can_pull_first());
    assert!(rails.can_pull_second());
    assert!(together.len() < 1000000);
}

#[test]
fn filter_fir() {
    let source = count(0, 100);
    let taps = vec![1i64, 2, 3];
    let b_filter = FilterFIR { taps: taps.as_slice() };
    let mut filtered = connect(&b_filter, source);
    let collected: Vec<i64> = collect_up_to(&mut filtered, 6);

    assert_eq!(collected, vec![0i64, 1, 4, 10, 16, 22]);
}

#[test]
// At upsample = downsample = 1, the RationalResampler is just an FIR filter.
fn resampler_is_filter() {
    let taps = vec![1i64, -1, 2, 3];
    let source = count(0, 10);
    let source_copy = count(0, 10);

    let b_filter = FilterFIR { taps: taps.as_slice() };
    let b_resampler = RationalResampler { up: 1, down: 1, taps: taps.as_slice() };

    let fir_filtered = connect(&b_filter, source_copy);
    let resampler_filtered = connect(&b_resampler, source);

    let fir_filtered: Vec<i64> = collect(fir_filtered);
    let resampler_filtered: Vec<i64> = collect(resampler_filtered);
    assert_eq!(fir_filtered, resampler_filtered);
}

#[test]
// A couple of known rational resampler outputs
fn test_resampler() {
    let source = count(0, 5);
    let taps = vec![1i64, -1, 1];
    let b_resampler = RationalResampler { up: 2, down: 1, taps: taps.as_slice() };
    let resampled: Vec<i64> = collect(connect(&b_resampler, source));
    assert_eq!(resampled, vec![0i64, 0, 1, -1, 3, -2, 5, -3, 7, -4]);

    let source = count(0, 5);
    let taps = vec![1i64];
    let b_resampler = RationalResampler { up: 2, down: 1, taps: taps.as_slice() };
    let resampled: Vec<i64> = collect(connect(&b_resampler, source));
    assert_eq!(resampled, vec![0i64, 0, 1, 0, 2, 0, 3, 0, 4, 0]);

    let source = count(0, 10);
    let taps = vec![1i64];
    let b_resampler = RationalResampler { up: 1, down: 2, taps: taps.as_slice() };
    let resampled: Vec<i64> = collect(connect(&b_resampler, source));
    assert_eq!(resampled, vec![0i64, 2, 4, 6, 8]);

    let source = count(0, 5);
    let taps = vec![1i64, -1];
    let b_resampler = RationalResampler { up: 2, down: 1, taps: taps.as_slice() };
    let resampled: Vec<i64> = collect(connect(&b_resampler, source));
    assert_eq!(resampled, vec![0, 0, 1, -1, 2, -2, 3, -3, 4, -4]);

    let source = count(0, 5);
    let taps = vec![1i64, -1, 1];
    let b_resampler = RationalResampler { up: 3, down: 5, taps: taps.as_slice() };
    let resampled: Vec<i64> = collect(connect(&b_resampler, source));
    assert_eq!(resampled, vec![0, 1, -3]);
}

#[derive(Clone, Copy, Debug, PartialEq)]
struct Real(f32);

impl Sample for Real {
    fn spec_zero() -> Real {
        Real(0.0)
    }

    fn spec_plus(self, rhs: Real) -> Real {
        Real(self.0 + rhs.0)
    }

    fn spec_times(self, rhs: Real) -> Real {
        Real(self.0 * rhs.0)
    }

    fn zero() -> Real {
        Real(0.0)
    }

    fn plus(self, rhs: Real) -> Real {
        Real(self.0 + rhs.0)
    }

    fn times(self, rhs: Real) -> Real {
        Real(self.0 * rhs.0)
    }
}

#[test]
fn fir_runs_on_a_sample_type_of_the_caller() {
    let source = VecSource::new(vec![Real(0.0), Real(1.0), Real(2.0), Real(3.0)]);
    let taps = vec![Real(0.5), Real(0.25)];
    let b_filter = FilterFIR { taps: taps.as_slice() };
    let filtered: Vec<Real> = collect(b_filter.process(source));
    assert_eq!(filtered, vec![Real(0.0), Real(0.5), Real(1.25), Real(2.0)]);
}
