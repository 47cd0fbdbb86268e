use rustradio::blocks::modem::FreqMod;
use rustradio::blocks::modem::PhaseDiffs;
use rustradio::blocks::RadioBlock;
use rustradio::connect;
use rustradio::flow::collect;
use rustradio::flow::VecSource;
use rustradio::sample::Sample;

/// A real sample in single precision.
#[derive(Clone, Copy, Debug, PartialEq)]
struct Radians(f32);

impl Sample for Radians {
    fn spec_zero() -> Radians {
        Radians(0.0)
    }

    fn spec_plus(self, rhs: Radians) -> Radians {
        Radians(self.0 + rhs.0)
    }

    fn spec_times(self, rhs: Radians) -> Radians {
        Radians(self.0 * rhs.0)
    }

    fn zero() -> Radians {
        Radians(0.0)
    }

    fn plus(self, rhs: Radians) -> Radians {
        Radians(self.0 + rhs.0)
    }

    fn times(self, rhs: Radians) -> Radians {
        Radians(self.0 * rhs.0)
    }
}

/// The point of the unit circle at a phase.
fn unit_phasor(phase: Radians) -> (f32, f32) {
    (phase.0.cos(), phase.0.sin())
}

/// The argument of `current` times the conjugate of `previous`.
fn phase_between(previous: (f32, f32), current: (f32, f32)) -> f32 {
    let re = current.0 * previous.0 + current.1 * previous.1;
    let im = current.1 * previous.0 - current.0 * previous.1;
    im.atan2(re)
}

#[test]
fn phase_differences() {
    let phase_diffs = vec![0.3f32, 0.2, -2f32, 0f32];
    let source = VecSource::new(phase_diffs.iter().map(|&x| Radians(x)).collect());

    let samples = connect(&FreqMod { emit: unit_phasor }, source);
    let diffs = connect(&PhaseDiffs { detect: phase_between }, samples);
    let diffs: Vec<f32> = collect(diffs);

    // assert that they're close enough
    let sse = phase_diffs.iter().zip(diffs).fold(0f32, |sse, (&b, c)| sse + (c - b) * (c - b));
    assert!(sse < 0.001f32);
}

#[test]
fn freq_mod_emits_before_it_advances() {
    let source = VecSource::new(vec![3i64, 4, -10, 6]);
    let block = FreqMod { emit: |phase: i64| phase * 2 };
    let emitted: Vec<i64> = collect(block.process(source));
    // phases 0, 3, 7, -3: the last frequency sample never shows
    assert_eq!(emitted, vec![0, 6, 14, -6]);
}

#[test]
fn freq_mod_of_nothing_is_nothing() {
    let source: VecSource<i64> = VecSource::new(vec![]);
    let block = FreqMod { emit: |phase: i64| phase };
    let emitted: Vec<i64> = collect(block.process(source));
    assert_eq!(emitted, Vec::<i64>::new());
}

#[test]
fn phase_diffs_is_one_shorter_than_its_input() {
    let block = PhaseDiffs { detect: |previous: i64, current: i64| current - previous };

    let diffs: Vec<i64> = collect(block.process(VecSource::new(vec![1i64, 4, 9, 16, 25])));
    assert_eq!(diffs, vec![3, 5, 7, 9]);

    let diffs: Vec<i64> = collect(block.process(VecSource::new(vec![7i64])));
    assert_eq!(diffs, Vec::<i64>::new());

    let diffs: Vec<i64> = collect(block.process(VecSource::new(Vec::<i64>::new())));
    assert_eq!(diffs, Vec::<i64>::new());
}
