//! The processing blocks, by kind.

pub mod filter;
pub mod itertools;
pub mod modem;
pub mod stream;

use crate::flow::Stream;
use vstd::prelude::*;

verus! {

/// A processing block: a fixed set of parameters that turns one stream into
/// another.
///
/// What a block does is a function from the sequence it is fed to the
/// sequence it produces, `transfer`. `process` wires the block to an upstream
/// and returns a stream that yields exactly that sequence, item by item and
/// on demand. Blocks with several rails work on streams of tuples.
pub trait RadioBlock<I: Stream> {
    type Output: Stream;

    /// Whether the parameters describe a block that can run.
    spec fn valid(&self) -> bool;

    /// The output sequence that the block makes of an input sequence.
    spec fn transfer(&self, input: Seq<I::Item>) -> Seq<<Self::Output as Stream>::Item>;

    fn process(&self, input: I) -> (output: Self::Output)
        requires
            self.valid(),
            input.wf(),
        ensures
            output.wf(),
            output.pending() == self.transfer(input.pending()),
    ;
}

/// Passes every item through unchanged.
pub struct Identity;

impl<I: Stream> RadioBlock<I> for Identity {
    type Output = I;

    open spec fn valid(&self) -> bool {
        true
    }

    open spec fn transfer(&self, input: Seq<I::Item>) -> Seq<I::Item> {
        input
    }

    fn process(&self, input: I) -> (output: I) {
        input
    }
}

} // verus!
