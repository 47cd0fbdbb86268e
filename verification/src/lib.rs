//! Streaming signal processing: blocks wired together over bounded buffers.

pub mod blocks;
pub mod buffers;
pub mod file;
pub mod flow;
pub mod sample;
pub mod sources;

use crate::blocks::RadioBlock;
use crate::buffers::buffer_fixed;
use crate::buffers::split_fixed;
use crate::buffers::zip_rails;
use crate::buffers::FixedBuffer1;
use crate::buffers::FixedBuffer2;
use crate::buffers::ZipRails;
use crate::flow::Stream;
use vstd::prelude::*;

verus! {

/// Number of items a wiring buffer holds unless told otherwise.
pub const DEFAULT_BUFFER_SIZE: usize = 2048;

/// Wires a block behind a stream, one rail in and one rail out, with a
/// buffer of the default size in between.
pub fn connect<S: Stream, K: RadioBlock<FixedBuffer1<S::Item, S>>>(block: &K, source: S) -> (output:
    K::Output)
    requires
        block.valid(),
        source.wf(),
    ensures
        output.wf(),
        output.pending() == block.transfer(source.pending()),
{
    connect_sized(block, source, DEFAULT_BUFFER_SIZE)
}

/// Wires a block behind a stream with a buffer of `capacity` items in
/// between. A buffer without capacity lets nothing through.
pub fn connect_sized<S: Stream, K: RadioBlock<FixedBuffer1<S::Item, S>>>(
    block: &K,
    source: S,
    capacity: usize,
) -> (output: K::Output)
    requires
        block.valid(),
        source.wf(),
    ensures
        output.wf(),
        output.pending() == block.transfer(
            if capacity == 0 {
                Seq::empty()
            } else {
                source.pending()
            },
        ),
{
    block.process(buffer_fixed(source, capacity))
}

/// Wires a block with two output rails behind a stream: the block's pairs
/// are spread over two buffered rails of the default size.
pub fn connect_split<A, B, S: Stream, K: RadioBlock<S>>(block: &K, source: S) -> (rails:
    FixedBuffer2<A, B, K::Output>) where K::Output: Stream<Item = (A, B)>
    requires
        block.valid(),
        source.wf(),
    ensures
        rails.wf(),
        rails.first_rail() == Seq::<A>::empty(),
        rails.second_rail() == Seq::<B>::empty(),
        rails.source() == block.transfer(source.pending()),
        rails.first_capacity() == DEFAULT_BUFFER_SIZE,
        rails.second_capacity() == DEFAULT_BUFFER_SIZE,
{
    connect_split_sized(block, source, DEFAULT_BUFFER_SIZE, DEFAULT_BUFFER_SIZE)
}

/// Wires a block with two output rails behind a stream: the block's pairs
/// are spread over two buffered rails of `cap_a` and `cap_b` items.
pub fn connect_split_sized<A, B, S: Stream, K: RadioBlock<S>>(
    block: &K,
    source: S,
    cap_a: usize,
    cap_b: usize,
) -> (rails: FixedBuffer2<A, B, K::Output>) where K::Output: Stream<Item = (A, B)>
    requires
        block.valid(),
        source.wf(),
    ensures
        rails.wf(),
        rails.first_rail() == Seq::<A>::empty(),
        rails.second_rail() == Seq::<B>::empty(),
        rails.source() == block.transfer(source.pending()),
        rails.first_capacity() == cap_a,
        rails.second_capacity() == cap_b,
{
    split_fixed(block.process(source), cap_a, cap_b)
}

/// Wires a block with two input rails behind a paired buffer: the rails are
/// joined pair by pair and buffered with the default size.
pub fn connect_zip<A, B, It: Stream<Item = (A, B)>, K: RadioBlock<
    FixedBuffer1<(A, B), ZipRails<A, B, It>>,
>>(block: &K, rails: FixedBuffer2<A, B, It>) -> (output: K::Output)
    requires
        block.valid(),
        rails.wf(),
        rails.first_rail().len() == rails.second_rail().len(),
        rails.first_capacity() >= 1,
        rails.second_capacity() >= 1,
    ensures
        output.wf(),
        output.pending() == block.transfer(
            buffers::zipped(rails.first_rail(), rails.second_rail()) + rails.source(),
        ),
{
    connect_zip_sized(block, rails, DEFAULT_BUFFER_SIZE)
}

/// Wires a block with two input rails behind a paired buffer: the rails are
/// joined pair by pair and buffered with `capacity` items. A buffer
/// without capacity lets nothing through.
pub fn connect_zip_sized<A, B, It: Stream<Item = (A, B)>, K: RadioBlock<
    FixedBuffer1<(A, B), ZipRails<A, B, It>>,
>>(block: &K, rails: FixedBuffer2<A, B, It>, capacity: usize) -> (output: K::Output)
    requires
        block.valid(),
        rails.wf(),
        rails.first_rail().len() == rails.second_rail().len(),
        rails.first_capacity() >= 1,
        rails.second_capacity() >= 1,
    ensures
        output.wf(),
        output.pending() == block.transfer(
            if capacity == 0 {
                Seq::empty()
            } else {
                buffers::zipped(rails.first_rail(), rails.second_rail()) + rails.source()
            },
        ),
{
    block.process(buffer_fixed(zip_rails(rails), capacity))
}

} // verus!
