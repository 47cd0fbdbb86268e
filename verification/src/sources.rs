//! Sample sources with a fixed record format.

use crate::file::read_stream;
use crate::file::records;
use crate::file::ReaderIterator;
use crate::flow::Stream;
use vstd::prelude::*;

verus! {

/// Reads complex samples stored as interleaved signed 16-bit integers:
/// in-phase then quadrature, each least significant byte first. The stream
/// ends where the bytes run out.
pub fn read_interleaved_int16<R: Stream<Item = u8>>(reader: R) -> (samples: ReaderIterator<
    R,
    (i16, i16),
>)
    requires
        reader.wf(),
    ensures
        samples.wf(),
        samples.unread() == reader.pending(),
        samples.pending() == records::<(i16, i16)>(reader.pending()),
{
    read_stream(reader)
}

} // verus!
