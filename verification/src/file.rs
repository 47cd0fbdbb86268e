//! The binary sample format: fixed-width records, back to back, with no
//! header and no length prefix.

use crate::flow::rest;
use crate::flow::taken;
use crate::flow::Stream;
use core::marker::PhantomData;
use vstd::prelude::*;
use vstd::slice::slice_subrange;

verus! {

/// A value with a declared byte layout of fixed width.
pub trait Record: Sized {
    /// The number of bytes of one record.
    spec fn spec_width() -> nat;

    /// The bytes that stand for a value.
    spec fn encoded(self) -> Seq<u8>;

    /// The value that `spec_width` bytes stand for.
    spec fn decoded(bytes: Seq<u8>) -> Self;

    /// Every value is laid out in `spec_width` bytes, from which it can be
    /// read back.
    proof fn lemma_round_trip(value: Self)
        ensures
            value.encoded().len() == Self::spec_width(),
            Self::decoded(value.encoded()) == value,
    ;

    fn width() -> (w: usize)
        ensures
            w == Self::spec_width(),
            w >= 1,
    ;

    fn encode(&self) -> (bytes: Vec<u8>)
        ensures
            bytes@ == self.encoded(),
    ;

    fn decode(bytes: &[u8]) -> (value: Self)
        requires
            bytes@.len() == Self::spec_width(),
        ensures
            value == Self::decoded(bytes@),
    ;
}

/// The four bytes of a 32-bit value, least significant byte first: byte `i`
/// is the value divided by 256 to the `i`, modulo 256.
pub open spec fn le_bytes_32(x: u32) -> Seq<u8> {
    seq![
        (x % 256) as u8,
        (x / 0x100 % 256) as u8,
        (x / 0x1_0000 % 256) as u8,
        (x / 0x100_0000 % 256) as u8,
    ]
}

/// The 32-bit value that four bytes stand for, least significant byte
/// first.
pub open spec fn from_le_bytes_32(bytes: Seq<u8>) -> u32 {
    (bytes[0] + 0x100 * bytes[1] + 0x1_0000 * bytes[2] + 0x100_0000 * bytes[3]) as u32
}

/// A signed 16-bit value as the unsigned value of its two's complement.
pub open spec fn twos_complement_16(x: i16) -> int {
    if x < 0 {
        x + 0x1_0000
    } else {
        x as int
    }
}

/// The two bytes of a signed 16-bit value in two's complement, least
/// significant byte first.
pub open spec fn le_bytes_16(x: i16) -> Seq<u8> {
    seq![(twos_complement_16(x) % 256) as u8, (twos_complement_16(x) / 0x100 % 256) as u8]
}

/// The signed 16-bit value that two bytes stand for in two's complement,
/// least significant byte first.
pub open spec fn from_le_bytes_16(bytes: Seq<u8>) -> i16 {
    let unsigned = bytes[0] + 0x100 * bytes[1];
    if unsigned >= 0x8000 {
        (unsigned - 0x1_0000) as i16
    } else {
        unsigned as i16
    }
}

/// 32 bits, least significant byte first: the layout of a 32-bit float
/// taken by its bit pattern.
impl Record for u32 {
    open spec fn spec_width() -> nat {
        4
    }

    open spec fn encoded(self) -> Seq<u8> {
        le_bytes_32(self)
    }

    open spec fn decoded(bytes: Seq<u8>) -> u32 {
        from_le_bytes_32(bytes)
    }

    proof fn lemma_round_trip(value: u32) {
    }

    fn width() -> (w: usize) {
        4
    }

    fn encode(&self) -> (bytes: Vec<u8>) {
        let x: u32 = *self;
        let mut bytes: Vec<u8> = Vec::new();
        bytes.push((x % 256) as u8);
        bytes.push((x / 0x100 % 256) as u8);
        bytes.push((x / 0x1_0000 % 256) as u8);
        bytes.push((x / 0x100_0000 % 256) as u8);
        assert(bytes@ =~= le_bytes_32(x));
        bytes
    }

    fn decode(bytes: &[u8]) -> (value: u32) {
        let b0: u32 = bytes[0] as u32;
        let b1: u32 = bytes[1] as u32;
        let b2: u32 = bytes[2] as u32;
        let b3: u32 = bytes[3] as u32;
        b0 + 0x100 * b1 + 0x1_0000 * b2 + 0x100_0000 * b3
    }
}

/// A signed 16-bit integer in two's complement, least significant byte
/// first.
impl Record for i16 {
    open spec fn spec_width() -> nat {
        2
    }

    open spec fn encoded(self) -> Seq<u8> {
        le_bytes_16(self)
    }

    open spec fn decoded(bytes: Seq<u8>) -> i16 {
        from_le_bytes_16(bytes)
    }

    proof fn lemma_round_trip(value: i16) {
    }

    fn width() -> (w: usize) {
        2
    }

    fn encode(&self) -> (bytes: Vec<u8>) {
        let x: i16 = *self;
        let unsigned: u32 = if x < 0 {
            (x as i32 + 0x1_0000) as u32
        } else {
            x as u32
        };
        let mut bytes: Vec<u8> = Vec::new();
        bytes.push((unsigned % 256) as u8);
        bytes.push((unsigned / 0x100 % 256) as u8);
        assert(bytes@ =~= le_bytes_16(x));
        bytes
    }

    fn decode(bytes: &[u8]) -> (value: i16) {
        let unsigned: i32 = bytes[0] as i32 + 0x100 * (bytes[1] as i32);
        if unsigned >= 0x8000 {
            (unsigned - 0x1_0000) as i16
        } else {
            unsigned as i16
        }
    }
}

/// The layout of a pair: the first component's bytes, then the second's.
pub open spec fn pair_encoded<R: Record>(pair: (R, R)) -> Seq<u8> {
    pair.0.encoded() + pair.1.encoded()
}

/// The pair that twice `R::spec_width()` bytes stand for.
pub open spec fn pair_decoded<R: Record>(bytes: Seq<u8>) -> (R, R) {
    let w = R::spec_width() as int;
    (R::decoded(bytes.subrange(0, w)), R::decoded(bytes.subrange(w, 2 * w)))
}

/// A pair is laid out in twice the width of a component, from which it can
/// be read back.
pub proof fn lemma_pair_round_trip<R: Record>(pair: (R, R))
    ensures
        pair_encoded(pair).len() == 2 * R::spec_width(),
        pair_decoded::<R>(pair_encoded(pair)) == pair,
{
    R::lemma_round_trip(pair.0);
    R::lemma_round_trip(pair.1);
    let w = R::spec_width() as int;
    let bytes = pair_encoded(pair);
    assert(bytes.subrange(0, w) =~= pair.0.encoded());
    assert(bytes.subrange(w, 2 * w) =~= pair.1.encoded());
}

fn encode_pair<R: Record>(pair: &(R, R)) -> (bytes: Vec<u8>)
    ensures
        bytes@ == pair_encoded(*pair),
{
    let mut bytes = pair.0.encode();
    let mut second = pair.1.encode();
    bytes.append(&mut second);
    bytes
}

fn decode_pair<R: Record>(bytes: &[u8]) -> (pair: (R, R))
    requires
        bytes@.len() == 2 * R::spec_width(),
    ensures
        pair == pair_decoded::<R>(bytes@),
{
    let w = R::width();
    let first = R::decode(slice_subrange(bytes, 0, w));
    let second = R::decode(slice_subrange(bytes, w, bytes.len()));
    (first, second)
}

/// A pair of 32-bit patterns: an in-phase and a quadrature float, eight
/// bytes in all.
impl Record for (u32, u32) {
    open spec fn spec_width() -> nat {
        8
    }

    open spec fn encoded(self) -> Seq<u8> {
        pair_encoded(self)
    }

    open spec fn decoded(bytes: Seq<u8>) -> (u32, u32) {
        pair_decoded::<u32>(bytes)
    }

    proof fn lemma_round_trip(value: (u32, u32)) {
        lemma_pair_round_trip(value);
    }

    fn width() -> (w: usize) {
        8
    }

    fn encode(&self) -> (bytes: Vec<u8>) {
        encode_pair(self)
    }

    fn decode(bytes: &[u8]) -> (value: (u32, u32)) {
        decode_pair(bytes)
    }
}

/// A pair of signed 16-bit integers: a raw in-phase and quadrature sample,
/// four bytes in all.
impl Record for (i16, i16) {
    open spec fn spec_width() -> nat {
        4
    }

    open spec fn encoded(self) -> Seq<u8> {
        pair_encoded(self)
    }

    open spec fn decoded(bytes: Seq<u8>) -> (i16, i16) {
        pair_decoded::<i16>(bytes)
    }

    proof fn lemma_round_trip(value: (i16, i16)) {
        lemma_pair_round_trip(value);
    }

    fn width() -> (w: usize) {
        4
    }

    fn encode(&self) -> (bytes: Vec<u8>) {
        encode_pair(self)
    }

    fn decode(bytes: &[u8]) -> (value: (i16, i16)) {
        decode_pair(bytes)
    }
}

/// The records that a run of bytes holds: as many whole records as fit,
/// read front to back; bytes left over at the end stand for nothing.
pub open spec fn records<T: Record>(bytes: Seq<u8>) -> Seq<T>
    decreases bytes.len(),
{
    let w = T::spec_width() as int;
    if w < 1 || bytes.len() < w {
        Seq::empty()
    } else {
        seq![T::decoded(bytes.take(w))] + records::<T>(bytes.skip(w))
    }
}

/// The bytes of a run of records: each record's bytes, back to back.
pub open spec fn packed<T: Record>(items: Seq<T>) -> Seq<u8>
    decreases items.len(),
{
    if items.len() == 0 {
        Seq::empty()
    } else {
        items[0].encoded() + packed(items.drop_first())
    }
}

/// What was written can be read back: the records of the bytes of a run of
/// records are that run.
pub proof fn lemma_read_back<T: Record>(items: Seq<T>)
    requires
        T::spec_width() >= 1,
    ensures
        records::<T>(packed(items)) == items,
    decreases items.len(),
{
    if items.len() == 0 {
        assert(records::<T>(packed(items)) =~= items);
    } else {
        let w = T::spec_width() as int;
        let first = items[0].encoded();
        let later = packed(items.drop_first());
        T::lemma_round_trip(items[0]);
        lemma_read_back(items.drop_first());
        assert((first + later).take(w) =~= first);
        assert((first + later).skip(w) =~= later);
        assert(records::<T>(packed(items)) =~= items);
    }
}

/// Reads records of type `T` off a stream of bytes.
pub struct ReaderIterator<Buff, T> {
    buffer: Buff,
    record: PhantomData<T>,
}

impl<Buff: Stream<Item = u8>, T: Record> ReaderIterator<Buff, T> {
    /// The bytes that have not been read yet.
    pub closed spec fn unread(&self) -> Seq<u8> {
        self.buffer.pending()
    }

    /// What is still to come is the records of the unread bytes.
    pub proof fn lemma_pending(&self)
        ensures
            self.pending() == records::<T>(self.unread()),
    {
    }
}

impl<Buff: Stream<Item = u8>, T: Record> Stream for ReaderIterator<Buff, T> {
    type Item = T;

    closed spec fn wf(&self) -> bool {
        self.buffer.wf()
    }

    closed spec fn pending(&self) -> Seq<T> {
        records::<T>(self.buffer.pending())
    }

    fn next(&mut self) -> (item: Option<T>)
        ensures
            final(self).unread() == old(self).unread().skip(
                taken(old(self).unread().len(), T::spec_width()),
            ),
    {
        let ghost unread = self.buffer.pending();
        let width = T::width();
        let mut bytes: Vec<u8> = Vec::new();
        while bytes.len() < width
            invariant
                self.buffer.wf(),
                bytes@.len() <= width,
                bytes@.len() <= unread.len(),
                bytes@ == unread.take(bytes@.len() as int),
                self.buffer.pending() == unread.skip(bytes@.len() as int),
                unread == old(self).buffer.pending(),
                width == T::spec_width(),
            decreases width - bytes@.len(),
        {
            let ghost n = bytes@.len() as int;
            match self.buffer.next() {
                Some(byte) => {
                    bytes.push(byte);
                    assert(bytes@ =~= unread.take(n + 1));
                    assert(self.buffer.pending() =~= unread.skip(n + 1));
                },
                None => {
                    assert(unread.skip(n).len() == 0);
                    return None;
                },
            }
        }
        Some(T::decode(bytes.as_slice()))
    }
}

/// Reads back-to-back records of type `T` off a stream of bytes. The
/// stream of records ends where the bytes run out, also in the middle of a
/// record.
pub fn read_stream<T: Record, R: Stream<Item = u8>>(reader: R) -> (stream: ReaderIterator<R, T>)
    requires
        reader.wf(),
    ensures
        stream.wf(),
        stream.unread() == reader.pending(),
        stream.pending() == records::<T>(reader.pending()),
{
    ReaderIterator { buffer: reader, record: PhantomData }
}

/// The bytes of a stream of records, one byte per pull.
pub struct WriterIterator<I> {
    input: I,
    chunk: Vec<u8>,
    cursor: usize,
}

impl<T: Record, I: Stream<Item = T>> WriterIterator<I> {
    /// The bytes of the record in hand that have not gone out yet.
    pub closed spec fn in_hand(&self) -> Seq<u8> {
        self.chunk@.skip(self.cursor as int)
    }

    /// The records that the upstream has yet to yield.
    pub closed spec fn upstream(&self) -> Seq<T> {
        self.input.pending()
    }

    /// What is still to come is the rest of the record in hand and then
    /// the bytes of the upstream's records.
    pub proof fn lemma_pending(&self)
        ensures
            self.pending() == self.in_hand() + packed(self.upstream()),
    {
    }
}

impl<T: Record, I: Stream<Item = T>> Stream for WriterIterator<I> {
    type Item = u8;

    closed spec fn wf(&self) -> bool {
        &&& self.input.wf()
        &&& self.cursor <= self.chunk.len()
    }

    closed spec fn pending(&self) -> Seq<u8> {
        self.chunk@.skip(self.cursor as int) + packed(self.input.pending())
    }

    fn next(&mut self) -> (item: Option<u8>)
        ensures
            old(self).in_hand().len() > 0 ==> final(self).in_hand() == old(self).in_hand().drop_first() && final(self).upstream() == old(self).upstream(),
            old(self).in_hand().len() == 0 ==> final(self).upstream() == rest(
                old(self).upstream(),
            ) && final(self).in_hand() == (if old(self).upstream().len() > 0 {
                old(self).upstream()[0].encoded().drop_first()
            } else {
                Seq::<u8>::empty()
            }),
    {
        if self.cursor >= self.chunk.len() {
            let ghost upcoming = self.input.pending();
            match self.input.next() {
                None => {
                    assert(self.pending() =~= Seq::<u8>::empty());
                    return None;
                },
                Some(record) => {
                    proof {
                        T::lemma_round_trip(record);
                    }
                    let width = T::width();
                    self.chunk = record.encode();
                    self.cursor = 0;
                    assert(self.chunk@.skip(0) =~= self.chunk@);
                    assert(self.pending() =~= old(self).pending());
                },
            }
        }
        let byte = self.chunk[self.cursor];
        self.cursor = self.cursor + 1;
        assert(self.pending() =~= old(self).pending().drop_first());
        Some(byte)
    }
}

/// Lays the records of a stream out as bytes, back to back. Whoever drains
/// the bytes into a sink stops pulling when the sink fails.
pub fn write_stream<T: Record, I: Stream<Item = T>>(input: I) -> (bytes: WriterIterator<I>)
    requires
        input.wf(),
    ensures
        bytes.wf(),
        bytes.pending() == packed(input.pending()),
        bytes.in_hand() == Seq::<u8>::empty(),
        bytes.upstream() == input.pending(),
{
    let bytes = WriterIterator { input, chunk: Vec::new(), cursor: 0 };
    assert(bytes.pending() =~= packed(input.pending()));
    bytes
}

} // verus!
