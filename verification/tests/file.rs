use rustradio::file::read_stream;
use rustradio::file::write_stream;
use rustradio::file::Record;
use rustradio::flow::collect;
use rustradio::flow::Stream;
use rustradio::flow::VecSource;
use rustradio::sources::read_interleaved_int16;

#[test]
fn write_then_read() {
    let source: Vec<(f32, f32)> = vec![(0f32, 3f32), (1f32, 2f32), (2f32, 1f32), (3f32, 0f32)];
    let patterns: Vec<(u32, u32)> = source.iter().map(|&(re, im)| (re.to_bits(), im.to_bits())).collect();

    let written: Vec<u8> = collect(write_stream(VecSource::new(patterns)));
    assert_eq!(written.len(), 32);
    let read: Vec<(u32, u32)> = collect(read_stream(VecSource::new(written)));
    let result: Vec<(f32, f32)> =
        read.iter().map(|&(re, im)| (f32::from_bits(re), f32::from_bits(im))).collect();
    assert_eq!(source, result);
}

#[test]
fn records_are_little_endian() {
    assert_eq!(0x11223344u32.encode(), vec![0x44u8, 0x33, 0x22, 0x11]);
    assert_eq!(u32::decode(&[0x44u8, 0x33, 0x22, 0x11]), 0x11223344u32);
    assert_eq!((-2i16).encode(), vec![0xfeu8, 0xff]);
    assert_eq!(i16::decode(&[0xfeu8, 0xff]), -2i16);
    assert_eq!((1i16, -1i16).encode(), vec![0x01u8, 0x00, 0xff, 0xff]);
    assert_eq!(<(i16, i16)>::decode(&[0x01u8, 0x00, 0xff, 0xff]), (1i16, -1i16));
    assert_eq!((1u32, 0x0100u32).encode(), vec![1u8, 0, 0, 0, 0, 1, 0, 0]);
    assert_eq!(<u32 as Record>::width(), 4);
    assert_eq!(<i16 as Record>::width(), 2);
    assert_eq!(<(u32, u32) as Record>::width(), 8);
    assert_eq!(<(i16, i16) as Record>::width(), 4);
}

#[test]
fn a_record_cut_short_ends_the_stream() {
    // two whole records and three bytes of a third
    let bytes = vec![1u8, 0, 0, 0, 2, 0, 0, 0, 3, 0, 0];
    let mut records = read_stream::<u32, _>(VecSource::new(bytes));
    assert_eq!(records.next(), Some(1u32));
    assert_eq!(records.next(), Some(2u32));
    assert_eq!(records.next(), None);
    assert_eq!(records.next(), None);
}

#[test]
fn no_bytes_no_records() {
    let read: Vec<u32> = collect(read_stream(VecSource::new(Vec::<u8>::new())));
    assert_eq!(read, Vec::<u32>::new());
    let written: Vec<u8> = collect(write_stream(VecSource::new(Vec::<i16>::new())));
    assert_eq!(written, Vec::<u8>::new());
}

#[test]
fn interleaved_int16_samples() {
    let bytes = vec![0x10u8, 0x00, 0xf0, 0xff, 0x00, 0x80, 0xff, 0x7f, 0x05];
    let samples: Vec<(i16, i16)> = collect(read_interleaved_int16(VecSource::new(bytes)));
    assert_eq!(samples, vec![(16i16, -16i16), (i16::MIN, i16::MAX)]);
}
