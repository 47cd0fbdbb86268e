use rustradio::blocks::stream::Split;
use rustradio::blocks::RadioBlock;
use rustradio::buffers::buffer_fixed;
use rustradio::buffers::push_buffer;
use rustradio::buffers::split_fixed;
use rustradio::buffers::zip_rails;
use rustradio::buffers::Consumer;
use rustradio::buffers::FixedBuffer2First;
use rustradio::buffers::FixedBuffer2Second;
use rustradio::buffers::Producer;
use rustradio::flow::collect;
use rustradio::flow::Stream;
use rustradio::flow::VecSource;

#[test]
fn batch_push_reports_what_went_in() {
    let mut queue = push_buffer::<i64>(3);
    let report = (Producer { inner: &mut queue }).push_slice(&[1, 2, 3, 4, 5]);
    assert_eq!(report, Err(3));

    // the consumer sees exactly the items that went in, in order
    let mut consumer = Consumer { inner: &mut queue };
    assert_eq!(consumer.next(), Some(1));
    assert_eq!(consumer.next(), Some(2));
    assert_eq!(consumer.next(), Some(3));
    // and would have to wait from here on
    assert_eq!(consumer.next(), None);
    assert_eq!(consumer.next(), None);
}

#[test]
fn batch_push_that_fits() {
    let mut queue = push_buffer::<i64>(4);
    assert_eq!((Producer { inner: &mut queue }).push_slice(&[1, 2]), Ok(()));
    assert_eq!((Producer { inner: &mut queue }).push_slice(&[3, 4]), Ok(()));
    // full to the brim: nothing more goes in
    assert_eq!((Producer { inner: &mut queue }).push_slice(&[5]), Err(0));
    assert_eq!((Producer { inner: &mut queue }).push_slice(&[]), Ok(()));
    assert_eq!((Consumer { inner: &mut queue }).next(), Some(1));
    // one slot is free again
    assert_eq!((Producer { inner: &mut queue }).push_slice(&[6, 7]), Err(1));
    let mut consumer = Consumer { inner: &mut queue };
    assert_eq!(consumer.next(), Some(2));
    assert_eq!(consumer.next(), Some(3));
    assert_eq!(consumer.next(), Some(4));
    assert_eq!(consumer.next(), Some(6));
    assert_eq!(consumer.next(), None);
}

#[test]
fn a_queue_without_capacity_takes_nothing() {
    let mut queue = push_buffer::<u8>(0);
    assert_eq!((Producer { inner: &mut queue }).push_slice(&[9]), Err(0));
    assert_eq!((Consumer { inner: &mut queue }).next(), None);
}

#[test]
fn single_buffer_passes_everything_on() {
    let items: Vec<i64> = (0..10).collect();
    for capacity in [1usize, 3, 10, 2048] {
        let buffered = buffer_fixed(VecSource::new(items.clone()), capacity);
        assert_eq!(collect(buffered), items);
    }
}

#[test]
fn single_buffer_prefetches_up_to_its_capacity() {
    let mut buffered = buffer_fixed(VecSource::new(vec![1i64, 2, 3, 4, 5]), 2);
    assert_eq!(buffered.next(), Some(1));
    assert_eq!(buffered.next(), Some(2));
    assert_eq!(buffered.next(), Some(3));
    assert_eq!(buffered.next(), Some(4));
    // the source runs dry in the middle of a prefetch
    assert_eq!(buffered.next(), Some(5));
    assert_eq!(buffered.next(), None);
    assert_eq!(buffered.next(), None);
}

#[test]
fn single_buffer_without_capacity_yields_nothing() {
    let buffered = buffer_fixed(VecSource::new(vec![1i64, 2, 3]), 0);
    assert_eq!(collect(buffered), Vec::<i64>::new());
}

#[test]
fn rails_refill_by_the_smaller_room() {
    let pairs = vec![(1i64, 10i64), (2, 20), (3, 30), (4, 40), (5, 50)];
    let mut rails = split_fixed(VecSource::new(pairs), 2, 3);

    // first rail empty: two pairs are taken, the room of the first rail
    assert!(rails.can_pull_first());
    assert_eq!((FixedBuffer2First { data: &mut rails }).next(), Some(1));
    assert_eq!((FixedBuffer2First { data: &mut rails }).next(), Some(2));
    // first rail empty again; the second rail holds two and has room for one
    assert!(rails.can_pull_first());
    assert_eq!((FixedBuffer2First { data: &mut rails }).next(), Some(3));
    // now the second rail is full: the first rail cannot be refilled
    assert!(!rails.can_pull_first());
    // the second rail still hands out what it holds, in order
    assert!(rails.can_pull_second());
    assert_eq!((FixedBuffer2Second { data: &mut rails }).next(), Some(10));
    assert_eq!((FixedBuffer2Second { data: &mut rails }).next(), Some(20));
    // and with room on the second rail the first rail goes on
    assert!(rails.can_pull_first());
    assert_eq!((FixedBuffer2First { data: &mut rails }).next(), Some(4));
    assert_eq!((FixedBuffer2Second { data: &mut rails }).next(), Some(30));
    assert_eq!((FixedBuffer2Second { data: &mut rails }).next(), Some(40));
    // second rail empty, first rail empty: the last pair is taken
    assert!(rails.can_pull_second());
    assert_eq!((FixedBuffer2Second { data: &mut rails }).next(), Some(50));
    assert_eq!((FixedBuffer2First { data: &mut rails }).next(), Some(5));
    // the source is exhausted
    assert!(rails.can_pull_first());
    assert_eq!((FixedBuffer2First { data: &mut rails }).next(), None);
    assert!(rails.can_pull_second());
    assert_eq!((FixedBuffer2Second { data: &mut rails }).next(), None);
}

#[test]
fn a_rail_read_alone_runs_out_of_room() {
    let pairs = vec![(1i64, 10i64), (2, 20), (3, 30)];
    let mut rails = split_fixed(VecSource::new(pairs), 2, 2);
    assert_eq!((FixedBuffer2Second { data: &mut rails }).next(), Some(10));
    assert_eq!((FixedBuffer2Second { data: &mut rails }).next(), Some(20));
    // the second rail is empty and the first rail is full with 1 and 2,
    // although the source still holds a pair
    assert!(!rails.can_pull_second());
    assert!(rails.can_pull_first());
    assert_eq!((FixedBuffer2First { data: &mut rails }).next(), Some(1));
    assert!(rails.can_pull_second());
    assert_eq!((FixedBuffer2Second { data: &mut rails }).next(), Some(30));
}

#[test]
fn a_rail_without_capacity_cannot_be_pulled() {
    let rails = split_fixed(VecSource::new(vec![(1i64, 2i64)]), 0, 4);
    assert!(!rails.can_pull_first());
    assert!(!rails.can_pull_second());
}

#[test]
fn joined_rails_give_the_pairs_back() {
    let pairs = vec![(1i64, 10i64), (2, 20), (3, 30), (4, 40), (5, 50)];
    for (cap_a, cap_b) in [(1usize, 1usize), (2, 3), (3, 2), (7, 7)] {
        let rails = split_fixed(VecSource::new(pairs.clone()), cap_a, cap_b);
        assert_eq!(collect(zip_rails(rails)), pairs);
    }
}

#[test]
fn split_then_join_doubles_each_item() {
    let rails = split_fixed(Split.process(VecSource::new(vec![4i64, 5, 6])), 2, 2);
    assert_eq!(collect(zip_rails(rails)), vec![(4, 4), (5, 5), (6, 6)]);
}

#[test]
fn paired_wiring_with_explicit_capacities() {
    for (cap_a, cap_b, capacity) in [(1usize, 1usize, 1usize), (2, 5, 3), (4, 2, 8)] {
        let source = VecSource::new(vec![0i64, 1, 2, 3, 4]);
        let mut rails = rustradio::connect_split_sized(&Split, source, cap_a, cap_b);
        // either rail alone gets as far as the other rail has room
        let mut ahead = 0;
        while ahead < 5 && rails.can_pull_first() {
            assert_eq!((FixedBuffer2First { data: &mut rails }).next(), Some(ahead));
            ahead += 1;
        }
        assert_eq!(ahead as usize, cap_b.min(5));
        for behind in 0..ahead {
            assert_eq!((FixedBuffer2Second { data: &mut rails }).next(), Some(behind));
        }
        // level again: the rails can be joined
        let combined = rustradio::connect_zip_sized(
            &rustradio::blocks::stream::Multiply,
            rails,
            capacity,
        );
        let squares: Vec<i64> = (ahead..5).map(|x| x * x).collect();
        assert_eq!(collect(combined), squares);
    }
}

#[test]
fn paired_wiring_without_buffer_capacity_lets_nothing_through() {
    let source = VecSource::new(vec![1i64, 2, 3]);
    let rails = rustradio::connect_split_sized(&Split, source, 2, 2);
    let combined = rustradio::connect_zip_sized(&rustradio::blocks::stream::Multiply, rails, 0);
    assert_eq!(collect(combined), Vec::<i64>::new());
}
