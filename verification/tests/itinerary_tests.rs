use tasklist::Error;
use tasklist::Itinerary;
use tasklist::TimeBlock;

const H: u32 = 3600;

#[test]
fn block_duration_and_overlap() {
    let b = TimeBlock::from_start_end(9 * H, 17 * H);
    assert_eq!(b.duration(), 8 * H);
    let c = TimeBlock::from_start_end(10 * H + 1800, 11 * H + 1800);
    let d = TimeBlock::from_start_end(10 * H, 11 * H);
    assert!(c.overlaps(&d));
    assert!(d.overlaps(&c));
    let e = TimeBlock::from_start_end(17 * H, 18 * H);
    assert!(!b.overlaps(&e));
    assert!(!e.overlaps(&b));
}

#[test]
fn single_block_time_between() {
    // One block 09:00-17:00.
    let mut itin = Itinerary::new();
    itin.add_timeblock(TimeBlock::from_start_end(9 * H, 17 * H)).unwrap();
    assert_eq!(itin.time_between(7 * H, 10 * H), 1 * H as u64);
    assert_eq!(itin.time_between(10 * H, 16 * H), 6 * H as u64);
    assert_eq!(itin.time_between(18 * H, 20 * H), 0);
}

#[test]
fn overlapping_insert_fails_and_leaves_itinerary_unchanged() {
    let mut itin = Itinerary::new();
    let kept = TimeBlock::from_start_end(10 * H + 1800, 11 * H + 1800);
    itin.add_timeblock(kept).unwrap();
    let r = itin.add_timeblock(TimeBlock::from_start_end(10 * H, 11 * H));
    assert_eq!(r, Err(Error::OverlapError));
    assert_eq!(itin.len(), 1);
    assert_eq!(itin.block_at(0), kept);
}

#[test]
fn remove_then_readd_equals_single_insert() {
    let b = TimeBlock::from_start_end(9 * H, 17 * H);
    let mut once = Itinerary::new();
    once.add_timeblock(b).unwrap();

    let mut twice = Itinerary::new();
    twice.add_timeblock(b).unwrap();
    assert!(twice.remove_timeblock(b));
    assert_eq!(twice.len(), 0);
    twice.add_timeblock(b).unwrap();

    assert_eq!(once.len(), twice.len());
    assert_eq!(once.block_at(0), twice.block_at(0));
}

#[test]
fn remove_absent_block_returns_false() {
    let mut itin = Itinerary::new();
    itin.add_timeblock(TimeBlock::from_start_end(9 * H, 10 * H)).unwrap();
    assert!(!itin.remove_timeblock(TimeBlock::from_start_end(11 * H, 12 * H)));
    assert_eq!(itin.len(), 1);
}

#[test]
fn empty_range_covers_nothing() {
    let mut itin = Itinerary::new();
    itin.add_timeblock(TimeBlock::from_start_end(9 * H, 17 * H)).unwrap();
    assert_eq!(itin.time_between(12 * H, 12 * H), 0);
    assert_eq!(Itinerary::new().time_between(0, 86400), 0);
}

#[test]
fn single_block_full_span_equals_duration() {
    let b = TimeBlock::from_start_end(9 * H, 17 * H);
    let mut itin = Itinerary::new();
    itin.add_timeblock(b).unwrap();
    assert_eq!(itin.time_between(b.start, b.end), b.duration() as u64);
}

#[test]
fn blocks_kept_sorted_by_start() {
    let mut itin = Itinerary::new();
    itin.add_timeblock(TimeBlock::from_start_end(14 * H, 15 * H)).unwrap();
    itin.add_timeblock(TimeBlock::from_start_end(9 * H, 10 * H)).unwrap();
    itin.add_timeblock(TimeBlock::from_start_end(11 * H, 12 * H)).unwrap();
    assert_eq!(itin.len(), 3);
    assert_eq!(itin.block_at(0).start, 9 * H);
    assert_eq!(itin.block_at(1).start, 11 * H);
    assert_eq!(itin.block_at(2).start, 14 * H);
}

#[test]
fn day_consumption_within_one_block() {
    let mut itin = Itinerary::new();
    itin.add_timeblock(TimeBlock::from_start_end(9 * H, 17 * H)).unwrap();
    // Starting at 08:00, three hours of work end at 12:00.
    let (t, rem) = itin.earliest_complete(8 * H, 3 * H as u64);
    assert_eq!(rem, 0);
    assert_eq!(t, 12 * H);
}

#[test]
fn day_consumption_carries_remainder() {
    let mut itin = Itinerary::new();
    itin.add_timeblock(TimeBlock::from_start_end(9 * H, 11 * H)).unwrap();
    let (t, rem) = itin.earliest_complete(0, 5 * H as u64);
    assert_eq!(t, 86400);
    assert_eq!(rem, 3 * H as u64);
}

#[test]
fn day_consumption_spans_blocks_in_start_order() {
    let mut itin = Itinerary::new();
    itin.add_timeblock(TimeBlock::from_start_end(13 * H, 15 * H)).unwrap();
    itin.add_timeblock(TimeBlock::from_start_end(9 * H, 10 * H)).unwrap();
    // One hour from the morning block, then one more from the afternoon:
    // two hours finish at 14:00.
    let (t, rem) = itin.earliest_complete(0, 2 * H as u64);
    assert_eq!(rem, 0);
    assert_eq!(t, 14 * H);
}

#[test]
fn zero_duration_completes_immediately() {
    let mut itin = Itinerary::new();
    itin.add_timeblock(TimeBlock::from_start_end(9 * H, 17 * H)).unwrap();
    let (t, rem) = itin.earliest_complete(7 * H, 0);
    assert_eq!((t, rem), (7 * H, 0));
}
