use tasklist::DateTime;
use tasklist::Error;
use tasklist::Itinerary;
use tasklist::Schedule;
use tasklist::TimeBlock;

const H: u32 = 3600;

fn one_block_itinerary(start: u32, end: u32) -> Itinerary {
    let mut itin = Itinerary::new();
    itin.add_timeblock(TimeBlock::from_start_end(start, end)).unwrap();
    itin
}

#[test]
fn override_beats_default() {
    let mut s = Schedule::new();
    // Day 8 is a Monday (day 1 is one too); weekday index 0.
    s.set_default_itinerary(0, one_block_itinerary(9 * H, 10 * H));
    assert_eq!(s.get_itinerary(8).len(), 1);
    s.set_itinerary(8, one_block_itinerary(13 * H, 15 * H));
    assert_eq!(s.get_itinerary(8).block_at(0).start, 13 * H);
    // Another Monday still uses the default.
    assert_eq!(s.get_itinerary(15).block_at(0).start, 9 * H);
    // A Tuesday has nothing.
    assert_eq!(s.get_itinerary(9).len(), 0);
}

#[test]
fn time_between_same_day() {
    let mut s = Schedule::new();
    s.set_itinerary(10, one_block_itinerary(9 * H, 17 * H));
    let start = DateTime { date: 10, time: 7 * H };
    let end = DateTime { date: 10, time: 10 * H };
    assert_eq!(s.time_between(start, end), 1 * H as u64);
}

#[test]
fn time_between_across_days() {
    let mut s = Schedule::new();
    s.set_itinerary(10, one_block_itinerary(9 * H, 17 * H));
    s.set_itinerary(11, one_block_itinerary(9 * H, 17 * H));
    s.set_itinerary(12, one_block_itinerary(9 * H, 17 * H));
    // From 16:00 on day 10 to 10:00 on day 12: 1h + 8h + 1h.
    let start = DateTime { date: 10, time: 16 * H };
    let end = DateTime { date: 12, time: 10 * H };
    assert_eq!(s.time_between(start, end), 10 * H as u64);
}

#[test]
fn time_between_reversed_range_is_zero() {
    let mut s = Schedule::new();
    s.set_itinerary(10, one_block_itinerary(9 * H, 17 * H));
    let start = DateTime { date: 12, time: 0 };
    let end = DateTime { date: 10, time: 0 };
    assert_eq!(s.time_between(start, end), 0);
}

#[test]
fn earliest_complete_within_day() {
    let mut s = Schedule::new();
    s.set_itinerary(10, one_block_itinerary(9 * H, 17 * H));
    // Starting at 08:00 with three hours of work: done at 12:00 same day.
    let start = DateTime { date: 10, time: 8 * H };
    let r = s.earliest_complete_from(start, 3 * H as u64);
    assert_eq!(r, Ok(DateTime { date: 10, time: 12 * H }));
}

#[test]
fn earliest_complete_carries_to_next_day() {
    let mut s = Schedule::new();
    s.set_itinerary(10, one_block_itinerary(9 * H, 11 * H));
    s.set_itinerary(11, one_block_itinerary(9 * H, 17 * H));
    // Five hours: two on day 10, three more ending at 12:00 on day 11.
    let start = DateTime { date: 10, time: 0 };
    let r = s.earliest_complete_from(start, 5 * H as u64);
    assert_eq!(r, Ok(DateTime { date: 11, time: 12 * H }));
}

#[test]
fn earliest_complete_uses_weekly_default() {
    let mut s = Schedule::new();
    for w in 0..7 {
        s.set_default_itinerary(w, one_block_itinerary(9 * H, 10 * H));
    }
    // One hour per day, starting mid-day on day 20: the first full block
    // is on day 21, the third on day 23.
    let start = DateTime { date: 20, time: 12 * H };
    let r = s.earliest_complete_from(start, 3 * H as u64);
    assert_eq!(r, Ok(DateTime { date: 23, time: 10 * H }));
}

#[test]
fn earliest_complete_zero_duration_returns_start() {
    let s = Schedule::new();
    let start = DateTime { date: 10, time: 5 * H };
    assert_eq!(s.earliest_complete_from(start, 0), Ok(start));
}

#[test]
fn empty_schedule_is_exhausted() {
    let s = Schedule::new();
    let start = DateTime { date: 0, time: 0 };
    assert_eq!(s.earliest_complete_from(start, 1), Err(Error::ScheduleExhausted));
}

#[test]
fn bounded_overrides_alone_can_be_exhausted() {
    let mut s = Schedule::new();
    s.set_itinerary(10, one_block_itinerary(9 * H, 10 * H));
    let start = DateTime { date: 9, time: 0 };
    // Only one hour exists in all the future: two cannot be found.
    assert_eq!(s.earliest_complete_from(start, 2 * H as u64), Err(Error::ScheduleExhausted));
    // One hour can, and ends when the block does.
    assert_eq!(
        s.earliest_complete_from(start, 1 * H as u64),
        Ok(DateTime { date: 10, time: 10 * H })
    );
}

#[test]
fn clean_before_drops_only_past_overrides() {
    let mut s = Schedule::new();
    s.set_itinerary(5, one_block_itinerary(9 * H, 10 * H));
    s.set_itinerary(10, one_block_itinerary(11 * H, 12 * H));
    s.clean_before(8);
    assert_eq!(s.get_itinerary(5).len(), 0);
    assert_eq!(s.get_itinerary(10).len(), 1);
    assert_eq!(s.get_itinerary(10).block_at(0).start, 11 * H);
}

#[test]
fn time_until_past_instant_is_zero() {
    // Day 0 is far in the past, so no availability lies between now and it.
    let mut s = Schedule::new();
    for w in 0..7 {
        s.set_default_itinerary(w, one_block_itinerary(9 * H, 17 * H));
    }
    assert_eq!(s.time_until(DateTime { date: 0, time: 0 }), 0);
}

#[test]
fn datetime_order_and_later() {
    let a = DateTime { date: 5, time: 100 };
    let b = DateTime { date: 5, time: 200 };
    let c = DateTime { date: 6, time: 0 };
    assert!(a.le(&b));
    assert!(b.le(&c));
    assert!(!c.le(&a));
    assert_eq!(a.later(b), b);
    assert_eq!(c.later(a), c);
}

#[test]
fn clean_drops_ancient_overrides() {
    // Day 10 lies almost two millennia in the past, so cleaning against
    // the clock always prunes it.
    let mut s = Schedule::new();
    s.set_itinerary(10, one_block_itinerary(9 * H, 10 * H));
    s.clean();
    assert_eq!(s.get_itinerary(10).len(), 0);
}
