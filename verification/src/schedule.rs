//! The schedule: per-date itinerary overrides layered over the weekly
//! default template, with availability queries over ranges of time and the
//! earliest-completion search.

use vstd::prelude::*;

use crate::Error;
use crate::datetime::DateTime;
use crate::datetime::MAX_DAY;
use crate::datetime::now_datetime;
use crate::datetime::spec_weekday;
use crate::datetime::weekday_of;
use crate::default_schedule::DefaultSchedule;
use crate::itinerary::Itinerary;
use crate::itinerary::itin_time_between;
use crate::itinerary::itin_wf;
use crate::itinerary::lemma_itin_tb_additive;
use crate::itinerary::lemma_itin_tb_empty_range;
use crate::itinerary::lemma_itin_tb_nonneg;
use crate::itinerary::lemma_itin_tb_bound;
use crate::timeblock::SECONDS_PER_DAY;
use crate::timeblock::TimeBlock;

verus! {

/// The first override for day `d` among the entries at `i..`, if any.
pub open spec fn find_override_from(
    s: Seq<(u64, Itinerary)>,
    d: u64,
    i: int,
) -> Option<Itinerary>
    decreases s.len() - i,
{
    if i < 0 || i >= s.len() {
        None
    } else if s[i].0 == d {
        Some(s[i].1)
    } else {
        find_override_from(s, d, i + 1)
    }
}

/// Entries whose day is not `d` do not affect the lookup.
proof fn lemma_find_skip(s: Seq<(u64, Itinerary)>, d: u64, k: int, i: int)
    requires
        0 <= k <= i <= s.len(),
        forall|j: int| k <= j < i ==> (#[trigger] s[j]).0 != d,
    ensures
        find_override_from(s, d, k) == find_override_from(s, d, i),
    decreases i - k,
{
    if k < i {
        lemma_find_skip(s, d, k + 1, i);
    }
}

/// If no entry at `i..` has day `d`, the lookup finds nothing.
proof fn lemma_find_none(s: Seq<(u64, Itinerary)>, d: u64, i: int)
    requires
        forall|j: int| i <= j < s.len() ==> (#[trigger] s[j]).0 != d,
    ensures
        find_override_from(s, d, i) is None,
    decreases s.len() - i,
{
    if 0 <= i < s.len() {
        lemma_find_none(s, d, i + 1);
    }
}

/// A found override is one of the entries.
proof fn lemma_find_is_element(s: Seq<(u64, Itinerary)>, d: u64, i: int)
    requires
        find_override_from(s, d, i) is Some,
    ensures
        exists|j: int|
            i <= j < s.len() && #[trigger] s[j] == (d, find_override_from(s, d, i)->Some_0),
    decreases s.len() - i,
{
    if 0 <= i < s.len() {
        if s[i].0 == d {
            assert(s[i] == (d, find_override_from(s, d, i)->Some_0));
        } else {
            lemma_find_is_element(s, d, i + 1);
        }
    }
}

/// Two entry sequences with the same days, agreeing on every entry for day
/// `d`, yield the same lookup for `d`.
proof fn lemma_find_same(s: Seq<(u64, Itinerary)>, t: Seq<(u64, Itinerary)>, d: u64, i: int)
    requires
        s.len() == t.len(),
        forall|j: int| 0 <= j < s.len() ==> (#[trigger] s[j]).0 == (#[trigger] t[j]).0,
        forall|j: int| 0 <= j < s.len() && (#[trigger] s[j]).0 == d ==> s[j].1 == t[j].1,
    ensures
        find_override_from(s, d, i) == find_override_from(t, d, i),
    decreases s.len() - i,
{
    if 0 <= i < s.len() {
        lemma_find_same(s, t, d, i + 1);
    }
}

/// Appending an entry for a different day does not affect the lookup.
proof fn lemma_find_append(s: Seq<(u64, Itinerary)>, e: (u64, Itinerary), d: u64, i: int)
    requires
        e.0 != d,
        0 <= i,
    ensures
        find_override_from(s.push(e), d, i) == find_override_from(s, d, i),
    decreases s.len() + 1 - i,
{
    let t = s.push(e);
    if i < t.len() {
        if i < s.len() {
            assert(t[i] == s[i]);
            lemma_find_append(s, e, d, i + 1);
        } else {
            assert(t[i] == e);
        }
    }
}

/// No two entries name the same day.
pub open spec fn distinct_days(s: Seq<(u64, Itinerary)>) -> bool {
    forall|i: int, j: int|
        #![trigger s[i], s[j]]
        0 <= i < j < s.len() ==> s[i].0 != s[j].0
}

/// With distinct days, an entry that is present is the one the lookup finds.
proof fn lemma_find_contains_from(s: Seq<(u64, Itinerary)>, d: u64, v: Itinerary, i: int)
    requires
        distinct_days(s),
        0 <= i,
        exists|j: int| i <= j < s.len() && #[trigger] s[j] == (d, v),
    ensures
        find_override_from(s, d, i) == Some(v),
    decreases s.len() - i,
{
    let j = choose|j: int| i <= j < s.len() && #[trigger] s[j] == (d, v);
    if s[i].0 == d {
        if j != i {
            assert(s[i].0 == s[j].0);
            assert(false);
        }
    } else {
        assert(j != i);
        lemma_find_contains_from(s, d, v, i + 1);
    }
}

/// Two override lists with distinct days that hold the same entries for
/// days at or after `today` agree on lookups for such days.
proof fn lemma_find_agree_mem(
    s: Seq<(u64, Itinerary)>,
    t: Seq<(u64, Itinerary)>,
    d: u64,
    today: u64,
)
    requires
        d >= today,
        distinct_days(s),
        distinct_days(t),
        forall|p: (u64, Itinerary)| t.contains(p) ==> s.contains(p),
        forall|p: (u64, Itinerary)| s.contains(p) && p.0 >= today ==> t.contains(p),
    ensures
        find_override_from(s, d, 0) == find_override_from(t, d, 0),
{
    match find_override_from(s, d, 0) {
        Some(v) => {
            lemma_find_is_element(s, d, 0);
            assert(s.contains((d, v)));
            assert(t.contains((d, v)));
            lemma_find_contains_from(t, d, v, 0);
        },
        None => {
            if find_override_from(t, d, 0) is Some {
                let v = find_override_from(t, d, 0)->Some_0;
                lemma_find_is_element(t, d, 0);
                assert(t.contains((d, v)));
                assert(s.contains((d, v)));
                lemma_find_contains_from(s, d, v, 0);
                assert(false);
            }
        },
    }
}

/// A day that occurs among the entries is found.
proof fn lemma_find_some_of_key(s: Seq<(u64, Itinerary)>, d: u64, i: int)
    requires
        0 <= i,
        exists|j: int| i <= j < s.len() && (#[trigger] s[j]).0 == d,
    ensures
        find_override_from(s, d, i) is Some,
    decreases s.len() - i,
{
    if s[i].0 != d {
        let j = choose|j: int| i <= j < s.len() && (#[trigger] s[j]).0 == d;
        assert(j != i);
        lemma_find_some_of_key(s, d, i + 1);
    }
}

/// Any sub-range of a day with no availability has none either.
proof fn lemma_itin_subrange_zero(s: Seq<TimeBlock>, t0: int, t1: int)
    requires
        0 <= t0,
        t1 <= SECONDS_PER_DAY,
        itin_time_between(s, 0, SECONDS_PER_DAY as int) == 0,
    ensures
        itin_time_between(s, t0, t1) == 0,
{
    if t1 <= t0 {
        lemma_itin_tb_empty_range(s, t0, t1, 0);
    } else {
        lemma_itin_tb_additive(s, 0, t0, t1, 0);
        lemma_itin_tb_nonneg(s, 0, t0, 0);
        lemma_itin_tb_nonneg(s, t0, t1, 0);
        lemma_itin_tb_additive(s, 0, t1, SECONDS_PER_DAY as int, 0);
        lemma_itin_tb_nonneg(s, t1, SECONDS_PER_DAY as int, 0);
    }
}

/// `post` is `pre` with every override for a date before `today` dropped
/// and every other override kept.
pub open spec fn overrides_cleaned(pre: Schedule, post: Schedule, today: u64) -> bool {
    (forall|d: u64| d >= today ==> post.spec_override_for(d) == pre.spec_override_for(d))
    && (forall|d: u64| d < today ==> post.spec_override_for(d) is None)
}

/// Per-date itinerary overrides on top of the weekly default template.
#[derive(Debug)]
pub struct Schedule {
    overrides: Vec<(u64, Itinerary)>,
    default_schedule: DefaultSchedule,
}

impl Schedule {
    /// The override entries, as (day, itinerary) pairs.
    pub closed spec fn spec_overrides(self) -> Seq<(u64, Itinerary)> {
        self.overrides@
    }

    /// The weekly default template.
    pub closed spec fn spec_default(self) -> DefaultSchedule {
        self.default_schedule
    }

    /// The schedule's invariant: override days are distinct, every override
    /// itinerary is well formed, and the default template is well formed.
    pub open spec fn wf(self) -> bool {
        self.spec_default().wf()
        && distinct_days(self.spec_overrides())
        && (forall|i: int|
            0 <= i < self.spec_overrides().len()
                ==> itin_wf((#[trigger] self.spec_overrides()[i]).1@))
    }

    /// The override itinerary in force for day `d`, if any.
    pub open spec fn spec_override_for(self, d: u64) -> Option<Itinerary> {
        find_override_from(self.spec_overrides(), d, 0)
    }

    /// The blocks in force for day `d`: the override if set, else the
    /// default template's entry for that weekday.
    pub open spec fn spec_itin_for(self, d: u64) -> Seq<TimeBlock> {
        match self.spec_override_for(d) {
            Some(it) => it@,
            None => self.spec_default().spec_week()[spec_weekday(d)]@,
        }
    }

    /// The blocks in force for any day are well formed.
    pub proof fn lemma_itin_for_wf(self, d: u64)
        requires
            self.wf(),
        ensures
            itin_wf(self.spec_itin_for(d)),
    {
        if self.spec_override_for(d) is Some {
            lemma_find_is_element(self.spec_overrides(), d, 0);
        }
    }

    /// A schedule with no overrides and an all-empty default week.
    pub fn new() -> (r: Schedule)
        ensures
            r.wf(),
            r.spec_overrides() == Seq::<(u64, Itinerary)>::empty(),
            forall|d: u64| r.spec_itin_for(d) == Seq::<TimeBlock>::empty(),
    {
        let r = Schedule { overrides: Vec::new(), default_schedule: DefaultSchedule::new() };
        proof {
            assert forall|d: u64| r.spec_itin_for(d) == Seq::<TimeBlock>::empty() by {
                assert(r.spec_override_for(d) is None);
            }
        }
        r
    }

    /// The itinerary in force for `date`: the override if one is set, else
    /// the default template's itinerary for that weekday.
    pub fn get_itinerary(&self, date: u64) -> (r: &Itinerary)
        requires
            self.wf(),
            date <= MAX_DAY,
        ensures
            r@ == self.spec_itin_for(date),
            r.wf(),
    {
        let ghost s = self.overrides@;
        let mut i: usize = 0;
        while i < self.overrides.len()
            invariant
                self.overrides@ == s,
                self.wf(),
                i <= s.len(),
                forall|j: int| 0 <= j < i ==> (#[trigger] s[j]).0 != date,
            decreases s.len() - i,
        {
            let p = &self.overrides[i];
            if p.0 == date {
                proof {
                    lemma_find_skip(s, date, 0, i as int);
                }
                return &p.1;
            }
            i += 1;
        }
        proof {
            lemma_find_none(s, date, 0);
        }
        let w = weekday_of(date);
        self.default_schedule.get_itinerary(w)
    }

    /// The default template's itinerary for a weekday, 0 for Monday.
    pub fn get_default_itinerary(&self, weekday: usize) -> (r: &Itinerary)
        requires
            self.wf(),
            weekday < 7,
        ensures
            *r == self.spec_default().spec_week()[weekday as int],
            r.wf(),
    {
        self.default_schedule.get_itinerary(weekday)
    }

    /// The days that carry an itinerary override, each once.
    pub fn override_days(&self) -> (r: Vec<u64>)
        requires
            self.wf(),
        ensures
            r@.no_duplicates(),
            forall|d: u64| #[trigger] r@.contains(d) <==> self.spec_override_for(d) is Some,
    {
        let ghost s = self.overrides@;
        let mut r: Vec<u64> = Vec::new();
        let mut i: usize = 0;
        while i < self.overrides.len()
            invariant
                self.overrides@ == s,
                self.wf(),
                i <= s.len(),
                r@.len() == i,
                forall|k: int| 0 <= k < i ==> #[trigger] r@[k] == s[k].0,
            decreases s.len() - i,
        {
            r.push(self.overrides[i].0);
            i += 1;
        }
        proof {
            assert forall|d: u64| #[trigger] r@.contains(d) implies self.spec_override_for(d)
                is Some by {
                let k = choose|k: int| 0 <= k < r@.len() && r@[k] == d;
                assert(s[k].0 == d);
                lemma_find_some_of_key(s, d, 0);
            }
            assert forall|d: u64| self.spec_override_for(d) is Some implies r@.contains(d) by {
                lemma_find_is_element(s, d, 0);
                let j = choose|j: int|
                    0 <= j < s.len() && #[trigger] s[j] == (d, self.spec_override_for(d)->Some_0);
                assert(r@[j] == d);
            }
            assert forall|a: int, b: int| 0 <= a < b < r@.len() implies r@[a] != r@[b] by {
                assert(s[a].0 != s[b].0);
            }
        }
        r
    }

    /// Sets the itinerary override for a specific date, replacing any
    /// previous override wholesale.
    pub fn set_itinerary(&mut self, date: u64, itinerary: Itinerary)
        requires
            old(self).wf(),
            itinerary.wf(),
        ensures
            final(self).wf(),
            final(self).spec_override_for(date) == Some(itinerary),
            final(self).spec_itin_for(date) == itinerary@,
            forall|d: u64|
                d != date ==> final(self).spec_override_for(d) == old(self).spec_override_for(d),
            forall|d: u64|
                d != date ==> final(self).spec_itin_for(d) == old(self).spec_itin_for(d),
            final(self).spec_default() == old(self).spec_default(),
    {
        let ghost s = self.overrides@;
        let mut i: usize = 0;
        while i < self.overrides.len()
            invariant
                self.overrides@ == s,
                s == old(self).spec_overrides(),
                self.default_schedule == old(self).spec_default(),
                old(self).wf(),
                itinerary.wf(),
                i <= s.len(),
                forall|j: int| 0 <= j < i ==> (#[trigger] s[j]).0 != date,
            decreases s.len() - i,
        {
            if self.overrides[i].0 == date {
                self.overrides[i] = (date, itinerary);
                proof {
                    let t = self.overrides@;
                    assert(t == s.update(i as int, (date, itinerary)));
                    assert(forall|j: int|
                        0 <= j < s.len() ==> (#[trigger] t[j]).0 == (#[trigger] s[j]).0);
                    assert forall|a: int, b: int|
                        #![trigger t[a], t[b]]
                        0 <= a < b < t.len() implies t[a].0 != t[b].0 by {
                        assert(s[a].0 != s[b].0);
                    }
                    assert forall|a: int| 0 <= a < t.len() implies itin_wf(
                        (#[trigger] t[a]).1@,
                    ) by {
                        if a != i {
                            assert(itin_wf(s[a].1@));
                        }
                    }
                    lemma_find_skip(t, date, 0, i as int);
                    assert(find_override_from(t, date, i as int) == Some(itinerary));
                    assert forall|d: u64| d != date implies final(self).spec_override_for(d)
                        == old(self).spec_override_for(d) by {
                        lemma_find_same(s, t, d, 0);
                    }
                }
                return;
            }
            i += 1;
        }
        proof {
            lemma_find_none(s, date, 0);
        }
        self.overrides.push((date, itinerary));
        proof {
            let t = self.overrides@;
            assert(t == s.push((date, itinerary)));
            assert(forall|j: int| 0 <= j < s.len() ==> t[j] == s[j]);
            lemma_find_skip(t, date, 0, s.len() as int);
            assert(t[s.len() as int] == (date, itinerary));
            assert(find_override_from(t, date, s.len() as int) == Some(itinerary));
            assert forall|d: u64| d != date implies final(self).spec_override_for(d)
                == old(self).spec_override_for(d) by {
                lemma_find_append(s, (date, itinerary), d, 0);
            }
        }
    }

    /// The point at which day `d` of a walk that began at `start` resumes:
    /// `start` itself on the first day, midnight afterward.
    pub open spec fn day_cursor(start: DateTime, d: u64) -> DateTime {
        if d == start.date {
            start
        } else {
            DateTime { date: d, time: 0 }
        }
    }

    /// Seconds of availability between `start` and `end`: day by day, the
    /// itinerary in force is intersected with the part of `[start, end)`
    /// that falls on that day.
    pub open spec fn spec_time_between(self, start: DateTime, end: DateTime) -> int
        decreases end.date - start.date,
    {
        if start.date > end.date {
            0
        } else if start.date == end.date {
            itin_time_between(self.spec_itin_for(start.date), start.time as int, end.time as int)
        } else {
            itin_time_between(
                self.spec_itin_for(start.date),
                start.time as int,
                SECONDS_PER_DAY as int,
            ) + self.spec_time_between(
                DateTime { date: (start.date + 1) as u64, time: 0 },
                end,
            )
        }
    }

    /// Availability is never negative.
    pub proof fn lemma_tb_nonneg(self, a: DateTime, b: DateTime)
        ensures
            0 <= self.spec_time_between(a, b),
        decreases b.date - a.date,
    {
        if a.date > b.date {
        } else if a.date == b.date {
            lemma_itin_tb_nonneg(self.spec_itin_for(a.date), a.time as int, b.time as int, 0);
        } else {
            lemma_itin_tb_nonneg(
                self.spec_itin_for(a.date),
                a.time as int,
                SECONDS_PER_DAY as int,
                0,
            );
            self.lemma_tb_nonneg(DateTime { date: (a.date + 1) as u64, time: 0 }, b);
        }
    }

    /// Availability over a range is at most a day's worth per day touched.
    pub proof fn lemma_tb_bound(self, a: DateTime, b: DateTime)
        requires
            self.wf(),
            a.time <= SECONDS_PER_DAY,
            b.time <= SECONDS_PER_DAY,
        ensures
            self.spec_time_between(a, b) <= if b.date >= a.date {
                (b.date - a.date + 1) * (SECONDS_PER_DAY as int)
            } else {
                0
            },
        decreases b.date - a.date,
    {
        if a.date > b.date {
        } else if a.date == b.date {
            self.lemma_itin_for_wf(a.date);
            lemma_itin_tb_bound(self.spec_itin_for(a.date), a.time as int, b.time as int, 0);
        } else {
            self.lemma_itin_for_wf(a.date);
            lemma_itin_tb_bound(
                self.spec_itin_for(a.date),
                a.time as int,
                SECONDS_PER_DAY as int,
                0,
            );
            self.lemma_tb_bound(DateTime { date: (a.date + 1) as u64, time: 0 }, b);
        }
    }

    /// Availability splits at any point of the range.
    pub proof fn lemma_tb_additive(self, a: DateTime, b: DateTime, c: DateTime)
        requires
            a.spec_le(b),
            b.spec_le(c),
            a.time <= SECONDS_PER_DAY,
            b.time <= SECONDS_PER_DAY,
            c.time <= SECONDS_PER_DAY,
        ensures
            self.spec_time_between(a, c) == self.spec_time_between(a, b) + self.spec_time_between(
                b,
                c,
            ),
        decreases b.date - a.date,
    {
        if a.date == b.date {
            if b.date == c.date {
                lemma_itin_tb_additive(
                    self.spec_itin_for(a.date),
                    a.time as int,
                    b.time as int,
                    c.time as int,
                    0,
                );
            } else {
                lemma_itin_tb_additive(
                    self.spec_itin_for(a.date),
                    a.time as int,
                    b.time as int,
                    SECONDS_PER_DAY as int,
                    0,
                );
            }
        } else {
            self.lemma_tb_additive(DateTime { date: (a.date + 1) as u64, time: 0 }, b, c);
        }
    }

    /// Availability never shrinks as the range grows to the right.
    pub proof fn lemma_tb_monotone(self, a: DateTime, b: DateTime, c: DateTime)
        requires
            a.spec_le(b),
            b.spec_le(c),
            a.time <= SECONDS_PER_DAY,
            b.time <= SECONDS_PER_DAY,
            c.time <= SECONDS_PER_DAY,
        ensures
            self.spec_time_between(a, b) <= self.spec_time_between(a, c),
    {
        self.lemma_tb_additive(a, b, c);
        self.lemma_tb_nonneg(b, c);
    }

    /// A range over days whose itineraries have no availability at all has
    /// none either.
    pub proof fn lemma_tb_zero(self, a: DateTime, b: DateTime)
        requires
            a.time <= SECONDS_PER_DAY,
            b.time <= SECONDS_PER_DAY,
            forall|d: u64|
                a.date <= d <= b.date ==> itin_time_between(
                    #[trigger] self.spec_itin_for(d),
                    0,
                    SECONDS_PER_DAY as int,
                ) == 0,
        ensures
            self.spec_time_between(a, b) == 0,
        decreases b.date - a.date,
    {
        if a.date > b.date {
        } else if a.date == b.date {
            lemma_itin_subrange_zero(self.spec_itin_for(a.date), a.time as int, b.time as int);
        } else {
            lemma_itin_subrange_zero(
                self.spec_itin_for(a.date),
                a.time as int,
                SECONDS_PER_DAY as int,
            );
            self.lemma_tb_zero(DateTime { date: (a.date + 1) as u64, time: 0 }, b);
        }
    }

    /// Seconds of availability between `start` and `end`.
    pub fn time_between(&self, start: DateTime, end: DateTime) -> (r: u64)
        requires
            self.wf(),
            start.valid(),
            end.valid(),
        ensures
            r == self.spec_time_between(start, end),
    {
        let ghost total = self.spec_time_between(start, end);
        proof {
            self.lemma_tb_nonneg(start, end);
            self.lemma_tb_bound(start, end);
        }
        let mut acc: u64 = 0;
        let mut d: u64 = start.date;
        while d <= end.date
            invariant
                self.wf(),
                start.valid(),
                end.valid(),
                total == self.spec_time_between(start, end),
                0 <= total,
                end.date >= start.date ==> total <= (end.date - start.date + 1) * (
                SECONDS_PER_DAY as int),
                end.date < start.date ==> total == 0,
                start.date <= d,
                d <= end.date + 1 || d == start.date,
                acc + self.spec_time_between(Self::day_cursor(start, d), end) == total,
            decreases end.date + 1 - d,
        {
            let t0: u32 = if d == start.date {
                start.time
            } else {
                0
            };
            let t1: u32 = if d == end.date {
                end.time
            } else {
                SECONDS_PER_DAY
            };
            let it = self.get_itinerary(d);
            let piece: u64 = it.time_between(t0, t1);
            proof {
                let cur = Self::day_cursor(start, d);
                let next = DateTime { date: (d + 1) as u64, time: 0 };
                self.lemma_tb_nonneg(next, end);
                vstd::arithmetic::mul::lemma_mul_inequality(
                    end.date - start.date + 1,
                    MAX_DAY + 1,
                    SECONDS_PER_DAY as int,
                );
            }
            acc = acc + piece;
            d = d + 1;
        }
        acc
    }

    /// Seconds of availability between now and `end`; zero when `end` is in
    /// the past. The instant taken as now comes from the clock.
    pub fn time_until(&self, end: DateTime) -> (r: u64)
        requires
            self.wf(),
            end.valid(),
        ensures
            exists|n: DateTime| n.valid() && r == self.spec_time_between(n, end),
    {
        let now = now_datetime();
        self.time_between(now, end)
    }

    /// Drops every override for a date strictly before `today`.
    pub fn clean_before(&mut self, today: u64)
        requires
            old(self).wf(),
        ensures
            final(self).wf(),
            final(self).spec_default() == old(self).spec_default(),
            forall|d: u64|
                d >= today ==> final(self).spec_override_for(d) == old(self).spec_override_for(d),
            forall|d: u64| d < today ==> final(self).spec_override_for(d) is None,
            forall|d: u64|
                d >= today ==> final(self).spec_itin_for(d) == old(self).spec_itin_for(d),
    {
        let ghost s0 = self.overrides@;
        let mut i: usize = 0;
        while i < self.overrides.len()
            invariant
                old(self).wf(),
                s0 == old(self).spec_overrides(),
                self.default_schedule == old(self).spec_default(),
                i <= self.overrides@.len(),
                distinct_days(self.overrides@),
                forall|a: int|
                    0 <= a < self.overrides@.len() ==> itin_wf(
                        (#[trigger] self.overrides@[a]).1@,
                    ),
                forall|a: int|
                    0 <= a < i ==> (#[trigger] self.overrides@[a]).0 >= today,
                forall|p: (u64, Itinerary)| self.overrides@.contains(p) ==> s0.contains(p),
                forall|p: (u64, Itinerary)|
                    s0.contains(p) && p.0 >= today ==> self.overrides@.contains(p),
            decreases self.overrides@.len() - i,
        {
            if self.overrides[i].0 < today {
                let ghost prev = self.overrides@;
                self.overrides.swap_remove(i);
                proof {
                    let cur = self.overrides@;
                    assert(cur == prev.update(i as int, prev.last()).drop_last());
                    assert(forall|a: int|
                        0 <= a < cur.len() && a != i ==> #[trigger] cur[a] == prev[a]);
                    assert(cur.len() == prev.len() - 1);
                    if i < cur.len() {
                        assert(cur[i as int] == prev[prev.len() - 1]);
                    }
                    assert forall|p: (u64, Itinerary)| cur.contains(p) implies s0.contains(
                        p,
                    ) by {
                        let a = choose|a: int| 0 <= a < cur.len() && cur[a] == p;
                        if a == i {
                            assert(prev.contains(p));
                        } else {
                            assert(prev[a] == p);
                            assert(prev.contains(p));
                        }
                    }
                    assert forall|p: (u64, Itinerary)|
                        s0.contains(p) && p.0 >= today implies cur.contains(p) by {
                        assert(prev.contains(p));
                        let a = choose|a: int| 0 <= a < prev.len() && prev[a] == p;
                        assert(a != i);
                        if a == prev.len() - 1 {
                            assert(cur[i as int] == p);
                        } else {
                            assert(cur[a] == p);
                        }
                    }
                }
            } else {
                i += 1;
            }
        }
        proof {
            let cur = self.overrides@;
            assert forall|d: u64| d < today implies find_override_from(cur, d, 0) is None by {
                lemma_find_none(cur, d, 0);
            }
            assert forall|d: u64| d >= today implies find_override_from(cur, d, 0)
                == find_override_from(s0, d, 0) by {
                lemma_find_agree_mem(s0, cur, d, today);
            }
        }
    }

    /// Drops every override for a date strictly before today, as the clock
    /// gives it.
    pub fn clean(&mut self)
        requires
            old(self).wf(),
        ensures
            final(self).wf(),
            final(self).spec_default() == old(self).spec_default(),
            exists|today: u64| #[trigger] overrides_cleaned(*old(self), *final(self), today),
    {
        let now = now_datetime();
        self.clean_before(now.date);
        proof {
            assert(overrides_cleaned(*old(self), *self, now.date));
        }
    }

    /// What `earliest_complete_from` promises of its result for a search
    /// that begins at `s` and owes `time` seconds: on success, the earliest
    /// representable point by which `time` seconds of availability have
    /// elapsed since `s`; on failure, no representable point would do.
    pub open spec fn spec_earliest_result(
        self,
        s: DateTime,
        time: u64,
        r: Result<DateTime, Error>,
    ) -> bool {
        match r {
            Ok(dt) => {
                &&& dt.valid()
                &&& s.spec_le(dt)
                &&& self.spec_time_between(s, dt) == time
                &&& forall|d: DateTime|
                    d.valid() && s.spec_le(d) && d.spec_lt(dt)
                        ==> self.spec_time_between(s, d) < time
            },
            Err(e) => {
                &&& e == Error::ScheduleExhausted
                &&& forall|d: DateTime|
                    d.valid() && s.spec_le(d) ==> self.spec_time_between(s, d) < time
            },
        }
    }

    /// Whether the default week holds no availability on any weekday.
    fn default_week_empty(&self) -> (r: bool)
        requires
            self.wf(),
        ensures
            r == forall|w: int|
                0 <= w < 7 ==> itin_time_between(
                    (#[trigger] self.spec_default().spec_week()[w])@,
                    0,
                    SECONDS_PER_DAY as int,
                ) == 0,
    {
        let mut w: usize = 0;
        while w < 7
            invariant
                self.wf(),
                w <= 7,
                forall|v: int|
                    0 <= v < w ==> itin_time_between(
                        (#[trigger] self.spec_default().spec_week()[v])@,
                        0,
                        SECONDS_PER_DAY as int,
                    ) == 0,
            decreases 7 - w,
        {
            let it = self.default_schedule.get_itinerary(w);
            if it.time_between(0, SECONDS_PER_DAY) != 0 {
                assert(itin_time_between(
                    self.spec_default().spec_week()[w as int]@,
                    0,
                    SECONDS_PER_DAY as int,
                ) != 0);
                return false;
            }
            w += 1;
        }
        true
    }

    /// An upper bound on the days that carry an override.
    fn max_override_day(&self) -> (r: u64)
        ensures
            forall|j: int|
                0 <= j < self.spec_overrides().len()
                    ==> (#[trigger] self.spec_overrides()[j]).0 <= r,
    {
        let mut m: u64 = 0;
        let mut i: usize = 0;
        while i < self.overrides.len()
            invariant
                i <= self.overrides@.len(),
                forall|j: int| 0 <= j < i ==> (#[trigger] self.overrides@[j]).0 <= m,
            decreases self.overrides@.len() - i,
        {
            let key = self.overrides[i].0;
            if key > m {
                m = key;
            }
            i += 1;
        }
        m
    }

    /// The earliest representable point, no earlier than `start`, by which
    /// `time` seconds of availability have elapsed. Fails with
    /// [`Error::ScheduleExhausted`] exactly when no representable point
    /// would do.
    pub fn earliest_complete_from(&self, start: DateTime, time: u64) -> (r: Result<
        DateTime,
        Error,
    >)
        requires
            self.wf(),
            start.valid(),
        ensures
            self.spec_earliest_result(start, time, r),
    {
        let week_empty = self.default_week_empty();
        let m = self.max_override_day();
        let mut d: u64 = start.date;
        let mut t: u32 = start.time;
        let mut rem: u64 = time;
        proof {
            lemma_itin_tb_empty_range(
                self.spec_itin_for(start.date),
                start.time as int,
                start.time as int,
                0,
            );
        }
        loop
            invariant
                self.wf(),
                start.valid(),
                start.date <= d <= MAX_DAY + 1,
                t < SECONDS_PER_DAY,
                d == start.date ==> t == start.time,
                d != start.date ==> t == 0,
                rem <= time,
                self.spec_time_between(start, DateTime { date: d, time: t }) == time - rem,
                rem == 0 ==> d == start.date && time == 0,
                week_empty ==> forall|w: int|
                    0 <= w < 7 ==> itin_time_between(
                        (#[trigger] self.spec_default().spec_week()[w])@,
                        0,
                        SECONDS_PER_DAY as int,
                    ) == 0,
                forall|j: int|
                    0 <= j < self.spec_overrides().len()
                        ==> (#[trigger] self.spec_overrides()[j]).0 <= m,
            decreases rem, MAX_DAY + 1 - d,
        {
            let ghost cur = DateTime { date: d, time: t };
            if d > MAX_DAY {
                proof {
                    assert(rem > 0);
                    assert forall|dd: DateTime|
                        dd.valid() && start.spec_le(dd) implies self.spec_time_between(start, dd)
                        < time by {
                        self.lemma_tb_monotone(start, dd, cur);
                    }
                }
                return Err(Error::ScheduleExhausted);
            }
            let it = self.get_itinerary(d);
            let (t2, rem2) = it.earliest_complete(t, rem);
            let ghost itin = self.spec_itin_for(d);
            if rem2 == 0 {
                if t2 == SECONDS_PER_DAY {
                    if d == MAX_DAY {
                        proof {
                            self.lemma_finish_day(start, cur, time, rem, d, t2);
                            let fin = DateTime { date: (d + 1) as u64, time: 0 };
                            assert forall|dd: DateTime|
                                dd.valid() && start.spec_le(dd) implies self.spec_time_between(
                                start,
                                dd,
                            ) < time by {
                                self.lemma_min_before(start, cur, dd, fin, time, rem, d, t2);
                            }
                        }
                        return Err(Error::ScheduleExhausted);
                    }
                    proof {
                        self.lemma_finish_day(start, cur, time, rem, d, t2);
                        let fin = DateTime { date: (d + 1) as u64, time: 0 };
                        assert forall|dd: DateTime|
                            dd.valid() && start.spec_le(dd) && dd.spec_lt(fin)
                            implies self.spec_time_between(start, dd) < time by {
                            self.lemma_min_before(start, cur, dd, fin, time, rem, d, t2);
                        }
                    }
                    return Ok(DateTime { date: d + 1, time: 0 });
                }
                proof {
                    let fin = DateTime { date: d, time: t2 };
                    self.lemma_tb_additive(start, cur, fin);
                    assert(self.spec_time_between(cur, fin) == itin_time_between(
                        itin,
                        t as int,
                        t2 as int,
                    ));
                    assert forall|dd: DateTime|
                        dd.valid() && start.spec_le(dd) && dd.spec_lt(fin)
                        implies self.spec_time_between(start, dd) < time by {
                        self.lemma_min_before(start, cur, dd, fin, time, rem, d, t2);
                    }
                }
                return Ok(DateTime { date: d, time: t2 });
            }
            proof {
                self.lemma_finish_day(start, cur, time, rem, d, t2);
                assert(t2 == SECONDS_PER_DAY);
                assert(itin_time_between(itin, t as int, SECONDS_PER_DAY as int) == rem - rem2);
                assert(self.spec_time_between(
                    start,
                    DateTime { date: (d + 1) as u64, time: 0 },
                ) == time - rem2);
            }
            if week_empty && d >= m {
                proof {
                    let next = DateTime { date: (d + 1) as u64, time: 0 };
                    assert forall|dd: DateTime|
                        dd.valid() && start.spec_le(dd) implies self.spec_time_between(start, dd)
                        < time by {
                        if dd.spec_le(next) {
                            self.lemma_tb_monotone(start, dd, next);
                        } else {
                            assert forall|d2: u64|
                                next.date <= d2 <= dd.date implies itin_time_between(
                                #[trigger] self.spec_itin_for(d2),
                                0,
                                SECONDS_PER_DAY as int,
                            ) == 0 by {
                                lemma_find_none(self.spec_overrides(), d2, 0);
                            }
                            self.lemma_tb_zero(next, dd);
                            self.lemma_tb_additive(start, next, dd);
                        }
                    }
                }
                return Err(Error::ScheduleExhausted);
            }
            rem = rem2;
            t = 0;
            d = d + 1;
        }
    }

    /// After a whole day is consumed, the availability from `start` through
    /// the next midnight is what has been consumed so far plus the day's
    /// remaining availability.
    proof fn lemma_finish_day(
        self,
        start: DateTime,
        cur: DateTime,
        time: u64,
        rem: u64,
        d: u64,
        t2: u32,
    )
        requires
            self.wf(),
            start.valid(),
            cur.date == d,
            cur.time < SECONDS_PER_DAY,
            d <= MAX_DAY,
            start.spec_le(cur),
            self.spec_time_between(start, cur) == time - rem,
            rem <= time,
        ensures
            self.spec_time_between(start, DateTime { date: (d + 1) as u64, time: 0 })
                == time - rem + itin_time_between(
                self.spec_itin_for(d),
                cur.time as int,
                SECONDS_PER_DAY as int,
            ),
    {
        let next = DateTime { date: (d + 1) as u64, time: 0 };
        self.lemma_tb_additive(start, cur, next);
        lemma_itin_tb_empty_range(self.spec_itin_for((d + 1) as u64), 0, 0, 0);
        assert(self.spec_time_between(cur, next) == itin_time_between(
            self.spec_itin_for(d),
            cur.time as int,
            SECONDS_PER_DAY as int,
        ) + self.spec_time_between(next, next));
    }

    /// Any representable point before the completion point found on day `d`
    /// has strictly less than the owed availability behind it.
    proof fn lemma_min_before(
        self,
        start: DateTime,
        cur: DateTime,
        dd: DateTime,
        fin: DateTime,
        time: u64,
        rem: u64,
        d: u64,
        t2: u32,
    )
        requires
            self.wf(),
            start.valid(),
            cur.date == d,
            cur.time < SECONDS_PER_DAY,
            d <= MAX_DAY,
            start.spec_le(cur),
            self.spec_time_between(start, cur) == time - rem,
            rem <= time,
            rem == 0 ==> cur == start && time == 0,
            t2 <= SECONDS_PER_DAY,
            cur.time <= t2,
            fin == (if t2 == SECONDS_PER_DAY {
                DateTime { date: (d + 1) as u64, time: 0 }
            } else {
                DateTime { date: d, time: t2 }
            }),
            itin_time_between(self.spec_itin_for(d), cur.time as int, t2 as int) == rem,
            forall|tt: int|
                cur.time <= tt < t2 ==> itin_time_between(
                    self.spec_itin_for(d),
                    cur.time as int,
                    tt,
                ) < rem,
            dd.valid(),
            start.spec_le(dd),
            dd.spec_lt(fin),
        ensures
            self.spec_time_between(start, dd) < time,
    {
        if rem == 0 {
            if cur.time < t2 {
                lemma_itin_tb_empty_range(self.spec_itin_for(d), cur.time as int, cur.time as int, 0);
                assert(false);
            }
            assert(false);
        } else if dd.spec_le(cur) {
            self.lemma_tb_monotone(start, dd, cur);
        } else {
            assert(dd.date == d && cur.time < dd.time < t2);
            self.lemma_tb_additive(start, cur, dd);
            assert(self.spec_time_between(cur, dd) == itin_time_between(
                self.spec_itin_for(d),
                cur.time as int,
                dd.time as int,
            ));
        }
    }

    /// The earliest point, no earlier than now and than `task_start` if one
    /// is given, by which `time` seconds of availability have elapsed. The
    /// instant taken as now comes from the clock.
    pub fn earliest_complete(&self, time: u64, task_start: Option<DateTime>) -> (r: Result<
        DateTime,
        Error,
    >)
        requires
            self.wf(),
            task_start matches Some(ts) ==> ts.valid(),
        ensures
            exists|n: DateTime|
                n.valid() && #[trigger] self.spec_earliest_result(
                    Self::spec_search_start(n, task_start),
                    time,
                    r,
                ),
    {
        let now = now_datetime();
        let s = match task_start {
            Some(ts) => now.later(ts),
            None => now,
        };
        let r = self.earliest_complete_from(s, time);
        proof {
            assert(s == Self::spec_search_start(now, task_start));
            assert(self.spec_earliest_result(Self::spec_search_start(now, task_start), time, r));
        }
        r
    }

    /// Where a search that may not begin before `task_start` begins when
    /// the clock reads `n`.
    pub open spec fn spec_search_start(n: DateTime, task_start: Option<DateTime>) -> DateTime {
        match task_start {
            Some(ts) => if n.spec_le(ts) {
                ts
            } else {
                n
            },
            None => n,
        }
    }

    /// Replaces a weekday's default itinerary wholesale.
    pub fn set_default_itinerary(&mut self, weekday: usize, itinerary: Itinerary)
        requires
            old(self).wf(),
            weekday < 7,
            itinerary.wf(),
        ensures
            final(self).wf(),
            final(self).spec_overrides() == old(self).spec_overrides(),
            final(self).spec_default().spec_week()
                == old(self).spec_default().spec_week().update(weekday as int, itinerary),
    {
        self.default_schedule.set_itinerary(weekday, itinerary);
        proof {
            let so = old(self).spec_overrides();
            assert(self.spec_overrides() == so);
            assert forall|a: int, b: int|
                #![trigger self.spec_overrides()[a], self.spec_overrides()[b]]
                0 <= a < b < self.spec_overrides().len()
                    implies self.spec_overrides()[a].0 != self.spec_overrides()[b].0 by {
                assert(so[a].0 != so[b].0);
            }
            assert forall|a: int| 0 <= a < self.spec_overrides().len() implies itin_wf(
                (#[trigger] self.spec_overrides()[a]).1@,
            ) by {
                assert(itin_wf(so[a].1@));
            }
        }
    }
}

} // verus!
