//! The fallback weekly template: one itinerary per weekday, always present.

use vstd::prelude::*;

use crate::itinerary::Itinerary;
use crate::itinerary::itin_wf;

verus! {

/// Seven itineraries, one per weekday, indexed from Monday as 0.
#[derive(Debug)]
pub struct DefaultSchedule {
    week: Vec<Itinerary>,
}

impl DefaultSchedule {
    /// The week's itineraries, Monday first.
    pub closed spec fn spec_week(self) -> Seq<Itinerary> {
        self.week@
    }

    /// Exactly seven well-formed itineraries.
    pub open spec fn wf(self) -> bool {
        self.spec_week().len() == 7
        && forall|w: int| 0 <= w < 7 ==> itin_wf((#[trigger] self.spec_week()[w])@)
    }

    /// A template with no availability on any weekday.
    pub fn new() -> (r: DefaultSchedule)
        ensures
            r.wf(),
            forall|w: int| 0 <= w < 7 ==> (#[trigger] r.spec_week()[w])@ == Seq::<
                crate::timeblock::TimeBlock,
            >::empty(),
    {
        let mut week: Vec<Itinerary> = Vec::new();
        let mut i: usize = 0;
        while i < 7
            invariant
                i == week@.len(),
                i <= 7,
                forall|w: int| 0 <= w < i ==> (#[trigger] week@[w])@ == Seq::<
                    crate::timeblock::TimeBlock,
                >::empty(),
            decreases 7 - i,
        {
            week.push(Itinerary::new());
            i += 1;
        }
        DefaultSchedule { week }
    }

    /// The itinerary for a weekday.
    pub fn get_itinerary(&self, weekday: usize) -> (r: &Itinerary)
        requires
            self.wf(),
            weekday < 7,
        ensures
            *r == self.spec_week()[weekday as int],
            r.wf(),
    {
        &self.week[weekday]
    }

    /// Replaces a weekday's itinerary wholesale.
    pub fn set_itinerary(&mut self, weekday: usize, itinerary: Itinerary)
        requires
            old(self).wf(),
            weekday < 7,
            itinerary.wf(),
        ensures
            final(self).wf(),
            final(self).spec_week() == old(self).spec_week().update(weekday as int, itinerary),
    {
        self.week[weekday] = itinerary;
    }
}

} // verus!
