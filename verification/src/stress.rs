//! The integer groundwork of the urgency score: aggregate workload over
//! descendants, aggregate stress weight over ancestors, and the slack
//! before a deadline. The exponential pressure curve that turns slack into
//! a score works on these values outside the verified core.

use vstd::prelude::*;

use crate::datetime::DateTime;
use crate::list::List;
use crate::list::contains_value;
use crate::task::MAX_TASK_SECONDS;
use crate::task::MAX_TASK_STRESS;
use crate::task::Task;

verus! {

/// The slack assumed for a task with no deadline: 120 hours, in seconds.
pub const DEFAULT_SLACK_SECONDS: u64 = 432000;

/// Sum of `estimated_time` over the selected identifiers below `n`.
pub open spec fn spec_time_sum(s: Seq<Option<Task>>, sel: Set<usize>, n: int) -> int
    decreases n,
{
    if n <= 0 {
        0
    } else {
        spec_time_sum(s, sel, n - 1) + if sel.contains((n - 1) as usize) && n - 1 < s.len()
            && s[n - 1] is Some {
            s[n - 1]->Some_0.estimated_time as int
        } else {
            0
        }
    }
}

/// Sum of `estimated_stress` (0 when absent) over the selected identifiers
/// below `n`.
pub open spec fn spec_stress_sum(s: Seq<Option<Task>>, sel: Set<usize>, n: int) -> int
    decreases n,
{
    if n <= 0 {
        0
    } else {
        spec_stress_sum(s, sel, n - 1) + if sel.contains((n - 1) as usize) && n - 1 < s.len()
            && s[n - 1] is Some {
            match s[n - 1]->Some_0.estimated_stress {
                Some(w) => w as int,
                None => 0,
            }
        } else {
            0
        }
    }
}

impl List {
    /// The identifiers the workload of `id` covers: the task and all its
    /// descendants.
    pub open spec fn spec_descendants(self, id: usize) -> Set<usize> {
        Set::new(|x: usize| self.spec_reaches_down(id, x))
    }

    /// The identifiers whose stress weight presses on `id`: the task and
    /// all its ancestors.
    pub open spec fn spec_ancestors(self, id: usize) -> Set<usize> {
        Set::new(|x: usize| self.spec_reaches_up(id, x))
    }

    /// The task's own workload plus that of all its descendants, in
    /// seconds.
    pub fn effective_time(&self, id: usize) -> (r: u64)
        requires
            self.wf(),
            self.spec_contains(id),
        ensures
            r == spec_time_sum(
                self.spec_tasks(),
                self.spec_descendants(id),
                self.spec_len() as int,
            ),
    {
        let children = self.get_all_children(id);
        let ghost sel = self.spec_descendants(id);
        let mut acc: u64 = 0;
        let mut i: usize = 0;
        while i < self.task_count()
            invariant
                self.wf(),
                self.spec_contains(id),
                sel == self.spec_descendants(id),
                forall|x: usize|
                    #[trigger] children@.contains(x) <==> self.spec_reaches_down(id, x),
                i <= self.spec_len(),
                acc == spec_time_sum(self.spec_tasks(), sel, i as int),
                acc <= i * MAX_TASK_SECONDS,
            decreases self.spec_len() - i,
        {
            let in_sel = contains_value(&children, i);
            proof {
                assert(sel.contains(i) == self.spec_reaches_down(id, i));
                if in_sel {
                    assert(self.spec_contains(i));
                    assert(self.spec_task(i).wf());
                }
            }
            let add: u64 = if in_sel {
                self.estimated_time_of(i)
            } else {
                0
            };
            acc = acc + add;
            i += 1;
        }
        acc
    }

    /// The task's own stress weight plus that of all its ancestors, in
    /// hundredths of a stress unit.
    pub fn effective_stress(&self, id: usize) -> (r: u64)
        requires
            self.wf(),
            self.spec_contains(id),
        ensures
            r == spec_stress_sum(
                self.spec_tasks(),
                self.spec_ancestors(id),
                self.spec_len() as int,
            ),
    {
        let parents = self.get_all_parents(id);
        let ghost sel = self.spec_ancestors(id);
        let mut acc: u64 = 0;
        let mut i: usize = 0;
        while i < self.task_count()
            invariant
                self.wf(),
                self.spec_contains(id),
                sel == self.spec_ancestors(id),
                forall|x: usize|
                    #[trigger] parents@.contains(x) <==> self.spec_reaches_up(id, x),
                i <= self.spec_len(),
                acc == spec_stress_sum(self.spec_tasks(), sel, i as int),
                acc <= i * MAX_TASK_STRESS,
            decreases self.spec_len() - i,
        {
            let in_sel = contains_value(&parents, i);
            proof {
                assert(sel.contains(i) == self.spec_reaches_up(id, i));
                if in_sel {
                    assert(self.spec_contains(i));
                    assert(self.spec_task(i).wf());
                }
            }
            let add: u64 = if in_sel {
                self.estimated_stress_of(i)
            } else {
                0
            };
            acc = acc + add;
            i += 1;
        }
        acc
    }

    /// Seconds of slack before the task's deadline, seen from `now`: the
    /// availability between `now` and the deadline, less the task's
    /// effective workload, floored at zero. A task with no deadline gets
    /// the fixed fallback of [`DEFAULT_SLACK_SECONDS`].
    pub fn slack_seconds(&self, id: usize, now: DateTime) -> (r: u64)
        requires
            self.wf(),
            self.spec_contains(id),
            now.valid(),
        ensures
            match self.spec_task(id).deadline {
                Some(dl) => {
                    let avail = self.spec_schedule().spec_time_between(now, dl);
                    let work = spec_time_sum(
                        self.spec_tasks(),
                        self.spec_descendants(id),
                        self.spec_len() as int,
                    );
                    r == if avail >= work {
                        avail - work
                    } else {
                        0
                    }
                },
                None => r == DEFAULT_SLACK_SECONDS,
            },
    {
        let deadline = self.deadline_of(id);
        match deadline {
            None => DEFAULT_SLACK_SECONDS,
            Some(dl) => {
                proof {
                    assert(self.spec_task(id).wf());
                }
                let avail = self.schedule().time_between(now, dl);
                let work = self.effective_time(id);
                if avail >= work {
                    avail - work
                } else {
                    0
                }
            },
        }
    }
}

} // verus!
