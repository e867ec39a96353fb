//! A task: a unit of work with a duration, optional start and deadline,
//! an optional extra stress weight, and reciprocal edges to its subtasks and
//! supertasks.

use vstd::prelude::*;

use crate::Error;
use crate::datetime::DateTime;

verus! {

/// The longest duration a single task may claim, in seconds.
pub const MAX_TASK_SECONDS: u64 = 0x8000_0000;

/// The largest extra stress weight a single task may carry, in hundredths
/// of a stress unit.
pub const MAX_TASK_STRESS: u64 = 0x8000_0000;

/// Lifecycle states a task can be shown in.
#[derive(Debug, Clone, Copy, PartialEq, Eq, Structural)]
pub enum Status {
    INVALID,
    INCOMPLETE,
    COMPLETE,
}

impl Status {
    /// A short human-readable name for the status.
    pub fn label(&self) -> (r: &'static str)
        ensures
            r@ == match self {
                Status::INVALID => "Invalid"@,
                Status::INCOMPLETE => "Incomplete"@,
                Status::COMPLETE => "Complete"@,
            },
    {
        match self {
            Status::INVALID => "Invalid",
            Status::INCOMPLETE => "Incomplete",
            Status::COMPLETE => "Complete",
        }
    }
}

/// A unit of work. The identifier is assigned exactly once, when the task
/// is inserted into a task graph; `estimated_time` is in seconds and
/// `estimated_stress` in hundredths of a stress unit.
#[derive(Debug)]
pub struct Task {
    pub id: Option<usize>,
    pub name: String,
    pub description: String,
    pub estimated_time: u64,
    pub estimated_stress: Option<u64>,
    pub start: Option<DateTime>,
    pub deadline: Option<DateTime>,
    pub subtasks: Vec<usize>,
    pub supertasks: Vec<usize>,
}

impl Task {
    /// A well-formed task: bounded duration and weight, representable
    /// instants, and duplicate-free edge lists.
    pub open spec fn wf(self) -> bool {
        &&& self.estimated_time <= MAX_TASK_SECONDS
        &&& (self.estimated_stress matches Some(w) ==> w <= MAX_TASK_STRESS)
        &&& (self.start matches Some(s) ==> s.valid())
        &&& (self.deadline matches Some(d) ==> d.valid())
        &&& self.subtasks@.no_duplicates()
        &&& self.supertasks@.no_duplicates()
    }

    /// The task's own descriptive fields, leaving out its identifier and
    /// its edges: what editing a task replaces.
    pub open spec fn spec_content(self) -> (Seq<char>, Seq<char>, u64, Option<u64>, Option<
        DateTime,
    >, Option<DateTime>) {
        (
            self.name@,
            self.description@,
            self.estimated_time,
            self.estimated_stress,
            self.start,
            self.deadline,
        )
    }

    /// A fresh task, not yet inserted into any graph: no identifier and no
    /// edges.
    pub fn new(
        name: String,
        description: String,
        estimated_time: u64,
        estimated_stress: Option<u64>,
        start: Option<DateTime>,
        deadline: Option<DateTime>,
    ) -> (r: Task)
        requires
            estimated_time <= MAX_TASK_SECONDS,
            estimated_stress matches Some(w) ==> w <= MAX_TASK_STRESS,
            start matches Some(s) ==> s.valid(),
            deadline matches Some(d) ==> d.valid(),
        ensures
            r.wf(),
            r.id is None,
            r.name@ == name@,
            r.description@ == description@,
            r.estimated_time == estimated_time,
            r.estimated_stress == estimated_stress,
            r.start == start,
            r.deadline == deadline,
            r.subtasks@ == Seq::<usize>::empty(),
            r.supertasks@ == Seq::<usize>::empty(),
    {
        Task {
            id: None,
            name,
            description,
            estimated_time,
            estimated_stress,
            start,
            deadline,
            subtasks: Vec::new(),
            supertasks: Vec::new(),
        }
    }

    /// Assigns the task's identifier. Fails with
    /// [`Error::AlreadyInitialized`], leaving the task unchanged, exactly
    /// when it already carries one.
    pub fn initialize(&mut self, id: usize) -> (r: Result<(), Error>)
        ensures
            match r {
                Ok(_) => {
                    &&& old(self).id is None
                    &&& final(self).id == Some(id)
                    &&& final(self).name == old(self).name
                    &&& final(self).description == old(self).description
                    &&& final(self).estimated_time == old(self).estimated_time
                    &&& final(self).estimated_stress == old(self).estimated_stress
                    &&& final(self).start == old(self).start
                    &&& final(self).deadline == old(self).deadline
                    &&& final(self).subtasks == old(self).subtasks
                    &&& final(self).supertasks == old(self).supertasks
                },
                Err(e) => {
                    &&& e == Error::AlreadyInitialized
                    &&& old(self).id is Some
                    &&& *final(self) == *old(self)
                },
            },
    {
        if self.id.is_some() {
            return Err(Error::AlreadyInitialized);
        }
        self.id = Some(id);
        Ok(())
    }

    /// Whether the task is active at `now`: it has no start, or its start
    /// is not in the future.
    pub open spec fn spec_started(self, now: DateTime) -> bool {
        match self.start {
            None => true,
            Some(s) => s.spec_le(now),
        }
    }

    /// Whether the task is active at `now`.
    pub fn started_at(&self, now: DateTime) -> (r: bool)
        ensures
            r == self.spec_started(now),
    {
        match &self.start {
            None => true,
            Some(s) => s.le(&now),
        }
    }

    /// Whether the task is active now, as the clock gives it.
    pub fn started(&self) -> (r: bool)
        ensures
            self.start is None ==> r,
            exists|n: DateTime| n.valid() && r == self.spec_started(n),
    {
        let now = crate::datetime::now_datetime();
        self.started_at(now)
    }
}

} // verus!
