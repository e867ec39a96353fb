//! Task tracking with a verified core: a task dependency graph with
//! reciprocal subtask/supertask edges, an availability calendar built from
//! non-overlapping time blocks, and the integer parts of the urgency
//! computation that ranks tasks.

use vstd::prelude::*;

mod datetime;
mod default_schedule;
mod itinerary;
mod list;
mod manager;
mod schedule;
mod stress;
mod task;
mod timeblock;

pub use datetime::DateTime;
pub use datetime::MAX_DAY;
pub use default_schedule::DefaultSchedule;
pub use itinerary::Itinerary;
pub use list::List;
pub use list::MAX_TASKS;
pub use manager::Event;
pub use manager::spin;
pub use schedule::Schedule;
pub use stress::DEFAULT_SLACK_SECONDS;
pub use task::MAX_TASK_SECONDS;
pub use task::MAX_TASK_STRESS;
pub use task::Status;
pub use task::Task;
pub use timeblock::SECONDS_PER_DAY;
pub use timeblock::TimeBlock;

verus! {

/// The failures the core operations can report.
#[derive(Clone, Copy, Debug, PartialEq, Eq, Structural)]
pub enum Error {
    /// An operation referenced a task identifier that is not in the graph.
    UnknownTaskId,
    /// An attempt to assign an identifier to a task that already carries one.
    AlreadyInitialized,
    /// Completion was attempted while direct subtasks remain.
    DependencyError,
    /// A time block insertion conflicts with an existing block.
    OverlapError,
    /// No reachable day has any availability.
    ScheduleExhausted,
}

impl Error {
    /// A short human-readable description of the error.
    pub fn message(&self) -> &'static str {
        match self {
            Error::UnknownTaskId => "unknown task id",
            Error::AlreadyInitialized => "task already has an id",
            Error::DependencyError => "a subtask is not complete",
            Error::OverlapError => "block overlaps with itinerary",
            Error::ScheduleExhausted => "schedule has no availability",
        }
    }
}

} // verus!
