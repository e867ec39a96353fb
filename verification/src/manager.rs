//! One step of the interactive session: the shell around the core reads a
//! command, builds an [`Event`] from plain values, and hands it here; the
//! step applies it to the task graph and schedule and reports the outcome.
//! Persisting the state after each step, and every prompt, stays outside.

use vstd::prelude::*;

use crate::Error;
use crate::itinerary::Itinerary;
use crate::list::List;
use crate::list::MAX_TASKS;
use crate::list::edge_pair_changed;
use crate::list::task_removed;
use crate::list::tasks_preserved;
use crate::task::Task;

verus! {

/// One decision of the interactive session, with everything it needs.
pub enum Event {
    /// Insert a fresh task.
    AddTask(Task),
    /// Replace the descriptive fields of a task.
    ModifyTask(usize, Task),
    /// Make the second task a direct subtask of the first.
    AddSubtask(usize, usize),
    /// Dissolve that subtask edge.
    RemoveSubtask(usize, usize),
    /// Make the second task a direct supertask of the first.
    AddSupertask(usize, usize),
    /// Dissolve that supertask edge.
    RemoveSupertask(usize, usize),
    /// Complete a task: remove it once no direct subtask remains.
    CompleteTask(usize),
    /// Remove a task, detaching all its edges.
    RemoveTask(usize),
    /// Replace the schedule override for a date.
    SetItinerary(u64, Itinerary),
    /// Replace the default itinerary for a weekday, 0 for Monday.
    SetDefaultItinerary(usize, Itinerary),
    /// Drop schedule overrides for past dates.
    Clean,
}

/// What a well-formed event carries: well-formed payloads and a weekday in
/// range.
pub open spec fn event_wf(e: Event) -> bool {
    match e {
        Event::AddTask(t) => t.wf(),
        Event::ModifyTask(_, t) => t.wf(),
        Event::SetItinerary(_, it) => it.wf(),
        Event::SetDefaultItinerary(w, it) => w < 7 && it.wf(),
        _ => true,
    }
}

/// Applies one session event to the task graph and schedule. The graph
/// invariant holds afterward whatever the event was; a failure leaves the
/// state untouched; the full effect per event is stated below.
pub fn spin(list: &mut List, event: Event) -> (r: Result<(), Error>)
    requires
        old(list).wf(),
        event_wf(event),
        event matches Event::AddTask(_) ==> old(list).spec_len() < MAX_TASKS,
    ensures
        final(list).wf(),
        r is Err ==> *final(list) == *old(list),
        match event {
            Event::AddTask(t) => {
                &&& (r is Ok) <==> t.id is None
                &&& r is Ok ==> ({
                    let id = old(list).spec_len() as usize;
                    &&& final(list).spec_len() == old(list).spec_len() + 1
                    &&& final(list).spec_contains(id)
                    &&& final(list).spec_task(id).spec_content() == t.spec_content()
                    &&& final(list).spec_task(id).id == Some(id)
                    &&& final(list).spec_task(id).subtasks@ == Seq::<usize>::empty()
                    &&& final(list).spec_task(id).supertasks@ == Seq::<usize>::empty()
                    &&& forall|j: usize|
                        #[trigger] old(list).spec_contains(j) ==> final(list).spec_contains(j)
                            && final(list).spec_task(j) == old(list).spec_task(j)
                    &&& forall|j: usize|
                        #[trigger] final(list).spec_contains(j) ==> j == id || old(list).spec_contains(j)
                    &&& final(list).spec_schedule() == old(list).spec_schedule()
                })
            },
            Event::ModifyTask(id, t) => {
                &&& (r is Ok) <==> old(list).spec_contains(id)
                &&& r is Ok ==> {
                    &&& final(list).spec_len() == old(list).spec_len()
                    &&& forall|j: usize|
                        #[trigger] final(list).spec_contains(j) <==> old(list).spec_contains(j)
                    &&& final(list).spec_task(id).spec_content() == t.spec_content()
                    &&& final(list).spec_task(id).id == old(list).spec_task(id).id
                    &&& final(list).spec_task(id).subtasks == old(list).spec_task(id).subtasks
                    &&& final(list).spec_task(id).supertasks == old(list).spec_task(
                        id,
                    ).supertasks
                    &&& forall|j: usize|
                        j != id && old(list).spec_contains(j) ==> #[trigger] final(list).spec_task(j) == old(list).spec_task(j)
                    &&& final(list).spec_schedule() == old(list).spec_schedule()
                }
            },
            Event::AddSubtask(a, b) => {
                &&& (r is Ok) <==> old(list).spec_contains(a) && old(list).spec_contains(b)
                &&& r is Ok ==> tasks_preserved(*old(list), *final(list)) && edge_pair_changed(
                    *old(list),
                    *final(list),
                    a,
                    b,
                    true,
                ) && final(list).spec_schedule() == old(list).spec_schedule()
            },
            Event::RemoveSubtask(a, b) => {
                &&& (r is Ok) <==> old(list).spec_contains(a) && old(list).spec_contains(b)
                &&& r is Ok ==> tasks_preserved(*old(list), *final(list)) && edge_pair_changed(
                    *old(list),
                    *final(list),
                    a,
                    b,
                    false,
                ) && final(list).spec_schedule() == old(list).spec_schedule()
            },
            Event::AddSupertask(a, b) => {
                &&& (r is Ok) <==> old(list).spec_contains(a) && old(list).spec_contains(b)
                &&& r is Ok ==> tasks_preserved(*old(list), *final(list)) && edge_pair_changed(
                    *old(list),
                    *final(list),
                    b,
                    a,
                    true,
                ) && final(list).spec_schedule() == old(list).spec_schedule()
            },
            Event::RemoveSupertask(a, b) => {
                &&& (r is Ok) <==> old(list).spec_contains(a) && old(list).spec_contains(b)
                &&& r is Ok ==> tasks_preserved(*old(list), *final(list)) && edge_pair_changed(
                    *old(list),
                    *final(list),
                    b,
                    a,
                    false,
                ) && final(list).spec_schedule() == old(list).spec_schedule()
            },
            Event::CompleteTask(id) => {
                &&& (r is Ok) <==> old(list).spec_contains(id) && old(list).spec_task(
                    id,
                ).subtasks@.len() == 0
                &&& r is Ok ==> task_removed(*old(list), *final(list), id) && final(list).spec_schedule() == old(list).spec_schedule()
            },
            Event::RemoveTask(id) => {
                &&& (r is Ok) <==> old(list).spec_contains(id)
                &&& r is Ok ==> task_removed(*old(list), *final(list), id) && final(list).spec_schedule() == old(list).spec_schedule()
            },
            Event::SetItinerary(d, it) => {
                &&& r is Ok
                &&& final(list).spec_tasks() == old(list).spec_tasks()
                &&& final(list).spec_schedule().spec_itin_for(d) == it@
                &&& final(list).spec_schedule().spec_override_for(d) == Some(it)
                &&& forall|d2: u64|
                    d2 != d ==> final(list).spec_schedule().spec_itin_for(d2) == old(list).spec_schedule().spec_itin_for(d2)
                &&& final(list).spec_schedule().spec_default() == old(list).spec_schedule().spec_default()
            },
            Event::SetDefaultItinerary(w, it) => {
                &&& r is Ok
                &&& final(list).spec_tasks() == old(list).spec_tasks()
                &&& final(list).spec_schedule().spec_overrides() == old(list).spec_schedule().spec_overrides()
                &&& final(list).spec_schedule().spec_default().spec_week() == old(list).spec_schedule().spec_default().spec_week().update(w as int, it)
            },
            Event::Clean => {
                &&& r is Ok
                &&& final(list).spec_tasks() == old(list).spec_tasks()
                &&& final(list).spec_schedule().spec_default() == old(list).spec_schedule().spec_default()
                &&& exists|today: u64| #[trigger] crate::schedule::overrides_cleaned(
                    old(list).spec_schedule(),
                    final(list).spec_schedule(),
                    today,
                )
            },
        },
{
    match event {
        Event::AddTask(t) => match list.add_task(t) {
            Ok(_) => Ok(()),
            Err(e) => Err(e),
        },
        Event::ModifyTask(id, t) => list.modify_task(id, t),
        Event::AddSubtask(a, b) => list.add_subtask(a, b),
        Event::RemoveSubtask(a, b) => list.remove_subtask(a, b),
        Event::AddSupertask(a, b) => list.add_supertask(a, b),
        Event::RemoveSupertask(a, b) => list.remove_supertask(a, b),
        Event::CompleteTask(id) => list.complete_task(id),
        Event::RemoveTask(id) => list.remove_task(id),
        Event::SetItinerary(d, it) => {
            list.set_itinerary(d, it);
            Ok(())
        },
        Event::SetDefaultItinerary(w, it) => {
            list.set_default_itinerary(w, it);
            Ok(())
        },
        Event::Clean => {
            list.clean();
            Ok(())
        },
    }
}

} // verus!
