use tasklist::DateTime;
use tasklist::Error;
use tasklist::Event;
use tasklist::Itinerary;
use tasklist::List;
use tasklist::Task;
use tasklist::TimeBlock;
use tasklist::spin;

const H: u64 = 3600;

fn plain_task(name: &str, hours: u64) -> Task {
    Task::new(String::from(name), String::from(""), hours * H, None, None, None)
}

#[test]
fn session_builds_a_graph_step_by_step() {
    let mut list = List::new();
    spin(&mut list, Event::AddTask(plain_task("a", 2))).unwrap();
    spin(&mut list, Event::AddTask(plain_task("b", 3))).unwrap();
    spin(&mut list, Event::AddSubtask(0, 1)).unwrap();
    assert!(list.get_task(0).unwrap().subtasks.contains(&1));
    assert_eq!(spin(&mut list, Event::CompleteTask(0)), Err(Error::DependencyError));
    spin(&mut list, Event::CompleteTask(1)).unwrap();
    spin(&mut list, Event::CompleteTask(0)).unwrap();
    assert_eq!(list.task_ids(), Vec::<usize>::new());
}

#[test]
fn session_rejects_unknown_ids() {
    let mut list = List::new();
    assert_eq!(spin(&mut list, Event::RemoveTask(3)), Err(Error::UnknownTaskId));
    assert_eq!(spin(&mut list, Event::AddSupertask(0, 1)), Err(Error::UnknownTaskId));
    assert_eq!(
        spin(&mut list, Event::ModifyTask(0, plain_task("x", 1))),
        Err(Error::UnknownTaskId)
    );
}

#[test]
fn session_updates_the_schedule() {
    let mut list = List::new();
    let mut itin = Itinerary::new();
    itin.add_timeblock(TimeBlock::from_start_end(9 * H as u32, 17 * H as u32)).unwrap();
    spin(&mut list, Event::SetItinerary(10, itin)).unwrap();
    let mut monday = Itinerary::new();
    monday.add_timeblock(TimeBlock::from_start_end(8 * H as u32, 12 * H as u32)).unwrap();
    spin(&mut list, Event::SetDefaultItinerary(0, monday)).unwrap();
    assert_eq!(list.schedule().get_itinerary(10).block_at(0).start, 9 * H as u32);
    // Day 8 is a Monday with no override.
    assert_eq!(list.schedule().get_itinerary(8).block_at(0).start, 8 * H as u32);
    let start = DateTime { date: 10, time: 8 * H as u32 };
    assert_eq!(
        list.schedule().earliest_complete_from(start, 3 * H),
        Ok(DateTime { date: 10, time: 12 * H as u32 })
    );
}

#[test]
fn session_clean_keeps_tasks() {
    let mut list = List::new();
    spin(&mut list, Event::AddTask(plain_task("a", 1))).unwrap();
    spin(&mut list, Event::Clean).unwrap();
    assert!(list.contains_task(0));
}

#[test]
fn session_supertask_events_mirror_subtask_events() {
    let mut list = List::new();
    spin(&mut list, Event::AddTask(plain_task("a", 1))).unwrap();
    spin(&mut list, Event::AddTask(plain_task("b", 1))).unwrap();
    spin(&mut list, Event::AddSupertask(1, 0)).unwrap();
    assert!(list.get_task(0).unwrap().subtasks.contains(&1));
    spin(&mut list, Event::RemoveSupertask(1, 0)).unwrap();
    assert!(list.get_task(0).unwrap().subtasks.is_empty());
}

#[test]
fn earliest_completion_for_a_task_without_availability_fails() {
    // The clock-based search: an all-empty schedule can never supply an
    // hour of work, whatever the current instant is.
    let list = List::new();
    assert_eq!(
        list.schedule().earliest_complete(H, None),
        Err(Error::ScheduleExhausted)
    );
}
