use tasklist::DateTime;
use tasklist::Itinerary;
use tasklist::List;
use tasklist::Status;
use tasklist::Task;
use tasklist::TimeBlock;

const H: u64 = 3600;

fn task_with(name: &str, hours: u64, stress: Option<u64>) -> Task {
    Task::new(String::from(name), String::from(""), hours * H, stress, None, None)
}

#[test]
fn effective_time_sums_descendants() {
    let mut list = List::new();
    list.add_task(task_with("a", 5, None)).unwrap();
    list.add_task(task_with("b", 4, None)).unwrap();
    list.add_task(task_with("c", 3, None)).unwrap();
    list.add_subtask(0, 1).unwrap();
    list.add_subtask(1, 2).unwrap();
    assert_eq!(list.effective_time(0), 12 * H);
    assert_eq!(list.effective_time(1), 7 * H);
    assert_eq!(list.effective_time(2), 3 * H);
}

#[test]
fn effective_time_counts_shared_descendants_once() {
    let mut list = List::new();
    for hours in [1u64, 2, 4, 8] {
        list.add_task(task_with("t", hours, None)).unwrap();
    }
    list.add_subtask(0, 1).unwrap();
    list.add_subtask(0, 2).unwrap();
    list.add_subtask(1, 3).unwrap();
    list.add_subtask(2, 3).unwrap();
    assert_eq!(list.effective_time(0), 15 * H);
}

#[test]
fn effective_stress_sums_ancestors() {
    let mut list = List::new();
    list.add_task(task_with("a", 1, Some(1000))).unwrap();
    list.add_task(task_with("b", 1, Some(900))).unwrap();
    list.add_task(task_with("c", 1, None)).unwrap();
    list.add_subtask(0, 1).unwrap();
    list.add_subtask(1, 2).unwrap();
    assert_eq!(list.effective_stress(0), 1000);
    assert_eq!(list.effective_stress(1), 1900);
    assert_eq!(list.effective_stress(2), 1900);
}

#[test]
fn slack_without_deadline_is_the_fixed_fallback() {
    // A 4-hour task with no deadline keeps the 120-hour fallback slack.
    let mut list = List::new();
    list.add_task(task_with("a", 4, None)).unwrap();
    let now = DateTime { date: 10, time: 0 };
    assert_eq!(list.slack_seconds(0, now), 120 * H);
}

#[test]
fn slack_subtracts_workload_from_availability() {
    let mut list = List::new();
    let mut t = task_with("a", 2, None);
    t.deadline = Some(DateTime { date: 10, time: 17 * H as u32 });
    list.add_task(t).unwrap();
    let mut itin = Itinerary::new();
    itin.add_timeblock(TimeBlock::from_start_end(9 * H as u32, 17 * H as u32)).unwrap();
    list.set_itinerary(10, itin);
    let now = DateTime { date: 10, time: 8 * H as u32 };
    // Eight hours available, two owed: six hours of slack.
    assert_eq!(list.slack_seconds(0, now), 6 * H);
}

#[test]
fn slack_is_floored_at_zero() {
    let mut list = List::new();
    let mut t = task_with("a", 2, None);
    t.deadline = Some(DateTime { date: 10, time: 1000 });
    list.add_task(t).unwrap();
    // No availability at all: the workload exceeds it, slack is zero.
    let now = DateTime { date: 10, time: 0 };
    assert_eq!(list.slack_seconds(0, now), 0);
}

#[test]
fn started_depends_on_the_start_instant() {
    let started_task = Task::new(
        String::from("a"),
        String::from(""),
        H,
        None,
        Some(DateTime { date: 5, time: 100 }),
        None,
    );
    assert!(started_task.started_at(DateTime { date: 5, time: 100 }));
    assert!(started_task.started_at(DateTime { date: 6, time: 0 }));
    assert!(!started_task.started_at(DateTime { date: 5, time: 99 }));
    let unscheduled = Task::new(String::from("b"), String::from(""), H, None, None, None);
    assert!(unscheduled.started_at(DateTime { date: 0, time: 0 }));
    // Through the clock: a task with no start is always active.
    assert!(unscheduled.started());
    // A start in the far past is always reached by now.
    assert!(started_task.started());
}

#[test]
fn status_labels() {
    assert_eq!(Status::INVALID.label(), "Invalid");
    assert_eq!(Status::INCOMPLETE.label(), "Incomplete");
    assert_eq!(Status::COMPLETE.label(), "Complete");
}
