use tasklist::Error;
use tasklist::List;
use tasklist::Task;

const H: u64 = 3600;

fn plain_task(name: &str, hours: u64) -> Task {
    Task::new(String::from(name), String::from(""), hours * H, None, None, None)
}

fn as_sorted(mut v: Vec<usize>) -> Vec<usize> {
    v.sort();
    v
}

#[test]
fn add_task_assigns_increasing_ids() {
    let mut list = List::new();
    assert_eq!(list.add_task(plain_task("a", 1)), Ok(0));
    assert_eq!(list.add_task(plain_task("b", 1)), Ok(1));
    assert_eq!(list.add_task(plain_task("c", 1)), Ok(2));
    assert!(list.contains_task(1));
    assert_eq!(list.get_task(1).unwrap().name, "b");
    assert_eq!(list.get_task(1).unwrap().id, Some(1));
    assert_eq!(list.task_count(), 3);
}

#[test]
fn initialized_task_is_rejected() {
    let mut list = List::new();
    let mut t = plain_task("a", 1);
    t.initialize(7).unwrap();
    assert_eq!(t.initialize(8), Err(Error::AlreadyInitialized));
    assert_eq!(list.add_task(t), Err(Error::AlreadyInitialized));
    assert_eq!(list.task_count(), 0);
}

#[test]
fn subtask_edges_are_reciprocal() {
    let mut list = List::new();
    list.add_task(plain_task("a", 1)).unwrap();
    list.add_task(plain_task("b", 1)).unwrap();
    list.add_subtask(0, 1).unwrap();
    assert!(list.get_task(0).unwrap().subtasks.contains(&1));
    assert!(list.get_task(1).unwrap().supertasks.contains(&0));
    list.remove_subtask(0, 1).unwrap();
    assert!(!list.get_task(0).unwrap().subtasks.contains(&1));
    assert!(!list.get_task(1).unwrap().supertasks.contains(&0));
}

#[test]
fn supertask_edges_are_reciprocal() {
    let mut list = List::new();
    list.add_task(plain_task("a", 1)).unwrap();
    list.add_task(plain_task("b", 1)).unwrap();
    list.add_supertask(0, 1).unwrap();
    assert!(list.get_task(1).unwrap().subtasks.contains(&0));
    assert!(list.get_task(0).unwrap().supertasks.contains(&1));
    list.remove_supertask(0, 1).unwrap();
    assert!(!list.get_task(1).unwrap().subtasks.contains(&0));
    assert!(!list.get_task(0).unwrap().supertasks.contains(&1));
}

#[test]
fn edge_operations_need_both_tasks() {
    let mut list = List::new();
    list.add_task(plain_task("a", 1)).unwrap();
    assert_eq!(list.add_subtask(0, 9), Err(Error::UnknownTaskId));
    assert_eq!(list.add_subtask(9, 0), Err(Error::UnknownTaskId));
    assert_eq!(list.remove_subtask(0, 9), Err(Error::UnknownTaskId));
    assert_eq!(list.remove_task(9), Err(Error::UnknownTaskId));
    assert!(list.get_task(0).unwrap().subtasks.is_empty());
}

#[test]
fn duplicate_edge_insert_is_idempotent() {
    let mut list = List::new();
    list.add_task(plain_task("a", 1)).unwrap();
    list.add_task(plain_task("b", 1)).unwrap();
    list.add_subtask(0, 1).unwrap();
    list.add_subtask(0, 1).unwrap();
    assert_eq!(list.get_task(0).unwrap().subtasks.len(), 1);
    assert_eq!(list.get_task(1).unwrap().supertasks.len(), 1);
}

#[test]
fn closure_queries_contain_the_task_itself() {
    let mut list = List::new();
    list.add_task(plain_task("a", 1)).unwrap();
    assert_eq!(list.get_all_children(0), vec![0]);
    assert_eq!(list.get_all_parents(0), vec![0]);
}

#[test]
fn closure_queries_walk_a_diamond_once() {
    let mut list = List::new();
    for name in ["a", "b", "c", "d"] {
        list.add_task(plain_task(name, 1)).unwrap();
    }
    list.add_subtask(0, 1).unwrap();
    list.add_subtask(0, 2).unwrap();
    list.add_subtask(1, 3).unwrap();
    list.add_subtask(2, 3).unwrap();
    assert_eq!(as_sorted(list.get_all_children(0)), vec![0, 1, 2, 3]);
    assert_eq!(as_sorted(list.get_all_parents(3)), vec![0, 1, 2, 3]);
    assert_eq!(as_sorted(list.get_all_children(1)), vec![1, 3]);
    assert_eq!(as_sorted(list.get_all_parents(2)), vec![0, 2]);
}

#[test]
fn removal_detaches_the_subtask() {
    // c -> a -> b; removing a leaves b without supertasks and unreachable
    // from c.
    let mut list = List::new();
    list.add_task(plain_task("c", 1)).unwrap();
    list.add_task(plain_task("a", 1)).unwrap();
    list.add_task(plain_task("b", 1)).unwrap();
    list.add_subtask(0, 1).unwrap();
    list.add_subtask(1, 2).unwrap();
    list.remove_task(1).unwrap();
    assert!(!list.contains_task(1));
    assert!(list.get_task(2).unwrap().supertasks.is_empty());
    assert_eq!(list.get_all_children(0), vec![0]);
    assert_eq!(list.get_all_parents(2), vec![2]);
}

#[test]
fn completion_requires_empty_subtask_set() {
    let mut list = List::new();
    list.add_task(plain_task("a", 1)).unwrap();
    list.add_task(plain_task("b", 1)).unwrap();
    list.add_subtask(0, 1).unwrap();
    assert_eq!(list.complete_task(0), Err(Error::DependencyError));
    assert!(list.contains_task(0));
    assert_eq!(list.complete_task(1), Ok(()));
    assert!(!list.contains_task(1));
    assert!(list.get_task(0).unwrap().subtasks.is_empty());
    assert_eq!(list.complete_task(0), Ok(()));
    assert_eq!(list.complete_task(0), Err(Error::UnknownTaskId));
}

#[test]
fn identifiers_are_not_reused_after_removal() {
    let mut list = List::new();
    list.add_task(plain_task("a", 1)).unwrap();
    list.add_task(plain_task("b", 1)).unwrap();
    list.remove_task(1).unwrap();
    assert_eq!(list.add_task(plain_task("c", 1)), Ok(2));
    assert_eq!(as_sorted(list.task_ids()), vec![0, 2]);
}

#[test]
fn modify_task_replaces_content_and_keeps_edges() {
    let mut list = List::new();
    list.add_task(plain_task("a", 1)).unwrap();
    list.add_task(plain_task("b", 1)).unwrap();
    list.add_subtask(0, 1).unwrap();
    let replacement = Task::new(
        String::from("renamed"),
        String::from("new text"),
        5 * H,
        Some(250),
        None,
        None,
    );
    list.modify_task(0, replacement).unwrap();
    let t = list.get_task(0).unwrap();
    assert_eq!(t.name, "renamed");
    assert_eq!(t.description, "new text");
    assert_eq!(t.estimated_time, 5 * H);
    assert_eq!(t.estimated_stress, Some(250));
    assert_eq!(t.id, Some(0));
    assert!(t.subtasks.contains(&1));
    assert_eq!(list.modify_task(9, plain_task("x", 1)), Err(Error::UnknownTaskId));
}

#[test]
fn error_messages_name_the_failure() {
    assert_eq!(Error::UnknownTaskId.message(), "unknown task id");
    assert_eq!(Error::AlreadyInitialized.message(), "task already has an id");
    assert_eq!(Error::DependencyError.message(), "a subtask is not complete");
    assert_eq!(Error::OverlapError.message(), "block overlaps with itinerary");
    assert_eq!(Error::ScheduleExhausted.message(), "schedule has no availability");
}

#[test]
fn update_subtasks_applies_the_selection_exactly() {
    let mut list = List::new();
    for name in ["a", "b", "c", "d"] {
        list.add_task(plain_task(name, 1)).unwrap();
    }
    list.add_subtask(0, 1).unwrap();
    list.add_subtask(0, 2).unwrap();
    // Keep 2, drop 1, add 3.
    list.update_subtasks(0, &vec![2, 3]).unwrap();
    assert_eq!(as_sorted(list.get_task(0).unwrap().subtasks.clone()), vec![2, 3]);
    assert!(list.get_task(1).unwrap().supertasks.is_empty());
    assert!(list.get_task(3).unwrap().supertasks.contains(&0));
    // An unknown selection leaves everything unchanged.
    assert_eq!(list.update_subtasks(0, &vec![2, 9]), Err(Error::UnknownTaskId));
    assert_eq!(as_sorted(list.get_task(0).unwrap().subtasks.clone()), vec![2, 3]);
}

#[test]
fn update_supertasks_applies_the_selection_exactly() {
    let mut list = List::new();
    for name in ["a", "b", "c"] {
        list.add_task(plain_task(name, 1)).unwrap();
    }
    list.add_supertask(0, 1).unwrap();
    list.update_supertasks(0, &vec![2]).unwrap();
    assert_eq!(list.get_task(0).unwrap().supertasks, vec![2]);
    assert!(list.get_task(1).unwrap().subtasks.is_empty());
    assert!(list.get_task(2).unwrap().subtasks.contains(&0));
}
