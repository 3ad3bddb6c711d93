use pomeranian::db::CTask;
use pomeranian::scheduler::{Schedule, Time};
use pomeranian::strategy::{
    finish_waits, free_stretches, free_waits, last_slot_of, task_stretches,
};

fn task(start: Time, end: Time) -> CTask {
    CTask {
        priority: 0,
        working_period: start..end,
        estimated_length: 0,
        worked_length: 0,
        name: String::new(),
        remote_id: None,
    }
}

fn schedule_with(holders: &[Option<&str>]) -> Schedule<CTask> {
    let mut schedule = Schedule::new(10);
    for id in ["a", "b", "idle"] {
        schedule.add_task(id.to_string(), task(0, 1000));
    }
    for (i, holder) in holders.iter().enumerate() {
        schedule.place(100 * i as Time, holder.map(|id| id.to_string()));
    }
    schedule
}

#[test]
fn stretches_of_free_time() {
    let schedule = schedule_with(&[None, None, Some("a"), None, Some("a"), Some("b"), None, None, None]);
    assert_eq!(free_stretches(&schedule), (6, 3));
    assert_eq!(free_stretches(&schedule_with(&[])), (0, 0));
    assert_eq!(free_stretches(&schedule_with(&[Some("a")])), (0, 0));
    assert_eq!(free_stretches(&schedule_with(&[None])), (1, 1));
}

#[test]
fn stretches_with_one_task() {
    let schedule = schedule_with(&[Some("a"), Some("a"), Some("b"), None, Some("b"), Some("b"), Some("a")]);
    assert_eq!(task_stretches(&schedule), (6, 4));
    assert_eq!(task_stretches(&schedule_with(&[])), (0, 0));
    assert_eq!(task_stretches(&schedule_with(&[None, None])), (0, 0));
    assert_eq!(task_stretches(&schedule_with(&[Some("a"), None, Some("a")])), (2, 2));
}

#[test]
fn waits_for_free_time() {
    let schedule = schedule_with(&[None, Some("a"), None, None]);
    // Empty slots at 0, 200 and 300, seen from 250.
    assert_eq!(free_waits(&schedule, 250), Some((-250 - 50 + 50, 3)));
    assert_eq!(free_waits(&schedule_with(&[Some("a")]), 0), Some((0, 0)));
    assert_eq!(free_waits(&schedule, Time::MIN), Some((500 + 3 * (1i128 << 63), 3)));
}

#[test]
fn waits_for_the_last_slot_of_each_task() {
    let schedule = schedule_with(&[Some("a"), Some("b"), Some("a"), None, Some("b"), None]);
    assert_eq!(last_slot_of(&schedule, &"a".to_string()), Some(200));
    assert_eq!(last_slot_of(&schedule, &"b".to_string()), Some(400));
    assert_eq!(last_slot_of(&schedule, &"idle".to_string()), None);
    assert_eq!(finish_waits(&schedule, 100), Some((100 + 300, 2)));
    assert_eq!(finish_waits(&schedule_with(&[None]), 100), Some((0, 0)));
}
