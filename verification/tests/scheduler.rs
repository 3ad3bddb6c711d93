use chrono::{TimeZone, Utc};
use pomeranian::scheduler::{Schedule, Task, Time};
use std::ops::Range;

#[derive(Debug, PartialEq, Eq, Clone, Hash)]
pub struct ExplicitTask {
    pub priority: i64,
    pub work_period: Range<Time>,
    pub length: u64,
}

impl Task for ExplicitTask {
    fn priority_of(&self) -> i64 {
        self.priority
    }

    fn period_of(&self) -> Range<Time> {
        self.work_period.clone()
    }

    fn length_of(&self) -> u64 {
        self.length
    }

    fn priority(&self) -> i64 {
        self.priority
    }

    fn working_period(&self) -> Range<Time> {
        self.work_period.clone()
    }

    fn estimated_length(&self) -> u64 {
        self.length
    }
}

fn day() -> (Time, Time) {
    let start = Utc.with_ymd_and_hms(2024, 3, 30, 0, 0, 0).unwrap();
    let end = Utc.with_ymd_and_hms(2024, 3, 31, 0, 0, 0).unwrap();
    (start.timestamp(), end.timestamp())
}

fn schedule_of(tasks: Vec<(String, ExplicitTask)>, timeslice_length: u64) -> Schedule<ExplicitTask> {
    let mut schedule = Schedule::new(timeslice_length);
    for (id, task) in tasks {
        assert!(schedule.add_task(id, task).is_none());
    }
    schedule
}

fn held_slots(schedule: &Schedule<ExplicitTask>, id: &str) -> Vec<Time> {
    (0..schedule.slot_count())
        .filter(|&i| schedule.slot_task(i).as_deref() == Some(id))
        .map(|i| schedule.slot_time(i))
        .collect()
}

#[test]
fn scheduler_possible() {
    let (start, end) = day();
    let hour: i64 = 60 * 60;
    let tasks = (1..9)
        .map(|i: i64| {
            (
                i.to_string(),
                ExplicitTask {
                    priority: i,
                    work_period: (start + (hour * i))..(start + (hour * i * 3)),
                    length: 30 * 60,
                },
            )
        })
        .collect();
    let mut schedule = schedule_of(tasks, 25 * 60);
    schedule.layout_slots(&(start..end), 30 * 60);

    let failed = schedule.schedule();
    schedule.shuffle();
    assert!(schedule.check_times());

    assert!(failed.is_empty());
}

#[test]
fn scheduler_impossible() {
    let (start, end) = day();
    let tasks: Vec<_> = (0..49)
        .map(|i: i64| {
            (
                i.to_string(),
                ExplicitTask {
                    priority: i,
                    work_period: start..end,
                    length: 25 * 60,
                },
            )
        })
        .collect();
    let mut schedule = schedule_of(tasks, 25 * 60);
    schedule.layout_slots(&(start..end), 30 * 60);

    let failed = schedule.schedule();
    schedule.shuffle();
    assert!(schedule.check_times());

    assert_eq!(failed, &["0".to_string()]);
}

#[test]
fn scheduler_check_starvation() {
    let (start, end) = day();
    let hour: i64 = 60 * 60;

    let tasks = vec![
        (
            0.to_string(),
            ExplicitTask {
                priority: 1,
                work_period: (start + (hour * 4))..(start + (hour * 6)),
                length: 60 * 60,
            },
        ),
        (
            1.to_string(),
            ExplicitTask {
                priority: 9,
                work_period: (start + (hour * 2))..(start + (hour * 23)),
                length: 13 * 60 * 60,
            },
        ),
    ];

    let mut schedule = schedule_of(tasks, 25 * 60);
    schedule.layout_slots(&(start..end), 30 * 60);

    let failed = schedule.schedule();
    schedule.shuffle();
    assert!(schedule.check_times());

    println!("{failed:?}");
    assert!(failed.is_empty());
}

#[test]
fn layout_slots_lays_a_grid() {
    let mut schedule: Schedule<ExplicitTask> = Schedule::new(25 * 60);
    schedule.layout_slots(&(100..1000), 300);
    let times: Vec<Time> = (0..schedule.slot_count()).map(|i| schedule.slot_time(i)).collect();
    assert_eq!(times, vec![100, 400, 700]);
    schedule.layout_slots(&(250..701), 150);
    let times: Vec<Time> = (0..schedule.slot_count()).map(|i| schedule.slot_time(i)).collect();
    assert_eq!(times, vec![100, 250, 400, 550, 700]);
    schedule.layout_slots(&(5..5), 1);
    assert_eq!(schedule.slot_count(), 5);
}

#[test]
fn impossible_leaves_the_loser_without_a_slot() {
    let (start, end) = day();
    let tasks: Vec<_> = (0..49)
        .map(|i: i64| {
            (
                i.to_string(),
                ExplicitTask { priority: i, work_period: start..end, length: 25 * 60 },
            )
        })
        .collect();
    let mut schedule = schedule_of(tasks, 25 * 60);
    schedule.layout_slots(&(start..end), 30 * 60);
    assert_eq!(schedule.slot_count(), 48);
    let failed = schedule.schedule();
    assert_eq!(failed, vec!["0".to_string()]);
    assert_eq!(schedule.unsatisfied_tasks(), failed);
    assert!(held_slots(&schedule, "0").is_empty());
    for i in 1..49 {
        assert_eq!(held_slots(&schedule, &i.to_string()).len(), 1);
    }
}

fn plain(priority: i64, start: Time, end: Time, length: u64) -> ExplicitTask {
    ExplicitTask { priority, work_period: start..end, length }
}

fn arrangement(schedule: &Schedule<ExplicitTask>) -> Vec<(Time, Option<String>)> {
    (0..schedule.slot_count()).map(|i| (schedule.slot_time(i), schedule.slot_task(i))).collect()
}

fn some(id: &str) -> Option<String> {
    Some(id.to_string())
}

#[test]
fn divided_into_rounds_up() {
    assert_eq!(plain(0, 0, 1, 3600).divided_into(1500), 3);
    assert_eq!(plain(0, 0, 1, 3000).divided_into(1500), 2);
    assert_eq!(plain(0, 0, 1, 3001).divided_into(1500), 3);
    assert_eq!(plain(0, 0, 1, 1).divided_into(1500), 1);
    assert_eq!(plain(0, 0, 1, 0).divided_into(1500), 0);
    assert_eq!(plain(0, 0, 1, u64::MAX).divided_into(1), u64::MAX);
    assert_eq!(plain(0, 0, 1, u64::MAX).divided_into(u64::MAX), 1);
    assert_eq!(plain(0, 0, 1, 13 * 3600).divided_into(1500), 32);
}

#[test]
fn priority_precedence() {
    // Two tasks want both slots of the window they share.
    let mut schedule = schedule_of(
        vec![("low".to_string(), plain(1, 0, 100, 20)), ("high".to_string(), plain(2, 0, 100, 20))],
        10,
    );
    schedule.layout_slots(&(0..100), 50);
    let failed = schedule.schedule();
    assert_eq!(failed, vec!["low".to_string()]);
    assert_eq!(arrangement(&schedule), vec![(0, some("high")), (50, some("high"))]);
    assert!(schedule.check_times());
}

#[test]
fn equal_priority_never_preempts() {
    let mut schedule = schedule_of(
        vec![("first".to_string(), plain(3, 0, 100, 20)), ("second".to_string(), plain(3, 0, 100, 20))],
        10,
    );
    schedule.layout_slots(&(0..100), 50);
    let failed = schedule.schedule();
    assert_eq!(failed, vec!["second".to_string()]);
    assert_eq!(arrangement(&schedule), vec![(0, some("first")), (50, some("first"))]);
}

#[test]
fn the_narrowest_window_is_seeded_first() {
    // The wide task is entered first, but the narrow one chooses first.
    let mut schedule = schedule_of(
        vec![("wide".to_string(), plain(5, 0, 1000, 10)), ("narrow".to_string(), plain(1, 0, 10, 10))],
        10,
    );
    schedule.layout_slots(&(0..1000), 500);
    let failed = schedule.schedule();
    assert!(failed.is_empty());
    assert_eq!(arrangement(&schedule), vec![(0, some("narrow")), (500, some("wide"))]);
}

#[test]
fn the_weakest_holder_is_preempted_first() {
    let mut schedule = schedule_of(
        vec![
            ("b".to_string(), plain(2, 0, 10, 10)),
            ("c".to_string(), plain(1, 10, 20, 10)),
            ("d".to_string(), plain(3, 20, 30, 10)),
            ("claimant".to_string(), plain(9, 0, 30, 10)),
        ],
        10,
    );
    schedule.layout_slots(&(0..30), 10);
    let failed = schedule.schedule();
    assert_eq!(failed, vec!["c".to_string()]);
    assert_eq!(arrangement(&schedule), vec![(0, some("b")), (10, some("claimant")), (20, some("d"))]);
}

#[test]
fn preemption_cascades() {
    // "top" takes the slot of "mid", which in turn takes the slot of "low".
    let mut schedule = schedule_of(
        vec![
            ("mid".to_string(), plain(2, 0, 20, 10)),
            ("low".to_string(), plain(1, 10, 20, 10)),
            ("top".to_string(), plain(3, 0, 10, 10)),
        ],
        10,
    );
    schedule.place(0, some("mid"));
    schedule.place(10, some("low"));
    let failed = schedule.schedule();
    assert_eq!(failed, vec!["low".to_string()]);
    assert_eq!(arrangement(&schedule), vec![(0, some("top")), (10, some("mid"))]);
}

#[test]
fn stale_and_misplaced_holders_are_freed() {
    let mut schedule = schedule_of(vec![("a".to_string(), plain(1, 100, 200, 10))], 10);
    schedule.place(0, some("a"));
    schedule.place(50, some("ghost"));
    schedule.place(150, some("ghost"));
    assert!(!schedule.check_times());
    assert_eq!(schedule.unsatisfied_tasks(), Vec::<String>::new());
    let failed = schedule.schedule();
    assert!(failed.is_empty());
    assert_eq!(arrangement(&schedule), vec![(0, None), (50, None), (150, some("a"))]);
    assert!(schedule.check_times());
}

#[test]
fn surplus_is_reclaimed_earliest_first() {
    let mut schedule = schedule_of(vec![("a".to_string(), plain(1, 0, 100, 20))], 10);
    for time in [0, 10, 20, 30] {
        schedule.place(time, some("a"));
    }
    let failed = schedule.schedule();
    assert!(failed.is_empty());
    assert_eq!(
        arrangement(&schedule),
        vec![(0, None), (10, None), (20, some("a")), (30, some("a"))]
    );
    // Placing the tasks again changes nothing.
    schedule.schedule();
    assert_eq!(
        arrangement(&schedule),
        vec![(0, None), (10, None), (20, some("a")), (30, some("a"))]
    );
}

#[test]
fn an_empty_window_cannot_be_satisfied() {
    let mut schedule = schedule_of(
        vec![
            ("never".to_string(), plain(9, 50, 50, 10)),
            ("backwards".to_string(), plain(9, 60, 40, 10)),
            ("nothing".to_string(), plain(9, 50, 50, 0)),
        ],
        10,
    );
    schedule.layout_slots(&(0..100), 10);
    let failed = schedule.schedule();
    assert_eq!(failed, vec!["never".to_string(), "backwards".to_string()]);
    assert!(arrangement(&schedule).iter().all(|slot| slot.1.is_none()));
}

#[test]
fn no_slots_and_no_tasks() {
    let mut schedule: Schedule<ExplicitTask> = Schedule::new(10);
    assert!(schedule.schedule().is_empty());
    schedule.shuffle();
    assert!(schedule.check_times());
    assert!(schedule.unsatisfied_tasks().is_empty());
    schedule.add_task("a".to_string(), plain(1, 0, 10, 10));
    assert_eq!(schedule.schedule(), vec!["a".to_string()]);
    assert_eq!(schedule.unsatisfied_tasks(), vec!["a".to_string()]);
}

#[test]
fn unsatisfied_tasks_counts_slots() {
    let mut schedule = schedule_of(
        vec![
            ("a".to_string(), plain(1, 0, 100, 25)),
            ("b".to_string(), plain(1, 0, 100, 10)),
            ("c".to_string(), plain(1, 0, 100, 0)),
        ],
        10,
    );
    schedule.place(0, some("a"));
    schedule.place(10, some("a"));
    schedule.place(20, some("b"));
    assert_eq!(schedule.unsatisfied_tasks(), vec!["a".to_string()]);
    assert_eq!(schedule.held_by(&"a".to_string()), 2);
    assert_eq!(schedule.held_by(&"b".to_string()), 1);
    assert_eq!(schedule.held_by(&"c".to_string()), 0);
    schedule.place(30, some("a"));
    assert!(schedule.unsatisfied_tasks().is_empty());
}

#[test]
fn remove_old_slots_keeps_what_has_not_ended() {
    let mut schedule: Schedule<ExplicitTask> = Schedule::new(25);
    schedule.layout_slots(&(0..100), 25);
    schedule.place(50, some("a"));
    schedule.remove_old_slots(75);
    assert_eq!(arrangement(&schedule), vec![(50, some("a")), (75, None)]);
    schedule.remove_old_slots(76);
    assert_eq!(arrangement(&schedule), vec![(75, None)]);
    schedule.remove_old_slots(Time::MIN);
    assert_eq!(schedule.slot_count(), 1);
    schedule.remove_old_slots(Time::MAX);
    assert_eq!(schedule.slot_count(), 0);
}

#[test]
fn layout_slots_empties_the_slots_it_meets() {
    let mut schedule: Schedule<ExplicitTask> = Schedule::new(25);
    schedule.place(10, some("a"));
    schedule.place(20, some("b"));
    schedule.layout_slots(&(0..20), 10);
    assert_eq!(arrangement(&schedule), vec![(0, None), (10, None), (20, some("b"))]);
    schedule.layout_slots(&(Time::MAX - 5..Time::MAX), 3);
    assert_eq!(schedule.slot_count(), 5);
    assert_eq!(schedule.slot_time(4), Time::MAX - 2);
}

#[test]
fn the_table_keeps_its_order() {
    let mut schedule = schedule_of(
        vec![("a".to_string(), plain(1, 0, 10, 10)), ("b".to_string(), plain(2, 0, 10, 10))],
        10,
    );
    assert_eq!(schedule.add_task("a".to_string(), plain(7, 5, 6, 1)), Some(plain(1, 0, 10, 10)));
    assert_eq!(schedule.task_count(), 2);
    assert_eq!(schedule.task_id(0), "a");
    assert_eq!(schedule.task_at(0), &plain(7, 5, 6, 1));
    assert_eq!(schedule.task(&"b".to_string()), Some(&plain(2, 0, 10, 10)));
    assert_eq!(schedule.task(&"c".to_string()), None);
    assert_eq!(schedule.position_of(&"b".to_string()), Some(1));
    assert_eq!(schedule.drop_task(&"a".to_string()), Some(plain(7, 5, 6, 1)));
    assert_eq!(schedule.drop_task(&"a".to_string()), None);
    assert_eq!(schedule.task_id(0), "b");
    assert_eq!(schedule.timeslice_length(), 10);
}

#[test]
fn release_empties_the_slots_of_a_task() {
    let mut schedule: Schedule<ExplicitTask> = Schedule::new(10);
    schedule.place(0, some("a"));
    schedule.place(10, some("b"));
    schedule.place(20, some("a"));
    schedule.release(&"a".to_string());
    assert_eq!(arrangement(&schedule), vec![(0, None), (10, some("b")), (20, None)]);
    assert!(schedule.slot_is_free(0));
    assert!(!schedule.slot_is_free(1));
    assert!(schedule.slot_held_by(1, &"b".to_string()));
    assert!(!schedule.slot_held_by(1, &"a".to_string()));
    assert!(schedule.same_holder(0, 2));
    assert!(!schedule.same_holder(0, 1));
    schedule.clear_slots();
    assert_eq!(schedule.slot_count(), 0);
}

#[test]
fn shuffle_keeps_tasks_in_their_windows() {
    let (start, _) = day();
    let mut schedule = schedule_of(
        vec![
            ("a".to_string(), plain(1, start, start + 40, 30)),
            ("b".to_string(), plain(2, start + 20, start + 100, 20)),
            ("c".to_string(), plain(3, start + 90, start + 100, 10)),
        ],
        10,
    );
    schedule.layout_slots(&(start..(start + 100)), 10);
    assert!(schedule.schedule().is_empty());
    let before = arrangement(&schedule);
    let mut moved = false;
    for _ in 0..200 {
        schedule.shuffle();
        let after = arrangement(&schedule);
        assert!(schedule.check_times());
        assert!(schedule.unsatisfied_tasks().is_empty());
        assert_eq!(schedule.held_by(&"a".to_string()), 3);
        assert_eq!(schedule.held_by(&"b".to_string()), 2);
        assert_eq!(schedule.held_by(&"c".to_string()), 1);
        assert_eq!(after.len(), before.len());
        for (old, new) in before.iter().zip(after.iter()) {
            assert_eq!(old.0, new.0);
        }
        // The last slot is the only one in the window of its task.
        assert_eq!(after[9].1, some("c"));
        moved = moved || after != before;
    }
    assert!(moved);
}

#[test]
fn shuffle_only_swaps_with_later_slots_in_reach() {
    // The task may only work at its own slot: nothing can move.
    let mut schedule = schedule_of(vec![("a".to_string(), plain(1, 10, 20, 10))], 10);
    schedule.layout_slots(&(0..30), 10);
    assert!(schedule.schedule().is_empty());
    for _ in 0..50 {
        schedule.shuffle();
        assert_eq!(arrangement(&schedule), vec![(0, None), (10, some("a")), (20, None)]);
    }
}

#[test]
fn a_copy_is_equal_and_apart() {
    let mut schedule = schedule_of(vec![("a".to_string(), plain(1, 0, 100, 20))], 10);
    schedule.layout_slots(&(0..100), 25);
    schedule.schedule();
    let copy = schedule.clone();
    schedule.clear_slots();
    assert_eq!(
        arrangement(&copy),
        vec![(0, some("a")), (25, some("a")), (50, None), (75, None)]
    );
    assert_eq!(copy.task_count(), 1);
    assert_eq!(copy.timeslice_length(), 10);
}

#[test]
fn neighbours_are_the_later_slots_in_mutual_reach() {
    let mut schedule = schedule_of(
        vec![
            ("a".to_string(), plain(1, 0, 40, 10)),
            ("b".to_string(), plain(1, 20, 60, 10)),
            ("c".to_string(), plain(1, 0, 60, 10)),
        ],
        10,
    );
    schedule.place(0, some("a"));
    schedule.place(10, None);
    schedule.place(20, some("b"));
    schedule.place(30, some("c"));
    schedule.place(40, None);
    schedule.place(50, some("ghost"));
    // "a" may work until 40; "b" may not work at 0.
    assert_eq!(schedule.neighbours_of(0), vec![1, 3]);
    // An empty slot reaches every later slot whose holder may work at 10.
    assert_eq!(schedule.neighbours_of(1), vec![3, 4, 5]);
    assert_eq!(schedule.neighbours_of(2), vec![3, 4, 5]);
    assert_eq!(schedule.neighbours_of(5), Vec::<usize>::new());
}

#[test]
fn exchange_with_the_neighbour_that_was_picked() {
    let mut schedule = schedule_of(
        vec![("a".to_string(), plain(1, 0, 40, 10)), ("c".to_string(), plain(1, 0, 60, 10))],
        10,
    );
    schedule.place(0, some("a"));
    schedule.place(10, None);
    schedule.place(30, some("c"));
    let before = arrangement(&schedule);
    schedule.exchange_picked(0, 0);
    assert_eq!(arrangement(&schedule), before);
    schedule.exchange_picked(0, 2);
    assert_eq!(arrangement(&schedule), vec![(0, some("c")), (10, None), (30, some("a"))]);
    schedule.exchange_picked(0, 1);
    assert_eq!(arrangement(&schedule), vec![(0, None), (10, some("c")), (30, some("a"))]);
}
