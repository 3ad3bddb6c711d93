use pomeranian::db::search::is_improvement;
use pomeranian::db::timeline::resume;
use pomeranian::db::{CTask, Db, TimelineError};
use pomeranian::pomodoro::Pomodoro;
use pomeranian::scheduler::{Schedule, Task, Time};


fn task(priority: u32, start: Time, end: Time, estimated: u64, worked: u64) -> CTask {
    CTask {
        priority,
        working_period: start..end,
        estimated_length: estimated,
        worked_length: worked,
        name: format!("task {priority}"),
        remote_id: None,
    }
}

fn slots_of(schedule: &Schedule<CTask>) -> Vec<(Time, Option<String>)> {
    (0..schedule.slot_count()).map(|i| (schedule.slot_time(i), schedule.slot_task(i))).collect()
}

#[test]
fn default_settings() {
    let db = Db::default();
    assert_eq!(db.schedule().timeslice_length(), 25 * 60);
    assert_eq!(db.active_period(), (9 * 3600)..(17 * 3600));
    assert_eq!(db.break_interval(), 4);
    assert_eq!(db.short_break(), 5 * 60);
    assert_eq!(db.long_break(), 30 * 60);
    assert_eq!(db.state_count(), 0);
    assert_eq!(db.schedule().slot_count(), 0);
    assert_eq!(db.schedule().task_count(), 0);
}

#[test]
fn new_refuses_empty_periods() {
    assert!(Db::new(0, 0..10, 4, 1, 1).is_none());
    assert!(Db::new(1, 0..10, 0, 1, 1).is_none());
    assert!(Db::new(1, 0..10, 4, 0, 1).is_none());
    assert!(Db::new(1, 0..10, 4, 1, 0).is_none());
    assert!(Db::new(1, 0..10, 1, 1, 1).is_some());
}

#[test]
fn period_lengths() {
    let db = Db::new(1500, 0..10, 4, 300, 1800).unwrap();
    assert_eq!(db.period_length(Pomodoro::Work(2)), 1500);
    assert_eq!(db.period_length(Pomodoro::Break(2)), 300);
    assert_eq!(db.period_length(Pomodoro::LongBreak), 1800);
}

#[test]
fn remaining_length_is_clamped() {
    assert_eq!(task(1, 0, 10, 100, 30).estimated_length(), 70);
    assert_eq!(task(1, 0, 10, 100, 130).estimated_length(), 0);
    assert_eq!(task(1, 0, 10, 100, 30).divided_into(25), 3);
    assert_eq!(task(1, 0, 10, 100, 0).divided_into(25), 4);
    assert_eq!(task(1, 0, 10, 0, 0).divided_into(25), 0);
    assert_eq!(task(7, 3, 10, 0, 0).priority(), 7);
    assert_eq!(task(7, 3, 10, 0, 0).working_period(), 3..10);
}

#[test]
fn open_period_follows_the_cadence() {
    let mut db = Db::new(1500, 0..10, 2, 300, 1800).unwrap();
    assert_eq!(db.open_period(1000, Pomodoro::LongBreak), Some((2500, Pomodoro::Work(1))));
    assert_eq!(db.open_period(2500, Pomodoro::Work(1)), Some((2800, Pomodoro::Break(0))));
    assert_eq!(db.open_period(2800, Pomodoro::Break(0)), Some((4300, Pomodoro::Work(0))));
    assert_eq!(db.open_period(4300, Pomodoro::Work(0)), Some((6100, Pomodoro::LongBreak)));
    assert_eq!(db.state_count(), 4);
    assert_eq!(db.state_at(0), (1000..2500, Pomodoro::Work(1)));
    assert_eq!(db.state_at(3), (4300..6100, Pomodoro::LongBreak));
    assert_eq!(slots_of(db.schedule()), vec![(1000, None), (2800, None)]);
    // A period may not start before the timeline ends, nor end out of range.
    assert_eq!(db.open_period(6000, Pomodoro::LongBreak), None);
    assert_eq!(db.open_period(Time::MAX - 10, Pomodoro::LongBreak), None);
    assert_eq!(db.state_count(), 4);
}

#[test]
fn resume_rolls_over_after_the_active_period() {
    let state = Pomodoro::Work(2);
    assert_eq!(resume(100, state, Some(100), Some(500)), Some((100, state)));
    assert_eq!(resume(100, state, Some(200), None), Some((100, state)));
    assert_eq!(resume(101, state, Some(100), Some(500)), Some((500, Pomodoro::LongBreak)));
    assert_eq!(resume(101, state, Some(100), Some(101)), None);
    assert_eq!(resume(101, state, Some(100), None), None);
    assert_eq!(resume(101, state, None, Some(500)), None);
}

#[test]
fn create_slots_covers_the_target() {
    let mut db = Db::default();
    let now = 1_711_756_800; // 2024-03-30 00:00:00 UTC
    let target = now + 3 * 24 * 3600;
    match db.create_slots_from(now, target) {
        Ok(cursor) => assert!(cursor >= target),
        Err(TimelineError::Unresolved) => return,
        Err(TimelineError::OutOfRange) => panic!("in range"),
    }
    assert!(db.state_count() > 0);
    let mut previous_end = now;
    let mut work = 0;
    for i in 0..db.state_count() {
        let (span, state) = db.state_at(i);
        assert!(span.start >= previous_end);
        assert!(span.start < target);
        assert_eq!(span.end - span.start, db.period_length(state) as i64);
        if state.is_work() {
            work += 1;
        }
        previous_end = span.end;
    }
    assert_eq!(db.state_at(0), (now..(now + 1500), Pomodoro::Work(3)));
    assert_eq!(db.schedule().slot_count(), work);
    // Nothing is added once the target is covered.
    let count = db.state_count();
    let last_end = db.state_at(count - 1).0.end;
    if last_end >= target {
        assert_eq!(db.create_slots_from(now, target), Ok(last_end));
        assert_eq!(db.state_count(), count);
    }
}

#[test]
fn create_slots_stops_out_of_range() {
    let mut db = Db::default();
    assert_eq!(db.create_slots_from(Time::MAX - 5, Time::MAX), Err(TimelineError::OutOfRange));
    assert_eq!(db.state_count(), 0);
    assert_eq!(db.create_slots_from(1000, 1000), Ok(1000));
    assert_eq!(db.create_slots_from(1000, 5), Ok(1000));
    assert_eq!(db.create_slots_from(-1000, -5), Ok(0));
}

#[test]
fn insert_and_remove_task() {
    let mut db = Db::new(1500, 0..86_400, 4, 300, 1800).unwrap();
    db.load_slot(100, None);
    db.load_slot(2000, None);
    db.load_slot(4000, None);
    // A target in the past lays out nothing; the task is placed on the slots at hand.
    let _ = db.insert_task("a".to_string(), task(1, 0, 5000, 3000, 0));
    assert_eq!(db.state_count(), 0);
    assert_eq!(
        slots_of(db.schedule()),
        vec![(100, Some("a".to_string())), (2000, Some("a".to_string())), (4000, None)]
    );
    assert!(db.schedule().unsatisfied_tasks().is_empty());
    // The more important task takes both slots of its period; the other one
    // takes an empty slot only when the tasks are next placed.
    let _ = db.insert_task("b".to_string(), task(5, 0, 3000, 3000, 0));
    assert_eq!(
        slots_of(db.schedule()),
        vec![(100, Some("b".to_string())), (2000, Some("b".to_string())), (4000, None)]
    );
    assert_eq!(db.schedule().unsatisfied_tasks(), vec!["a".to_string()]);
    let _ = db.insert_task("c".to_string(), task(0, 0, 0, 0, 0));
    assert_eq!(
        slots_of(db.schedule()),
        vec![(100, Some("b".to_string())), (2000, Some("b".to_string())), (4000, Some("a".to_string()))]
    );
    assert_eq!(db.schedule().unsatisfied_tasks(), vec!["a".to_string()]);
    assert!(db.schedule().check_times());
    let gone = db.remove_task(&"b".to_string());
    assert_eq!(gone, Some(task(5, 0, 3000, 3000, 0)));
    assert_eq!(db.schedule().task_count(), 2);
    assert_eq!(db.schedule().held_by(&"a".to_string()), 2);
    assert!(db.schedule().unsatisfied_tasks().is_empty());
    assert_eq!(db.remove_task(&"b".to_string()), None);
}

#[test]
fn housekeeping_removes_the_past() {
    let mut db = Db::new(1500, 0..86_400, 4, 300, 1800).unwrap();
    assert!(db.load_state(0..1500, Pomodoro::Work(3)));
    assert!(db.load_state(1500..1800, Pomodoro::Break(2)));
    assert!(db.load_state(1800..3300, Pomodoro::Work(2)));
    assert!(!db.load_state(3000..3400, Pomodoro::Break(1)));
    assert!(!db.load_state(3400..3400, Pomodoro::Break(1)));
    db.load_slot(0, Some("gone".to_string()));
    db.load_slot(1800, Some("gone".to_string()));
    db.load_slot(299, None);
    db.load_slot(300, None);
    assert_eq!(db.horizon(1800), 1800);
    let _ = db.housekeeping_at(1800);
    assert_eq!(db.state_count(), 1);
    assert_eq!(db.state_at(0), (1800..3300, Pomodoro::Work(2)));
    // A slot stays while it does not end before now; the stale holder is gone.
    assert_eq!(slots_of(db.schedule()), vec![(300, None), (1800, None)]);
}

fn time_of_day(at: Time, second: u32) -> Option<Time> {
    Some(at - at.rem_euclid(86_400) + second as Time)
}

fn days_later(at: Time, days: u64) -> Option<Time> {
    Some(at + 86_400 * days as Time)
}

#[test]
fn the_day_turns_over_after_the_active_period() {
    let mut db = Db::new(1500, 32_400..61_200, 4, 300, 1800).unwrap();
    let reached = db.create_slots_with(59_400, 86_400 + 36_000, time_of_day, days_later);
    assert_eq!(reached, Ok(86_400 + 36_000));
    let periods: Vec<_> = (0..db.state_count()).map(|i| db.state_at(i)).collect();
    assert_eq!(
        periods,
        vec![
            (59_400..60_900, Pomodoro::Work(3)),
            (60_900..61_200, Pomodoro::Break(2)),
            (61_200..62_700, Pomodoro::Work(2)),
            (118_800..120_300, Pomodoro::Work(3)),
            (120_300..120_600, Pomodoro::Break(2)),
            (120_600..122_100, Pomodoro::Work(2)),
            (122_100..122_400, Pomodoro::Break(1)),
        ]
    );
    assert_eq!(
        slots_of(db.schedule()),
        vec![(59_400, None), (61_200, None), (118_800, None), (120_600, None)]
    );
}

#[test]
fn a_calendar_without_an_answer_stops_laying_out() {
    let mut db = Db::new(1500, 32_400..61_200, 4, 300, 1800).unwrap();
    let reached = db.create_slots_with(40_000, 50_000, |_, _| None, days_later);
    assert_eq!(reached, Err(TimelineError::Unresolved));
    assert_eq!(db.state_count(), 1);
    // The start of the next day is needed only once the day is over.
    let mut db = Db::new(1500, 32_400..61_200, 4, 300, 1800).unwrap();
    assert_eq!(db.create_slots_with(40_000, 41_000, time_of_day, |_, _| None), Ok(41_500));
    assert_eq!(
        db.create_slots_with(61_000, 70_000, time_of_day, |_, _| None),
        Err(TimelineError::Unresolved)
    );
    // A next start that is not later is no place to go on.
    let mut db = Db::new(1500, 32_400..61_200, 4, 300, 1800).unwrap();
    assert_eq!(
        db.create_slots_with(61_000, 70_000, time_of_day, |at, _| Some(at - 86_400)),
        Err(TimelineError::Unresolved)
    );
}

#[test]
fn laying_out_that_has_nothing_to_do() {
    let mut db = Db::new(1500, 0..86_400, 4, 300, 1800).unwrap();
    assert!(db.load_state(0..1500, Pomodoro::Work(3)));
    // The start cursor is the later of the clock and the end of the timeline.
    assert_eq!(db.create_slots_from(700, 1500), Ok(1500));
    assert_eq!(db.create_slots_from(2000, 1800), Ok(2000));
    assert_eq!(db.state_count(), 1);
    assert_eq!(db.housekeeping_at(3000), Ok(3000));
    assert_eq!(db.state_count(), 0);
    let reached = db.insert_task("late".to_string(), task(1, 0, 5000, 0, 0));
    assert!(matches!(reached, Ok(cursor) if cursor >= 5000));
    assert_eq!(db.state_count(), 0);
    assert_eq!(db.insert_task_at("later".to_string(), task(1, 0, 6000, 0, 0), 7000), Ok(7000));
    assert_eq!(db.schedule().task_count(), 2);
}

#[test]
fn the_first_new_period_follows_the_last() {
    let mut db = Db::new(1500, 0..86_400, 4, 300, 1800).unwrap();
    assert!(db.load_state(0..1500, Pomodoro::Work(2)));
    let _ = db.create_slots_from(2000, 2001);
    assert!(db.state_count() >= 2);
    assert_eq!(db.state_at(1), (2000..2300, Pomodoro::Break(1)));
}

#[test]
fn horizon_is_the_latest_end() {
    let mut db = Db::default();
    assert_eq!(db.horizon(77), 77);
    db.load_task("a".to_string(), task(1, 0, 500, 10, 0));
    db.load_task("b".to_string(), task(1, 0, 900, 10, 0));
    db.load_task("c".to_string(), task(1, 0, 700, 10, 0));
    assert_eq!(db.horizon(77), 900);
    assert_eq!(db.horizon(7000), 900);
}

#[test]
fn improvement_is_strict() {
    assert!(is_improvement(Some(2), Some(1)));
    assert!(!is_improvement(Some(1), Some(1)));
    assert!(!is_improvement(Some(0), Some(1)));
    assert!(!is_improvement(None, Some(1)));
    assert!(!is_improvement(Some(1), None));
    assert!(!is_improvement(None, None));
}

fn earliest_first(schedule: &Schedule<CTask>) -> Option<i64> {
    let mut score = 0;
    for i in 0..schedule.slot_count() {
        if schedule.slot_task(i).is_some() {
            score -= i as i64;
        }
    }
    Some(score)
}

#[test]
fn shuffle_maximizing_never_lowers_the_score() {
    let mut db = Db::new(1500, 0..86_400, 4, 300, 1800).unwrap();
    for i in 0..12 {
        db.load_slot(1800 * i, None);
    }
    let _ = db.insert_task("a".to_string(), task(1, 0, 30_000, 4500, 0));
    let _ = db.insert_task("b".to_string(), task(2, 3600, 9000, 3000, 0));
    let before = earliest_first(db.schedule());
    let times: Vec<Time> = slots_of(db.schedule()).into_iter().map(|s| s.0).collect();
    let (score, iterations) = db.shuffle_maximizing(earliest_first, 30);
    assert!(iterations > 0);
    assert!(score >= before);
    assert_eq!(score, earliest_first(db.schedule()));
    assert!(db.schedule().check_times());
    assert_eq!(db.schedule().held_by(&"a".to_string()), 3);
    assert_eq!(db.schedule().held_by(&"b".to_string()), 2);
    let after: Vec<Time> = slots_of(db.schedule()).into_iter().map(|s| s.0).collect();
    assert_eq!(after, times);
}

#[test]
fn a_missing_score_is_never_improved_on() {
    let mut db = Db::new(1500, 0..86_400, 4, 300, 1800).unwrap();
    for i in 0..6 {
        db.load_slot(1800 * i, None);
    }
    let _ = db.insert_task("a".to_string(), task(1, 0, 30_000, 3000, 0));
    let before = slots_of(db.schedule());
    let (score, _) = db.shuffle_maximizing(|_| None, 10);
    assert_eq!(score, None);
    assert_eq!(slots_of(db.schedule()), before);
    let (score, iterations) = db.shuffle_maximizing(earliest_first, 0);
    assert_eq!(iterations, 0);
    assert_eq!(score, earliest_first(db.schedule()));
}

#[test]
fn clear_timeline_keeps_the_tasks() {
    let mut db = Db::default();
    db.load_task("a".to_string(), task(1, 0, 500, 10, 0));
    db.load_slot(5, Some("a".to_string()));
    assert!(db.load_state(0..1500, Pomodoro::Work(3)));
    db.clear_timeline();
    assert_eq!(db.state_count(), 0);
    assert_eq!(db.schedule().slot_count(), 0);
    assert_eq!(db.schedule().task_count(), 1);
}
