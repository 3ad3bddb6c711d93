use pomeranian::pomodoro::Pomodoro;
use pomeranian::pomodoro::Pomodoro::{Break, LongBreak, Work};
use rand::{thread_rng, Rng};

#[test]
fn pomodoro_works_ok() {
    let mut timer = Pomodoro::default();
    let mut history = vec![];
    for _ in 0..10 {
        timer = timer.tick(4);
        history.push(timer);
    }
    let mut reference = [
        Work(3),
        Break(2),
        Work(2),
        Break(1),
        Work(1),
        Break(0),
        Work(0),
        LongBreak,
        Work(3),
        Break(2),
    ];
    assert_eq!(&*history, &reference);
    history.clear();
    reference.reverse();
    for _ in 0..9 {
        timer = timer.untick(4);
        history.push(timer);
    }
    assert_eq!(&*history, &reference[1..]);
}

#[test]
fn pomodoro_is_reversible() {
    let mut rng = thread_rng();
    for _ in 0..128 {
        let break_interval = rng.gen_range(2..64);
        let mut pomodoro = match rng.gen_range(0..3) {
            0 => Pomodoro::LongBreak,
            1 => Pomodoro::Break(rng.gen_range(0..(break_interval - 1))),
            2 => Pomodoro::Work(rng.gen_range(0..(break_interval - 1))),
            _ => unreachable!(),
        };
        let initial = pomodoro;
        let amt = rng.gen_range(0..256);
        for _ in 0..amt {
            pomodoro = pomodoro.tick(break_interval);
        }
        for _ in 0..amt {
            pomodoro = pomodoro.untick(break_interval);
        }
        assert_eq!(initial, pomodoro, "{break_interval}");
    }
}

#[test]
fn eight_ticks_from_the_long_break() {
    let mut state = Pomodoro::LongBreak;
    let mut seen = vec![];
    for _ in 0..8 {
        state = state.tick(4);
        seen.push(state);
    }
    assert_eq!(
        seen,
        vec![Work(3), Break(2), Work(2), Break(1), Work(1), Break(0), Work(0), LongBreak]
    );
}

#[test]
fn untick_undoes_tick_on_every_state_of_the_cycle() {
    for break_interval in 1..6u32 {
        let mut state = Pomodoro::LongBreak;
        for _ in 0..(4 * break_interval) {
            let next = state.tick(break_interval);
            assert_eq!(next.untick(break_interval), state);
            state = next;
        }
    }
}

#[test]
fn a_cycle_of_one_has_no_short_break() {
    assert_eq!(Pomodoro::LongBreak.tick(1), Work(0));
    assert_eq!(Work(0).tick(1), LongBreak);
    assert_eq!(Work(0).untick(1), LongBreak);
    assert_eq!(LongBreak.untick(1), Work(0));
    assert!(Work(0).is_work());
    assert!(!Break(0).is_work());
    assert!(!LongBreak.is_work());
}
