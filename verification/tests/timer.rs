use ruft::utilis::timer::{rand_duration, Timer, Wakeup};

#[test]
fn periods_lie_between_the_bounds() {
    for _ in 0..200 {
        let period = rand_duration(150, 300);
        assert!((150..=300).contains(&period));
    }
    assert_eq!(rand_duration(7, 7), 7);
}

#[test]
fn periods_differ() {
    let first = rand_duration(0, u32::MAX);
    assert!((0..50).any(|_| rand_duration(0, u32::MAX) != first));
}

#[test]
fn bounds_the_wrong_way_round_are_swapped() {
    for _ in 0..50 {
        let timer = Timer::new(300, 150);
        assert!((150..=300).contains(&timer.period_ms()));
        assert!(timer.is_running());
    }
    assert_eq!(Timer::new(9, 9).period_ms(), 9);
}

#[test]
fn signals_and_resets_start_a_new_period() {
    let mut timer = Timer::with_period(10, 20, 15);
    timer.wake_with(Wakeup::Signalled, 11);
    assert_eq!(timer.period_ms(), 11);
    timer.wake_with(Wakeup::Reset, 20);
    assert_eq!(timer.period_ms(), 20);
    timer.wake(Wakeup::Signalled);
    timer.reset();
    assert!((10..=20).contains(&timer.period_ms()));
    assert!(timer.is_running());
}

#[test]
fn reset_starts_the_period_over() {
    let mut timer = Timer::with_period(10, 20, 15);
    assert!(!timer.is_started());
    assert_eq!(timer.start(), 15);
    assert!(timer.is_started());
    timer.reset();
    assert!(!timer.is_started());
    assert!((10..=20).contains(&timer.start()));

    timer.stop();
    let period = timer.period_ms();
    timer.reset();
    assert!(timer.is_started());
    assert!(!timer.is_running());
    assert_eq!(timer.period_ms(), period);
}

#[test]
fn timer_stops_when_nobody_is_left() {
    let mut timer = Timer::with_period(10, 20, 15);
    timer.wake_with(Wakeup::Unheard, 11);
    assert!(!timer.is_running());
    assert_eq!(timer.period_ms(), 15);
    timer.wake_with(Wakeup::Signalled, 12);
    assert!(!timer.is_running());

    let mut timer = Timer::with_period(10, 20, 15);
    timer.wake(Wakeup::Abandoned);
    assert!(!timer.is_running());

    let mut timer = Timer::with_period(10, 20, 15);
    timer.stop();
    assert!(!timer.is_running());
}
