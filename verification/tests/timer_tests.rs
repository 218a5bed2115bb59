use todo_list::timer::Timer;

#[test]
fn start_30_then_remaining_is_in_range() {
    let mut t = Timer::new();
    let now: i64 = 1_700_000_000;
    t.start_at(30, now);
    let rem = t.remaining_time_at(now).unwrap();
    assert!(rem > 1799 && rem <= 1800);
}

#[test]
fn stop_makes_remaining_none() {
    let mut t = Timer::new();
    t.start_at(30, 1_700_000_000);
    t.stop();
    assert_eq!(t.remaining_time_at(1_700_000_000), None);
    assert_eq!(t.remaining_time(), None);
}

#[test]
fn remaining_counts_down() {
    let mut t = Timer::new();
    let now: i64 = 5_000;
    t.start_at(15, now);
    assert_eq!(t.remaining_time_at(now + 60), Some(15 * 60 - 60));
    assert_eq!(t.remaining_time_at(now + 1000), Some(-100));
}

#[test]
fn start_with_real_clock_runs() {
    let mut t = Timer::new();
    t.start(60);
    assert!(t.is_running);
    assert!(t.remaining_time().is_some());
}

#[test]
fn restart_overwrites_previous_run() {
    let mut t = Timer::new();
    t.start_at(15, 1_000);
    t.start_at(60, 2_000);
    assert_eq!(t.remaining_time_at(2_000), Some(3600));
}

#[test]
fn format_idle_running_and_expired() {
    let mut t = Timer::new();
    assert_eq!(t.format_remaining_time(), "--:--");
    let now: i64 = 10_000;
    t.start_at(30, now);
    assert_eq!(t.format_remaining_time_at(now + 30), "29:30");
    assert_eq!(t.format_remaining_time_at(now + 1795), "0:05");
    assert_eq!(t.format_remaining_time_at(now + 1800), "時間終了！");
    assert_eq!(t.format_remaining_time_at(now + 9999), "時間終了！");
}

#[test]
fn format_pads_seconds_to_two_digits() {
    let mut t = Timer::new();
    let now: i64 = 0;
    t.start_at(60, now);
    assert_eq!(t.format_remaining_time_at(now + 539), "51:01");
    assert_eq!(t.format_remaining_time_at(now + 3600 - 9), "0:09");
}
