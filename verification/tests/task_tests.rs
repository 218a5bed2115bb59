use todo_list::task::{get_task_color, Urgency};

#[test]
fn overdue_when_due_in_past() {
    let now: i64 = 1_700_000_000;
    assert_eq!(get_task_color(Some(now - 1), now), Urgency::Overdue);
}

#[test]
fn urgent_within_24_hours() {
    let now: i64 = 1_700_000_000;
    assert_eq!(get_task_color(Some(now + 3600), now), Urgency::Urgent);
}

#[test]
fn neutral_beyond_24_hours() {
    let now: i64 = 1_700_000_000;
    assert_eq!(get_task_color(Some(now + 90_000), now), Urgency::Neutral);
}

#[test]
fn neutral_without_due_date() {
    let now: i64 = 1_700_000_000;
    assert_eq!(get_task_color(None, now), Urgency::Neutral);
}

#[test]
fn boundary_cases() {
    let now: i64 = 0;
    // Exactly now is not overdue, and within the urgent window.
    assert_eq!(get_task_color(Some(0), now), Urgency::Urgent);
    // Exactly 24 hours ahead is no longer urgent.
    assert_eq!(get_task_color(Some(86_400), now), Urgency::Neutral);
    assert_eq!(get_task_color(Some(86_399), now), Urgency::Urgent);
}

#[test]
fn extreme_clock_values() {
    assert_eq!(get_task_color(Some(i64::MAX), i64::MIN), Urgency::Neutral);
    assert_eq!(get_task_color(Some(i64::MIN), i64::MAX), Urgency::Overdue);
}
