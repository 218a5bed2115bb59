//! The task record and its urgency classification.

use vstd::prelude::*;

verus! {

/// Seconds within which a pending due date counts as urgent.
pub const URGENT_WINDOW_SECONDS: i64 = 86400;

/// Mathematical model of a task: the text as a character sequence,
/// the completion flag, and the optional due date in epoch seconds.
pub ghost struct TaskV {
    pub text: Seq<char>,
    pub completed: bool,
    pub due_date: Option<i64>,
}

/// One entry of the to-do list. The due date is an end-of-day timestamp
/// in Unix epoch seconds; `None` means the task has no deadline.
pub struct TodoItem {
    pub text: String,
    pub completed: bool,
    pub due_date: Option<i64>,
}

impl View for TodoItem {
    type V = TaskV;

    open spec fn view(&self) -> TaskV {
        TaskV { text: self.text@, completed: self.completed, due_date: self.due_date }
    }
}

/// Presentation hint for a task, derived from its due date and the current time.
#[derive(Clone, Copy, PartialEq, Eq, Structural, Debug)]
pub enum Urgency {
    /// The due date lies in the past.
    Overdue,
    /// The due date lies within the next 24 hours.
    Urgent,
    /// No due date, or a due date more than 24 hours away.
    Neutral,
}

/// What the classification must return: overdue strictly before `now`,
/// urgent within the next 24 hours, neutral otherwise or without a due date.
pub open spec fn urgency_of(due_date: Option<i64>, now: i64) -> Urgency {
    match due_date {
        Option::None => Urgency::Neutral,
        Option::Some(due) => if due < now {
            Urgency::Overdue
        } else if due - now < URGENT_WINDOW_SECONDS {
            Urgency::Urgent
        } else {
            Urgency::Neutral
        },
    }
}

/// Classifies a task's due date against the current time.
pub fn get_task_color(due_date: Option<i64>, now: i64) -> (u: Urgency)
    ensures
        u == urgency_of(due_date, now),
{
    match due_date {
        Option::None => Urgency::Neutral,
        Option::Some(due) => {
            if due < now {
                Urgency::Overdue
            } else if now < 0 {
                // `due - now` could exceed `i64::MAX`; compare against
                // `now + URGENT_WINDOW_SECONDS`, which cannot overflow here.
                if due < now + URGENT_WINDOW_SECONDS {
                    Urgency::Urgent
                } else {
                    Urgency::Neutral
                }
            } else {
                if due - now < URGENT_WINDOW_SECONDS {
                    Urgency::Urgent
                } else {
                    Urgency::Neutral
                }
            }
        },
    }
}

} // verus!
