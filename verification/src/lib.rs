//! A small to-do list core: an ordered task store with due dates, a
//! poll-driven countdown timer, calendar arithmetic for a date picker,
//! and a JSON persistence format with a proved save/load round trip.

pub mod calendar;
pub mod clock;
pub mod digits;
pub mod json;
pub mod store;
pub mod strings;
pub mod task;
pub mod timer;
