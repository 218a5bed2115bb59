//! A poll-driven countdown: the timer only records when it was started and
//! for how long; whoever renders a frame asks how much time remains.

use vstd::prelude::*;
use crate::clock::now_epoch_seconds;
use crate::digits::{dec_digits, digit_char, digit_char_exec, push_dec_digits};
use crate::strings::chars_to_string;

verus! {

/// Countdown state: idle, or running since `start_time` for `duration` seconds.
pub struct Timer {
    pub start_time: Option<i64>,
    pub duration: Option<i64>,
    pub is_running: bool,
}

/// A running timer always knows when it started and for how long it runs.
pub open spec fn timer_wf(t: Timer) -> bool {
    t.is_running ==> t.start_time is Some && t.duration is Some
}

/// The seconds left on a timer at time `now`, as unbounded arithmetic:
/// the configured duration minus the elapsed time. `None` when idle.
pub open spec fn spec_remaining(t: Timer, now: i64) -> Option<int> {
    if t.is_running && t.start_time is Some && t.duration is Some {
        Some(t.duration->0 - (now - t.start_time->0))
    } else {
        None
    }
}

/// The seconds left clamped into `i64`: what `remaining_time` returns
/// for a timer state and a clock reading.
pub open spec fn clamped_remaining(t: Timer, now: i64) -> Option<i64> {
    match spec_remaining(t, now) {
        Option::None => None,
        Option::Some(rem) => if rem > i64::MAX {
            Some(i64::MAX)
        } else if rem < i64::MIN {
            Some(i64::MIN)
        } else {
            Some(rem as i64)
        },
    }
}

/// The display form of a remaining-time value: `M:SS` while time is left,
/// a done marker at or past zero, and an idle placeholder otherwise.
pub open spec fn spec_format_remaining(rem: Option<int>) -> Seq<char> {
    match rem {
        Option::None => "--:--"@,
        Option::Some(r) => if r <= 0 {
            "時間終了！"@
        } else {
            dec_digits((r / 60) as nat) + seq![':', digit_char((r % 60) / 10), digit_char((r % 60) % 10)]
        },
    }
}

impl Timer {
    /// A fresh, idle timer.
    pub fn new() -> (t: Timer)
        ensures
            t == (Timer { start_time: None, duration: None, is_running: false }),
    {
        Timer { start_time: None, duration: None, is_running: false }
    }

    /// Starts (or restarts) the countdown at time `now` for `minutes` minutes.
    pub fn start_at(&mut self, minutes: i64, now: i64)
        requires
            i64::MIN <= minutes * 60 <= i64::MAX,
        ensures
            *final(self) == (Timer {
                start_time: Some(now),
                duration: Some((minutes * 60) as i64),
                is_running: true,
            }),
    {
        self.start_time = Some(now);
        self.duration = Some(minutes * 60);
        self.is_running = true;
    }

    /// Starts (or restarts) the countdown now, for `minutes` minutes.
    pub fn start(&mut self, minutes: i64)
        requires
            i64::MIN <= minutes * 60 <= i64::MAX,
        ensures
            final(self).is_running,
            final(self).duration == Some((minutes * 60) as i64),
            final(self).start_time is Some,
            timer_wf(*final(self)),
    {
        let now = now_epoch_seconds();
        self.start_at(minutes, now);
    }

    /// Returns the timer to idle and forgets the previous run.
    pub fn stop(&mut self)
        ensures
            *final(self) == (Timer { start_time: None, duration: None, is_running: false }),
    {
        self.start_time = None;
        self.duration = None;
        self.is_running = false;
    }

    /// The seconds left at time `now`, clamped into `i64`; `None` when idle.
    pub fn remaining_time_at(&self, now: i64) -> (r: Option<i64>)
        requires
            timer_wf(*self),
        ensures
            r is Some <==> self.is_running,
            r == clamped_remaining(*self, now),
    {
        if !self.is_running {
            return None;
        }
        let start = self.start_time.unwrap();
        let duration = self.duration.unwrap();
        let rem: i128 = duration as i128 - (now as i128 - start as i128);
        if rem > i64::MAX as i128 {
            Some(i64::MAX)
        } else if rem < i64::MIN as i128 {
            Some(i64::MIN)
        } else {
            Some(rem as i64)
        }
    }

    /// The seconds left as of this moment; `None` when idle. The result
    /// is the clamped remaining time of this timer state for some clock
    /// reading, exact whenever the true value fits in `i64`.
    pub fn remaining_time(&self) -> (r: Option<i64>)
        requires
            timer_wf(*self),
        ensures
            r is Some <==> self.is_running,
            exists|n: i64| r == #[trigger] clamped_remaining(*self, n),
    {
        let now = now_epoch_seconds();
        let r = self.remaining_time_at(now);
        proof {
            assert(r == clamped_remaining(*self, now));
        }
        r
    }

    /// Renders the remaining time at time `now` for display.
    pub fn format_remaining_time_at(&self, now: i64) -> (r: String)
        requires
            timer_wf(*self),
        ensures
            r@ == spec_format_remaining(spec_remaining(*self, now)),
    {
        if !self.is_running {
            return "--:--".to_owned();
        }
        let start = self.start_time.unwrap();
        let duration = self.duration.unwrap();
        let rem: i128 = duration as i128 - (now as i128 - start as i128);
        if rem <= 0 {
            return "時間終了！".to_owned();
        }
        let minutes: u64 = (rem / 60) as u64;
        let seconds: u64 = (rem % 60) as u64;
        let mut chars: Vec<char> = Vec::new();
        push_dec_digits(&mut chars, minutes);
        chars.push(':');
        chars.push(digit_char_exec((seconds / 10) as u8));
        chars.push(digit_char_exec((seconds % 10) as u8));
        proof {
            let remi = duration - (now - start);
            assert(rem == remi);
            assert(minutes == remi / 60);
            assert(seconds == remi % 60);
            assert((remi % 60) / 10 < 10);
            assert(chars@ =~= spec_format_remaining(spec_remaining(*self, now)));
        }
        chars_to_string(&chars)
    }

    /// Renders the remaining time as of this moment: the display form of
    /// this timer state under some clock reading, and the `--:--`
    /// placeholder exactly when the timer is idle.
    pub fn format_remaining_time(&self) -> (r: String)
        requires
            timer_wf(*self),
        ensures
            !self.is_running ==> r@ == "--:--"@,
            exists|n: i64|
                r@ == spec_format_remaining(#[trigger] spec_remaining(*self, n)),
    {
        let now = now_epoch_seconds();
        let r = self.format_remaining_time_at(now);
        proof {
            assert(r@ == spec_format_remaining(spec_remaining(*self, now)));
        }
        r
    }
}

} // verus!
