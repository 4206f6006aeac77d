//! The state of a countdown timer that can be paused and resumed. Times
//! are nanoseconds on the boot-time clock, which keeps counting through
//! suspend.

use vstd::prelude::*;
use crate::text::{push_char, push_two_digits, two_digits};

verus! {

/// The largest duration `std::time::Duration` holds, in nanoseconds.
pub const MAX_DURATION_NANOS: u128 = 18446744073709551615999999999;

/// A timer either counts down towards a deadline or is paused with some
/// time left.
#[derive(PartialEq, Eq, Structural, Clone, Copy, Debug)]
pub enum TimerState {
    Running { ends_at: u128 },
    Paused { remaining: u128 },
}

/// `a - b`, or 0 when `b` is later.
pub open spec fn saturating_diff(a: u128, b: u128) -> u128 {
    if a >= b {
        (a - b) as u128
    } else {
        0
    }
}

/// The time left at `now`.
pub open spec fn remaining_at(s: TimerState, now: u128) -> u128 {
    match s {
        TimerState::Running { ends_at } => saturating_diff(ends_at, now),
        TimerState::Paused { remaining } => remaining,
    }
}

/// A toggle at `now` stays within what a `Duration` holds.
pub open spec fn can_toggle(s: TimerState, now: u128) -> bool {
    match s {
        TimerState::Running { .. } => true,
        TimerState::Paused { remaining } => now + remaining <= MAX_DURATION_NANOS,
    }
}

/// The state after a toggle at `now`: a running timer pauses with the time
/// it had left, a paused one resumes with its deadline that far ahead.
pub open spec fn toggled(s: TimerState, now: u128) -> TimerState {
    match s {
        TimerState::Running { ends_at } => TimerState::Paused { remaining: saturating_diff(ends_at, now) },
        TimerState::Paused { remaining } => TimerState::Running { ends_at: (now + remaining) as u128 },
    }
}

impl TimerState {
    /// The time left at `now`, which is 0 once a running timer's deadline
    /// has passed.
    pub fn remaining(&self, now: u128) -> (r: u128)
        ensures
            r == remaining_at(*self, now),
    {
        match self {
            TimerState::Running { ends_at } => if *ends_at >= now {
                *ends_at - now
            } else {
                0
            },
            TimerState::Paused { remaining } => *remaining,
        }
    }

    /// Pauses a running timer or resumes a paused one, at `now`.
    pub fn toggle(&mut self, now: u128)
        requires
            can_toggle(*old(self), now),
        ensures
            *final(self) == toggled(*old(self), now),
    {
        let next = match *self {
            TimerState::Running { ends_at } => TimerState::Paused { remaining: self.remaining(now) },
            TimerState::Paused { remaining } => TimerState::Running { ends_at: now + remaining },
        };
        *self = next;
    }

    /// Whether the timer is counting down.
    pub fn is_running(&self) -> (r: bool)
        ensures
            r == (*self is Running),
    {
        match self {
            TimerState::Running { .. } => true,
            TimerState::Paused { .. } => false,
        }
    }
}

/// What to do with the task that runs a timer's command at its end.
#[derive(PartialEq, Eq, Structural, Clone, Copy, Debug)]
pub enum CompletionAction {
    /// Drop the pending task: the timer is paused.
    Cancel,
    /// Run the command when the boot-time clock reaches `ends_at`.
    Schedule { ends_at: u128 },
    /// Nothing to run: the timer has no command.
    Nothing,
}

/// A countdown with the command it runs when it ends. The task that waits
/// for the end is kept by the caller, which carries out the actions.
pub struct Timer {
    pub state: TimerState,
    pub command: Option<String>,
}

/// The action that goes with a timer in `state`.
pub open spec fn action_for(state: TimerState, has_command: bool) -> CompletionAction {
    match state {
        TimerState::Paused { .. } => CompletionAction::Cancel,
        TimerState::Running { ends_at } => if has_command {
            CompletionAction::Schedule { ends_at }
        } else {
            CompletionAction::Nothing
        },
    }
}

impl Timer {
    /// A timer started at `now` that runs for `duration`, and what to
    /// schedule for its end.
    pub fn new(duration: u128, command: Option<String>, now: u128) -> (r: (Timer, CompletionAction))
        requires
            now + duration <= MAX_DURATION_NANOS,
        ensures
            r.0.state == (TimerState::Running { ends_at: (now + duration) as u128 }),
            r.0.command == command,
            r.1 == action_for(r.0.state, command is Some),
    {
        let state = TimerState::Running { ends_at: now + duration };
        let action = if command.is_some() {
            CompletionAction::Schedule { ends_at: now + duration }
        } else {
            CompletionAction::Nothing
        };
        (Timer { state, command }, action)
    }

    /// Pauses or resumes the timer at `now`; a pause cancels the pending
    /// command, a resume schedules it for the new end.
    pub fn toggle(&mut self, now: u128) -> (a: CompletionAction)
        requires
            can_toggle(old(self).state, now),
        ensures
            final(self).state == toggled(old(self).state, now),
            final(self).command == old(self).command,
            a == action_for(final(self).state, final(self).command is Some),
    {
        self.state.toggle(now);
        match self.state {
            TimerState::Paused { .. } => CompletionAction::Cancel,
            TimerState::Running { ends_at } => if self.command.is_some() {
                CompletionAction::Schedule { ends_at }
            } else {
                CompletionAction::Nothing
            },
        }
    }
}

/// A toggle changes whether the timer runs, and not the time it has left.
pub proof fn law_toggle_keeps_remaining(s: TimerState, now: u128)
    requires
        can_toggle(s, now),
    ensures
        remaining_at(toggled(s, now), now) == remaining_at(s, now),
        (toggled(s, now) is Running) != (s is Running),
{
}

/// Two toggles at one instant give back the state, for a paused timer and
/// for a running one whose deadline has not passed.
pub proof fn law_toggle_twice(s: TimerState, now: u128)
    requires
        can_toggle(s, now),
        can_toggle(toggled(s, now), now),
        s matches TimerState::Running { ends_at } ==> now <= ends_at,
    ensures
        toggled(toggled(s, now), now) == s,
{
}

/// A running timer's time left never grows as time passes.
pub proof fn law_remaining_shrinks(s: TimerState, earlier: u128, later: u128)
    requires
        earlier <= later,
    ensures
        remaining_at(s, later) <= remaining_at(s, earlier),
{
}

/// Resuming a paused timer that has a command schedules the command for
/// the instant the time it had left runs out.
pub proof fn law_resume_schedules_at_end(s: TimerState, now: u128)
    requires
        s is Paused,
        can_toggle(s, now),
    ensures
        action_for(toggled(s, now), true) == (CompletionAction::Schedule {
            ends_at: (now + remaining_at(s, now)) as u128,
        }),
{
}

/// Whole seconds in `nanos` nanoseconds.
pub open spec fn whole_secs(nanos: u128) -> nat {
    (nanos / 1000000000) as nat
}

/// A duration as a new timer's label shows it: `HH:MM:SS` from one hour
/// on, else `MM:SS`, each part with at least two digits.
pub open spec fn duration_label(nanos: u128) -> Seq<char> {
    let t = whole_secs(nanos);
    let h = t / 3600;
    let m = (t % 3600) / 60;
    let sec = t % 60;
    if h > 0 {
        two_digits(h) + seq![':'] + two_digits(m) + seq![':'] + two_digits(sec)
    } else {
        two_digits(m) + seq![':'] + two_digits(sec)
    }
}

/// The label of a timer that would run for `nanos` nanoseconds.
pub fn format_duration(nanos: u128) -> (r: String)
    ensures
        r@ == duration_label(nanos),
{
    let t = nanos / 1000000000;
    let h = t / 3600;
    let m = (t % 3600) / 60;
    let sec = t % 60;
    let mut out = String::new();
    if h > 0 {
        push_two_digits(&mut out, h);
        push_char(&mut out, ':');
    }
    push_two_digits(&mut out, m);
    push_char(&mut out, ':');
    push_two_digits(&mut out, sec);
    out
}

/// The minutes and seconds a running timer shows for the time it has
/// left, each with at least two digits; minutes are not folded into hours.
pub fn clock_face(remaining: u128) -> (r: (String, String))
    ensures
        r.0@ == two_digits(whole_secs(remaining) / 60),
        r.1@ == two_digits(whole_secs(remaining) % 60),
{
    let t = remaining / 1000000000;
    let mut minutes = String::new();
    push_two_digits(&mut minutes, t / 60);
    let mut seconds = String::new();
    push_two_digits(&mut seconds, t % 60);
    (minutes, seconds)
}

} // verus!
