use sherlock::timer::TimerState;

#[test]
fn running_timer_counts_down() {
    let t = TimerState::Running { ends_at: 1_000 };
    assert_eq!(t.remaining(400), 600);
    assert_eq!(t.remaining(1_500), 0);
    assert!(t.is_running());
}

#[test]
fn toggle_pauses_and_resumes() {
    let mut t = TimerState::Running { ends_at: 1_000 };
    t.toggle(400);
    assert_eq!(t, TimerState::Paused { remaining: 600 });
    assert!(!t.is_running());
    assert_eq!(t.remaining(9_999), 600);
    t.toggle(5_000);
    assert_eq!(t, TimerState::Running { ends_at: 5_600 });
    assert_eq!(t.remaining(5_000), 600);
}

#[test]
fn toggle_twice_is_identity() {
    let mut t = TimerState::Paused { remaining: 42 };
    t.toggle(7);
    t.toggle(7);
    assert_eq!(t, TimerState::Paused { remaining: 42 });
}

#[test]
fn expired_timer_pauses_with_nothing_left() {
    let mut t = TimerState::Running { ends_at: 10 };
    t.toggle(20);
    assert_eq!(t, TimerState::Paused { remaining: 0 });
}

use sherlock::timer::{CompletionAction, Timer};

#[test]
fn timer_schedules_and_cancels_its_command() {
    let (mut t, a) = Timer::new(1_000, Some("notify-send done".to_string()), 50);
    assert_eq!(t.state, TimerState::Running { ends_at: 1_050 });
    assert_eq!(a, CompletionAction::Schedule { ends_at: 1_050 });
    assert_eq!(t.toggle(300), CompletionAction::Cancel);
    assert_eq!(t.state, TimerState::Paused { remaining: 750 });
    assert_eq!(t.toggle(2_000), CompletionAction::Schedule { ends_at: 2_750 });
}

#[test]
fn timer_without_command_schedules_nothing() {
    let (mut t, a) = Timer::new(10, None, 0);
    assert_eq!(a, CompletionAction::Nothing);
    assert_eq!(t.toggle(5), CompletionAction::Cancel);
    assert_eq!(t.toggle(5), CompletionAction::Nothing);
}

use sherlock::timer::{clock_face, format_duration};

#[test]
fn duration_labels() {
    let s = 1_000_000_000u128;
    assert_eq!(format_duration(90 * s), "01:30");
    assert_eq!(format_duration(0), "00:00");
    assert_eq!(format_duration((3600 + 2 * 60 + 5) * s + 999), "01:02:05");
    assert_eq!(format_duration(123 * 3600 * s), "123:00:00");
}

#[test]
fn clock_face_parts() {
    let s = 1_000_000_000u128;
    assert_eq!(clock_face(125 * s + 5), ("02".to_string(), "05".to_string()));
    assert_eq!(clock_face(6000 * s), ("100".to_string(), "00".to_string()));
}
