use gchat::orchestrator::Failure;
use gchat::watch::{ChangeTracker, QUIESCENCE_MILLIS};

#[test]
fn later_version_is_a_change() {
    let mut tracker = ChangeTracker::new(100);
    assert!(tracker.observe(101));
    assert_eq!(tracker.last_seen_version(), 101);
}

#[test]
fn same_or_earlier_version_is_no_change() {
    let mut tracker = ChangeTracker::new(100);
    assert!(!tracker.observe(100));
    assert!(!tracker.observe(99));
    assert_eq!(tracker.last_seen_version(), 100);
}

#[test]
fn change_is_told_once() {
    let mut tracker = ChangeTracker::new(0);
    assert!(tracker.observe(5));
    assert!(!tracker.observe(5));
    assert!(tracker.observe(6));
    assert!(!tracker.observe(6));
    assert_eq!(tracker.last_seen_version(), 6);
}

#[test]
fn file_is_left_alone_for_half_a_second() {
    assert_eq!(QUIESCENCE_MILLIS, 500);
}

#[test]
fn failed_requests_are_signalled() {
    assert!(Failure::Transport.calls_for_warning());
    assert!(Failure::Protocol.calls_for_warning());
    assert!(!Failure::Credential.calls_for_warning());
    assert!(!Failure::Preparation.calls_for_warning());
}
