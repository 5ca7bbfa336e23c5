use mimeclip::suppress::{SuppressState, SUPPRESS_TTL};
use mimeclip::time::Moment;

const MILLI: u128 = 1_000_000;

#[test]
fn matching_hash_is_suppressed_once() {
    let now: u128 = 42_000_000_007;
    let mut suppress = SuppressState::default();

    suppress.arm_at("abc".into(), Moment { nanos: now });

    assert!(suppress.should_suppress_at("abc", Moment { nanos: now + MILLI }));
    assert!(!suppress.should_suppress_at("abc", Moment { nanos: now + 2 * MILLI }));
}

#[test]
fn mismatched_hash_keeps_pending_suppression() {
    let now: u128 = 42_000_000_007;
    let mut suppress = SuppressState::default();

    suppress.arm_at("abc".into(), Moment { nanos: now });

    assert!(!suppress.should_suppress_at("def", Moment { nanos: now + MILLI }));
    assert!(suppress.should_suppress_at("abc", Moment { nanos: now + 2 * MILLI }));
}

#[test]
fn expired_hash_is_cleared_without_suppressing() {
    let now: u128 = 42_000_000_007;
    let mut suppress = SuppressState::default();

    suppress.arm_at("abc".into(), Moment { nanos: now });

    assert!(!suppress.should_suppress_at("abc", Moment { nanos: now + SUPPRESS_TTL + MILLI }));
    assert!(!suppress.should_suppress_at("abc", Moment { nanos: now + SUPPRESS_TTL + 2 * MILLI }));
}

#[test]
fn last_moment_of_the_wait_counts() {
    let mut suppress = SuppressState::default();
    suppress.arm_at("abc".into(), Moment { nanos: 1 });
    assert!(suppress.should_suppress_at("abc", Moment { nanos: 1 + SUPPRESS_TTL }));
    suppress.arm_at("abc".into(), Moment { nanos: 1 });
    assert!(!suppress.should_suppress_at("abc", Moment { nanos: 2 + SUPPRESS_TTL }));
    assert!(!suppress.should_suppress_at("abc", Moment { nanos: 1 }));
}

#[test]
fn restored_entry_is_suppressed_by_the_clock() {
    let mut suppress = SuppressState::default();
    assert!(!suppress.should_suppress("abc"));
    suppress.arm("abc".into());
    assert!(!suppress.should_suppress("def"));
    assert!(suppress.should_suppress("abc"));
    assert!(!suppress.should_suppress("abc"));
}

#[test]
fn clock_runs_forward() {
    let suppress = SuppressState::default();
    let first = suppress.now();
    let second = suppress.now();
    assert!(first.nanos <= second.nanos);
}

#[test]
fn arming_again_waits_for_the_later_entry() {
    let mut suppress = SuppressState::default();
    suppress.arm_at("abc".into(), Moment { nanos: 0 });
    suppress.arm_at("def".into(), Moment { nanos: 1 });
    assert!(!suppress.should_suppress_at("abc", Moment { nanos: 2 }));
    assert!(suppress.should_suppress_at("def", Moment { nanos: 2 }));
}
