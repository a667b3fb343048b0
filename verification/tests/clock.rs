use hatp_engine::clock::epoch_stamp;
use hatp_engine::{Clock, ManualClock, SystemClock};

#[test]
fn manual_clock_set_and_advance() {
    let mut clock = ManualClock::new(100);
    assert_eq!(clock.now_secs(), 100);
    clock.set(500);
    assert_eq!(clock.now_secs(), 500);
    assert_eq!(clock.advance(60), 560);
    assert_eq!(clock.now_secs(), 560);
}

#[test]
fn system_clock_returns_epoch_secs() {
    let clock = SystemClock;
    let now = clock.now_secs();
    // Real-world time must be after 2020-01-01 (1577836800).
    assert!(now > 1_577_836_800, "unexpected epoch time {now}");
}

#[test]
fn a_clock_before_the_epoch_shows_zero() {
    assert_eq!(epoch_stamp(None), 0);
    assert_eq!(epoch_stamp(Some(7)), 7);
    assert_eq!(ManualClock::default().now_secs(), 0);
}
