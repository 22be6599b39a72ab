use protohackers::speed_daemon::heartbeat::{heartbeat_period, HeartbeatScheduler};

#[test]
fn the_period_is_a_tenth_of_a_second_for_each_unit() {
    assert_eq!(heartbeat_period(0), None);
    assert_eq!(heartbeat_period(1), Some(100));
    assert_eq!(heartbeat_period(50), Some(5000));
    assert_eq!(heartbeat_period(u32::MAX), Some(429496729500));
}

#[test]
fn an_interval_of_zero_never_beats() {
    let mut scheduler = HeartbeatScheduler::new(0, 1000);
    assert!(!scheduler.is_active());
    assert_eq!(scheduler.next_deadline(), None);
    assert_eq!(scheduler.poll(1000), 0);
    assert_eq!(scheduler.poll(1_000_000), 0);
    assert_eq!(scheduler.poll(u64::MAX), 0);
}

#[test]
fn an_interval_of_fifty_beats_every_five_seconds() {
    let mut scheduler = HeartbeatScheduler::new(50, 1000);
    assert!(scheduler.is_active());
    assert_eq!(scheduler.next_deadline(), Some(6000));
    assert_eq!(scheduler.poll(1000), 0);
    assert_eq!(scheduler.poll(5999), 0);
    assert_eq!(scheduler.poll(6000), 1);
    assert_eq!(scheduler.poll(6000), 0);
    assert_eq!(scheduler.next_deadline(), Some(11000));
    assert_eq!(scheduler.poll(10999), 0);
    assert_eq!(scheduler.poll(11001), 1);
    assert_eq!(scheduler.next_deadline(), Some(16000));
}

#[test]
fn beats_that_were_missed_are_reported_together() {
    let mut scheduler = HeartbeatScheduler::new(50, 0);
    assert_eq!(scheduler.poll(17_500), 3);
    assert_eq!(scheduler.next_deadline(), Some(20_000));
    assert_eq!(scheduler.poll(19_999), 0);
    assert_eq!(scheduler.poll(20_000), 1);
}

#[test]
fn a_clock_that_ran_backwards_reports_nothing() {
    let mut scheduler = HeartbeatScheduler::new(10, 5000);
    assert_eq!(scheduler.poll(10), 0);
    assert_eq!(scheduler.poll(7000), 2);
    assert_eq!(scheduler.poll(6000), 0);
    assert_eq!(scheduler.poll(7999), 0);
    assert_eq!(scheduler.poll(8000), 1);
}

#[test]
fn a_cancelled_timer_is_silent() {
    let mut scheduler = HeartbeatScheduler::new(50, 0);
    assert_eq!(scheduler.poll(5000), 1);
    scheduler.cancel();
    assert!(!scheduler.is_active());
    assert_eq!(scheduler.next_deadline(), None);
    assert_eq!(scheduler.poll(1_000_000), 0);
}

#[test]
fn a_deadline_beyond_the_clock_is_no_deadline() {
    let scheduler = HeartbeatScheduler::new(50, u64::MAX - 4999);
    assert_eq!(scheduler.next_deadline(), None);
    let scheduler = HeartbeatScheduler::new(50, u64::MAX - 5000);
    assert_eq!(scheduler.next_deadline(), Some(u64::MAX));
}

#[test]
fn a_timer_can_be_given_its_period() {
    let mut scheduler = HeartbeatScheduler::with_period(250, 1000);
    assert_eq!(scheduler, HeartbeatScheduler::with_period(250, 1000));
    assert_eq!(scheduler.next_deadline(), Some(1250));
    assert_eq!(scheduler.poll(1500), 2);
    assert_eq!(HeartbeatScheduler::with_period(5000, 7), HeartbeatScheduler::new(50, 7));
    assert!(!HeartbeatScheduler::with_period(0, 0).is_active());
}
