use musce::clock::{RunReport, TickClock, SAVE_EVERY, TICK_INTERVAL_MS};

#[test]
fn the_default_cadence_is_ten_hertz_saving_every_fifty_ticks() {
    assert_eq!(TICK_INTERVAL_MS, 100);
    assert_eq!(SAVE_EVERY, 50);
}

#[test]
fn a_snapshot_falls_due_on_every_kth_tick() {
    let mut c = TickClock::new(3);
    let due: Vec<bool> = (0..7).map(|_| c.end_tick()).collect();
    assert_eq!(due, vec![false, false, true, false, false, true, false]);
    assert_eq!(c.tick(), 7);
}

#[test]
fn a_cadence_of_one_or_zero_snapshots_every_tick() {
    let mut one = TickClock::new(1);
    assert!(one.end_tick() && one.end_tick());
    let mut zero = TickClock::new(0);
    assert!(zero.end_tick() && zero.end_tick());
}

#[test]
fn acknowledgements_never_go_below_zero() {
    let mut c = TickClock::new(2);
    assert!(!c.awaiting_saves());
    c.snapshot_sent();
    assert!(c.awaiting_saves());
    c.acknowledged();
    assert!(!c.awaiting_saves());
    c.acknowledged();
    assert!(!c.awaiting_saves());
}

#[test]
fn shutdown_saves_at_least_once() {
    let mut c = TickClock::new(1000);
    for _ in 0..5 {
        if c.end_tick() {
            c.snapshot_sent();
        }
    }
    // The final snapshot on shutdown is taken regardless of the cadence.
    c.snapshot_sent();
    assert_eq!(c.report(), RunReport { ticks: 5, saves: 1 });
}

#[test]
fn a_tick_context_carries_the_tick_and_the_instant() {
    let mut c = TickClock::new(2);
    c.end_tick();
    let now = std::time::SystemTime::UNIX_EPOCH;
    let ctx = c.context(now);
    assert_eq!(ctx.tick, 1);
    assert_eq!(ctx.now, now);
}
