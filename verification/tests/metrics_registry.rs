use systems::metrics_registry::{Counter, Gauge};

#[test]
fn test_counter() {
    let mut counter = Counter::default();
    counter.inc();
    counter.inc_by(5);
    assert_eq!(counter.get(), 6);
}

#[test]
fn test_counter_wraps_at_max() {
    let mut counter = Counter::default();
    counter.inc_by(u64::MAX);
    counter.inc_by(2);
    assert_eq!(counter.get(), 1);
}

#[test]
fn test_gauge() {
    let mut gauge = Gauge::default();
    gauge.inc();
    gauge.inc_by(2);
    gauge.dec();
    assert_eq!(gauge.get(), 2);
    gauge.set(10);
    assert_eq!(gauge.get(), 10);
    gauge.dec_by(15);
    assert_eq!(gauge.get(), -5);
}

#[test]
fn test_gauge_inc_then_dec_cancels() {
    let mut gauge = Gauge::default();
    gauge.set(i64::MAX - 1);
    gauge.inc_by(7);
    gauge.dec_by(7);
    assert_eq!(gauge.get(), i64::MAX - 1);
}
