use metric_proxy::counters::{CounterSnapshot, CounterType};

fn counter(ts: u64, value: u64) -> CounterType {
    CounterType::Counter { ts, value }
}

fn gauge(min: u64, max: u64, hits: u64, total: u64) -> CounterType {
    CounterType::Gauge { min, max, hits, total }
}

#[test]
fn merge_sums_values_and_keeps_latest_ts() {
    let a = counter(10, 5);
    let b = counter(20, 7);
    let m = a.merge(&b).unwrap();
    assert_eq!(m, counter(20, 12));
}

#[test]
fn merge_is_associative() {
    let a = counter(1, 5);
    let b = counter(2, 7);
    let c = counter(3, 11);
    let left = a.merge(&b).unwrap().merge(&c).unwrap();
    let right = a.merge(&b.merge(&c).unwrap()).unwrap();
    assert_eq!(left, right);
    assert_eq!(left, counter(3, 23));
}

#[test]
fn merge_then_subtract_recovers_the_newer_value() {
    let a = counter(1, 5);
    let b = counter(2, 9);
    let merged = a.merge(&b).unwrap();
    let back = merged.subtract(&a).unwrap();
    assert_eq!(back, b);
}

#[test]
fn merge_saturates_instead_of_wrapping() {
    let a = counter(1, u64::MAX - 1);
    let b = counter(2, 10);
    let m = a.merge(&b).unwrap();
    assert_eq!(m, counter(2, u64::MAX));
}

#[test]
fn subtract_stops_at_zero() {
    let a = counter(5, 3);
    let b = counter(1, 9);
    let d = a.subtract(&b).unwrap();
    assert_eq!(d, counter(5, 0));
}

#[test]
fn gauge_merge_widens_and_sums() {
    let a = gauge(2, 8, 3, 30);
    let b = gauge(1, 9, 2, 12);
    let m = a.merge(&b).unwrap();
    assert_eq!(m, gauge(1, 9, 5, 42));
}

#[test]
fn mixing_shapes_fails_merge_and_subtract() {
    let a = counter(1, 5);
    let b = gauge(0, 1, 1, 1);
    assert!(a.merge(&b).is_err());
    assert!(a.subtract(&b).is_err());
    assert!(b.merge(&a).is_err());
}

#[test]
fn newcounter_is_zero() {
    assert_eq!(CounterType::newcounter(), counter(0, 0));
}

#[test]
fn snapshot_serialize_is_name_space_value() {
    let s = CounterSnapshot::new("requests".to_string(), "how many".to_string(), counter(3, 42));
    assert_eq!(s.serialize(), "requests 42\n");
}

#[test]
fn snapshot_name_validity_follows_braces() {
    let bad = CounterSnapshot::new("foo{bar=baz".to_string(), String::new(), counter(0, 0));
    assert!(!bad.has_valid_name());
    let good = CounterSnapshot::new("foo{bar=baz}".to_string(), String::new(), counter(0, 0));
    assert!(good.has_valid_name());
    let plain = CounterSnapshot::new("foo".to_string(), String::new(), counter(0, 0));
    assert!(plain.has_valid_name());
}

#[test]
fn snapshot_basename_cuts_label_set() {
    let s = CounterSnapshot::new("foo{bar=baz}".to_string(), String::new(), counter(0, 0));
    assert_eq!(s.basename(), "foo");
    let p = CounterSnapshot::new("plain".to_string(), String::new(), counter(0, 0));
    assert_eq!(p.basename(), "plain");
}

#[test]
fn snapshot_merge_accumulates_in_place() {
    let mut s = CounterSnapshot::new("c".to_string(), "d".to_string(), counter(1, 5));
    let other = CounterSnapshot::new("c".to_string(), String::new(), counter(4, 4));
    s.merge(&other).unwrap();
    assert_eq!(s.ctype, counter(4, 9));
    assert_eq!(s.name, "c");
    assert_eq!(s.doc, "d");
}
