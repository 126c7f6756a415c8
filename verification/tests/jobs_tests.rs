use metric_proxy::counters::{CounterSnapshot, CounterType};
use metric_proxy::jobs::{JobDesc, JobProfile};

fn snap(name: &str, value: u64) -> CounterSnapshot {
    CounterSnapshot::new(
        name.to_string(),
        String::new(),
        CounterType::Counter { ts: 0, value },
    )
}

fn profile(counters: Vec<CounterSnapshot>) -> JobProfile {
    JobProfile { desc: JobDesc::main_desc(), counters }
}

#[test]
fn profile_merge_accumulates_by_name_and_appends_new_names() {
    let mut a = profile(vec![snap("x", 5), snap("y", 1)]);
    let b = profile(vec![snap("x", 3), snap("z", 7)]);
    a.merge(&b).unwrap();
    assert_eq!(a.counters.len(), 3);
    assert_eq!(a.counters[0].name, "x");
    assert_eq!(a.counters[0].ctype, CounterType::Counter { ts: 0, value: 8 });
    assert_eq!(a.counters[1].name, "y");
    assert_eq!(a.counters[1].ctype, CounterType::Counter { ts: 0, value: 1 });
    assert_eq!(a.counters[2].name, "z");
    assert_eq!(a.counters[2].ctype, CounterType::Counter { ts: 0, value: 7 });
}

#[test]
fn profile_subtract_diffs_by_name_and_keeps_new_names_whole() {
    let mut cur = profile(vec![snap("x", 9), snap("new", 4)]);
    let prev = profile(vec![snap("x", 5), snap("gone", 2)]);
    cur.subtract(&prev).unwrap();
    assert_eq!(cur.counters.len(), 2);
    assert_eq!(cur.counters[0].ctype, CounterType::Counter { ts: 0, value: 4 });
    assert_eq!(cur.counters[1].ctype, CounterType::Counter { ts: 0, value: 4 });
}

#[test]
fn incompatible_shapes_fail_and_change_nothing() {
    let mut a = profile(vec![snap("x", 5)]);
    let mut b = profile(vec![snap("x", 0)]);
    b.counters[0].ctype = CounterType::Gauge { min: 0, max: 1, hits: 1, total: 1 };
    assert!(a.merge(&b).is_err());
    assert_eq!(a.counters[0].ctype, CounterType::Counter { ts: 0, value: 5 });
    assert!(a.subtract(&b).is_err());
    assert_eq!(a.counters[0].ctype, CounterType::Counter { ts: 0, value: 5 });
}

#[test]
fn the_main_description_sums_all_jobs() {
    let d = JobDesc::main_desc();
    assert_eq!(d.jobid, "main");
    assert_eq!(d.command, "Sum of all Jobs");
    assert_eq!(d.size, 0);
}
