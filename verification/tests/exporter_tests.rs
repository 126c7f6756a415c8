use metric_proxy::counters::{CounterSnapshot, CounterType};
use metric_proxy::exporter::{Exporter, ExporterEntryGroup};
use metric_proxy::jobs::JobDesc;

fn snap(name: &str, doc: &str, value: u64) -> CounterSnapshot {
    CounterSnapshot::new(
        name.to_string(),
        doc.to_string(),
        CounterType::Counter { ts: 0, value },
    )
}

#[test]
fn push_registers_and_repush_is_a_noop() {
    let mut e = Exporter::new();
    e.push(&snap("hits", "count of hits", 3)).unwrap();
    // Re-pushing the same name, even with another value, changes nothing.
    e.push(&snap("hits", "other", 999)).unwrap();
    let p = e.profile(&JobDesc::main_desc()).unwrap();
    assert_eq!(p.counters.len(), 1);
    assert_eq!(p.counters[0].name, "hits");
    assert_eq!(p.counters[0].ctype, CounterType::Counter { ts: 0, value: 3 });
}

#[test]
fn push_rejects_unmatched_brace() {
    let mut e = Exporter::new();
    assert!(e.push(&snap("foo{bar=baz", "", 0)).is_err());
    assert!(e.push(&snap("foo{bar=baz}", "", 0)).is_ok());
}

#[test]
fn labeled_metric_is_grouped_under_its_family() {
    let mut e = Exporter::new();
    e.push(&snap("foo{bar=baz}", "the foo family", 1)).unwrap();
    let text = e.serialize().unwrap();
    assert!(text.contains("# HELP foo the foo family\n"));
    assert!(text.contains("# TYPE foo counter\n"));
    assert!(text.contains("foo{bar=baz} 1\n"));
    assert!(text.ends_with("# EOF\n"));
}

#[test]
fn two_labeled_metrics_share_one_family_group() {
    let mut e = Exporter::new();
    e.push(&snap("foo{a=1}", "doc", 1)).unwrap();
    e.push(&snap("foo{a=2}", "other doc", 2)).unwrap();
    let text = e.serialize().unwrap();
    // One header for the family, the doc of the first registration.
    assert_eq!(text.matches("# HELP foo doc\n").count(), 1);
    assert!(text.contains("foo{a=1} 1\n"));
    assert!(text.contains("foo{a=2} 2\n"));
}

#[test]
fn set_overwrites_and_fails_on_unknown_key() {
    let mut e = Exporter::new();
    assert!(e.set(snap("x", "", 5)).is_err());
    e.push(&snap("x", "", 5)).unwrap();
    e.set(snap("x", "", 11)).unwrap();
    let p = e.profile(&JobDesc::main_desc()).unwrap();
    assert_eq!(p.counters[0].ctype, CounterType::Counter { ts: 0, value: 11 });
}

#[test]
fn accumulate_sums_and_fails_on_unknown_key() {
    let mut e = Exporter::new();
    assert!(e.accumulate(&snap("x", "", 4)).is_err());
    e.push(&snap("x", "", 5)).unwrap();
    e.accumulate(&snap("x", "", 4)).unwrap();
    let p = e.profile(&JobDesc::main_desc()).unwrap();
    assert_eq!(p.counters[0].ctype, CounterType::Counter { ts: 0, value: 9 });
}

#[test]
fn serialize_of_empty_store_is_just_the_end_marker() {
    let e = Exporter::new();
    assert_eq!(e.serialize().unwrap(), "# EOF\n");
}

#[test]
fn group_push_set_accumulate() {
    let mut g = ExporterEntryGroup::new("fam".to_string(), "doc".to_string());
    g.push(snap("fam{k=1}", "doc", 2)).unwrap();
    // Re-push of a known name is accepted and changes nothing.
    g.push(snap("fam{k=1}", "doc", 100)).unwrap();
    g.accumulate(&snap("fam{k=1}", "", 3)).unwrap();
    let cells = g.snapshot().unwrap();
    assert_eq!(cells.len(), 1);
    assert_eq!(cells[0].ctype, CounterType::Counter { ts: 0, value: 5 });
    assert!(g.set(snap("fam{k=2}", "", 1)).is_err());
}

#[test]
fn group_basename_splits_at_first_brace() {
    assert_eq!(ExporterEntryGroup::basename("a{b}".to_string()), "a");
    assert_eq!(ExporterEntryGroup::basename("abc".to_string()), "abc");
    assert_eq!(ExporterEntryGroup::basename("{x}".to_string()), "");
}
