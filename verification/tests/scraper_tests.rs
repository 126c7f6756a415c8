use metric_proxy::counters::{CounterSnapshot, CounterType};
use metric_proxy::factory::ExporterFactory;
use metric_proxy::jobs::{JobDesc, JobProfile};
use metric_proxy::scraper::{parse_period, ProxyScraper};

fn job(id: &str) -> JobDesc {
    JobDesc {
        jobid: id.to_string(),
        command: "cmd".to_string(),
        size: 1,
        nodelist: String::new(),
        partition: String::new(),
        cluster: String::new(),
        run_dir: String::new(),
        start_time: 0,
        end_time: 0,
    }
}

fn profile(id: &str, value: u64, ts: u64) -> JobProfile {
    JobProfile {
        desc: job(id),
        counters: vec![CounterSnapshot::new(
            "c".to_string(),
            "doc".to_string(),
            CounterType::Counter { ts, value },
        )],
    }
}

#[test]
fn second_round_feeds_the_delta() {
    let mut f = ExporterFactory::new("p".to_string());
    let mut s = ProxyScraper::new("child/job".to_string(), 0);

    // Round one: jobA appears with c=5; the whole profile is the delta.
    let round0 = vec![profile("jobA", 5, 10)];
    let persists = s.scrape(&mut f, &round0, 100).unwrap();
    assert!(persists.is_empty());
    // Registration stores the first delta and accumulation adds it again,
    // as the store's contract lays out: 5 + 5.
    let p = f.profile_of(&"jobA".to_string()).unwrap();
    assert_eq!(p.counters[0].ctype, CounterType::Counter { ts: 10, value: 10 });

    // Round two: jobA reports c=9; the delta fed is 9 - 5 = 4.
    let round1 = vec![profile("jobA", 9, 20)];
    s.scrape(&mut f, &round1, 200).unwrap();
    let p = f.profile_of(&"jobA".to_string()).unwrap();
    assert_eq!(p.counters[0].ctype, CounterType::Counter { ts: 20, value: 14 });
    // The shadow state keeps the raw report, not the delta.
    assert_eq!(s.state.len(), 1);
    assert_eq!(
        s.state[0].counters[0].ctype,
        CounterType::Counter { ts: 20, value: 9 }
    );
}

#[test]
fn a_disappearing_job_is_released_exactly_once() {
    let mut f = ExporterFactory::new("p".to_string());
    let mut s = ProxyScraper::new("child/job".to_string(), 0);
    s.scrape(&mut f, &vec![profile("jobA", 5, 10)], 100).unwrap();
    assert!(f.resolve_by_id(&"jobA".to_string()).is_some());

    // jobA vanishes from the report: the scrape-side reference is released,
    // the entry reaches zero and leaves.  A second release attempt would
    // make the round fail, so a clean round shows it fired exactly once.
    let persists = s.scrape(&mut f, &Vec::new(), 200).unwrap();
    assert!(persists.is_empty());
    assert!(f.resolve_by_id(&"jobA".to_string()).is_none());
    assert!(s.state.is_empty());
}

#[test]
fn rounds_respect_the_period() {
    let mut f = ExporterFactory::new("p".to_string());
    let mut s = ProxyScraper::new("child/job".to_string(), 50);
    s.scrape(&mut f, &vec![profile("jobA", 5, 10)], 100).unwrap();
    // Too soon: the round is skipped whole, the report ignored.
    s.scrape(&mut f, &vec![profile("jobB", 1, 20)], 120).unwrap();
    assert!(f.resolve_by_id(&"jobB".to_string()).is_none());
    assert_eq!(s.last_scrape, 100);
    // Late enough: the next round runs.
    s.scrape(&mut f, &vec![profile("jobA", 6, 30), profile("jobB", 1, 30)], 150).unwrap();
    assert!(f.resolve_by_id(&"jobB".to_string()).is_some());
}

#[test]
fn a_child_summing_job_feeds_the_parent_summing_store() {
    let mut f = ExporterFactory::new("p".to_string());
    let mut s = ProxyScraper::new("child/job".to_string(), 0);
    s.scrape(&mut f, &vec![profile("main", 3, 10)], 100).unwrap();
    let main_profile = f.profile_of(&"main".to_string()).unwrap();
    assert_eq!(main_profile.counters[0].ctype, CounterType::Counter { ts: 10, value: 6 });
}

#[test]
fn incompatible_delta_aborts_the_round() {
    let mut f = ExporterFactory::new("p".to_string());
    let mut s = ProxyScraper::new("child/job".to_string(), 0);
    s.scrape(&mut f, &vec![profile("jobA", 5, 10)], 100).unwrap();
    let mut bad = profile("jobA", 0, 20);
    bad.counters[0].ctype = CounterType::Gauge { min: 0, max: 1, hits: 1, total: 1 };
    assert!(s.scrape(&mut f, &vec![bad], 200).is_err());
    // An aborted round leaves the scraper untouched.
    assert_eq!(s.last_scrape, 100);
}

#[test]
fn parse_period_splits_address_and_period() {
    assert_eq!(parse_period(&"host:1337@500".to_string()), ("host:1337".to_string(), 500));
    assert_eq!(parse_period(&"host:1337".to_string()), ("host:1337".to_string(), 1000));
    // An unreadable period keeps the whole argument and a short fallback.
    assert_eq!(parse_period(&"host@abc".to_string()), ("host@abc".to_string(), 5));
    assert_eq!(parse_period(&"host@".to_string()), ("host@".to_string(), 5));
    // Only the segment between the first two separators counts.
    assert_eq!(parse_period(&"host@7@9".to_string()), ("host".to_string(), 7));
}
