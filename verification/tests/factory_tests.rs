use metric_proxy::counters::CounterType;
use metric_proxy::factory::ExporterFactory;
use metric_proxy::jobs::JobDesc;

fn job(id: &str) -> JobDesc {
    JobDesc {
        jobid: id.to_string(),
        command: "cmd".to_string(),
        size: 4,
        nodelist: "n0,n1".to_string(),
        partition: "p".to_string(),
        cluster: "c".to_string(),
        run_dir: "/tmp/run".to_string(),
        start_time: 100,
        end_time: 0,
    }
}

fn counter(value: u64) -> CounterType {
    CounterType::Counter { ts: 1, value }
}

#[test]
fn resolve_then_relax_persists_exactly_once() {
    let mut f = ExporterFactory::new("/tmp/profiles".to_string());
    let d = job("j1");
    f.resolve_job(&d, true);
    f.resolve_job(&d, true);
    f.push("c", "doc", counter(0), Some(&d.jobid)).unwrap();
    f.accumulate("c", counter(7), Some(&d.jobid)).unwrap();

    // First release only drops the count: no persistence yet.
    let first = f.relax_job(&d).unwrap();
    assert!(first.is_none());
    // Second release hits zero: the entry leaves and its profile comes back
    // exactly once.
    let second = f.relax_job(&d).unwrap();
    let profile = second.expect("the zero-crossing release must persist");
    assert_eq!(profile.desc.jobid, "j1");
    assert_eq!(profile.counters.len(), 1);
    assert_eq!(profile.counters[0].name, "c");
    assert_eq!(profile.counters[0].ctype, counter(7));
    // A third release is the caller's accounting error.
    assert!(f.relax_job(&d).is_err());
}

#[test]
fn relax_without_persist_flag_returns_no_profile() {
    let mut f = ExporterFactory::new("p".to_string());
    let d = job("j2");
    f.resolve_job(&d, false);
    let r = f.relax_job(&d).unwrap();
    assert!(r.is_none());
    assert!(f.resolve_by_id(&d.jobid).is_none());
}

#[test]
fn the_summing_job_is_pinned() {
    let mut f = ExporterFactory::new("p".to_string());
    let main = JobDesc::main_desc();
    // Releasing the distinguished job never removes it and never persists.
    let r = f.relax_job(&main).unwrap();
    assert!(r.is_none());
    assert!(f.resolve_by_id(&"main".to_string()).is_some());
    // Resolving it is equally a no-op.
    f.resolve_job(&main, true);
    assert!(f.relax_job(&main).unwrap().is_none());
}

#[test]
fn push_feeds_main_and_the_job_store() {
    let mut f = ExporterFactory::new("p".to_string());
    let d = job("j3");
    f.resolve_job(&d, false);
    f.push("hits", "doc", counter(2), Some(&d.jobid)).unwrap();
    f.accumulate("hits", counter(5), Some(&d.jobid)).unwrap();
    let main_profile = f.profile_of(&"main".to_string()).unwrap();
    assert_eq!(main_profile.counters[0].ctype, counter(7));
    let job_profile = f.profile_of(&d.jobid).unwrap();
    assert_eq!(job_profile.counters[0].ctype, counter(7));
}

#[test]
fn push_with_unknown_job_changes_nothing() {
    let mut f = ExporterFactory::new("p".to_string());
    let unknown_id = "nowhere".to_string();
    assert!(f.push("hits", "doc", counter(2), Some(&unknown_id)).is_err());
    let main_profile = f.profile_of(&"main".to_string()).unwrap();
    assert_eq!(main_profile.counters.len(), 0);
}

#[test]
fn list_jobs_starts_with_the_summing_job() {
    let mut f = ExporterFactory::new("p".to_string());
    f.resolve_job(&job("a"), false);
    f.resolve_job(&job("b"), false);
    let jobs = f.list_jobs();
    assert_eq!(jobs.len(), 3);
    assert_eq!(jobs[0].jobid, "main");
    assert_eq!(jobs[1].jobid, "a");
    assert_eq!(jobs[2].jobid, "b");
    let profiles = f.profiles();
    assert_eq!(profiles.len(), 3);
    assert_eq!(profiles[0].desc.jobid, "main");
}

#[test]
fn profile_of_unknown_job_fails() {
    let f = ExporterFactory::new("p".to_string());
    assert!(f.profile_of(&"missing".to_string()).is_err());
}

#[test]
fn profile_parse_jobid_reads_the_filename_prefix() {
    let target = "/root/partial/1234___host7.1699999.partialprofile".to_string();
    assert_eq!(ExporterFactory::profile_parse_jobid(&target).unwrap(), "1234");
    // Without the tag the whole file name is the job id.
    let bare = "/root/partial/plain".to_string();
    assert_eq!(ExporterFactory::profile_parse_jobid(&bare).unwrap(), "plain");
    // A path with no file name cannot be parsed.
    assert!(ExporterFactory::profile_parse_jobid(&"dir/".to_string()).is_err());
}

#[test]
fn partial_profile_name_round_trips_through_the_parser() {
    let name = ExporterFactory::partial_profile_name(
        &"77".to_string(),
        &"nodeA".to_string(),
        123456,
    );
    assert_eq!(name, "77___nodeA.123456.partialprofile");
    assert_eq!(ExporterFactory::profile_parse_jobid(&name).unwrap(), "77");
}

#[test]
fn add_scrape_registers_a_target() {
    let mut f = ExporterFactory::new("p".to_string());
    f.add_scrape(&"child:1337/job".to_string(), 500);
    assert_eq!(f.scrapes.len(), 1);
    assert_eq!(f.scrapes[0].target_url, "child:1337/job");
    assert_eq!(f.scrapes[0].period, 500);
}
