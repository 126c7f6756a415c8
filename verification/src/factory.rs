use vstd::prelude::*;

verus! {

use crate::counters::{compatible, CounterSnapshot, CounterType};
use crate::errors::ProxyErr;
use crate::exporter::{
    exporter_has, exporter_lookup, exporter_wf, groups_snaps, spec_exporter_accumulate,
    spec_exporter_push, Exporter, GroupView,
};
use crate::counters::valid_metric_name;
use crate::jobs::{spec_main_desc, JobDesc, JobDescView, JobProfile, JobProfileView};
use crate::scraper::{ProxyScraper, ScraperView};
use crate::seqx::{contains_where, find_index, lemma_find_index, lemma_find_index_contains};
use crate::strutil::{first_match, last_occ, lemma_first_match};
use crate::numfmt::dec_seq;

/// Abstract value of a [`PerJobRefcount`].
pub struct PerJobView {
    pub desc: JobDescView,
    pub counter: u32,
    pub exporter: Seq<GroupView>,
    pub saveprofile: bool,
}

/// One active job: its description, the number of live references keeping it
/// alive, its own metric store, and whether its final state is to be
/// persisted when the last reference ends.
pub struct PerJobRefcount {
    pub desc: JobDesc,
    pub counter: u32,
    pub exporter: Exporter,
    pub saveprofile: bool,
}

impl View for PerJobRefcount {
    type V = PerJobView;

    open spec fn view(&self) -> PerJobView {
        PerJobView {
            desc: self.desc@,
            counter: self.counter,
            exporter: self.exporter@,
            saveprofile: self.saveprofile,
        }
    }
}

/// The profile a registry entry materializes: its description over its
/// store's cells.
pub open spec fn perjob_profile(e: PerJobView) -> JobProfileView {
    JobProfileView { desc: e.desc, counters: groups_snaps(e.exporter) }
}

impl PerJobRefcount {
    /// Materialize this job's current state.
    pub fn profile(&self) -> (r: Result<JobProfile, ProxyErr>)
        ensures
            r is Ok,
            r is Ok ==> r->Ok_0@ == perjob_profile(self@),
    {
        self.exporter.profile(&self.desc)
    }
}

/// First index in `s` of the entry for `jobid`, or `s.len()` when absent.
pub open spec fn jobs_find(s: Seq<PerJobView>, jobid: Seq<char>) -> int {
    find_index(s, |e: PerJobView| e.desc.jobid == jobid)
}

/// Some entry in `s` belongs to `jobid`.
pub open spec fn jobs_has(s: Seq<PerJobView>, jobid: Seq<char>) -> bool {
    contains_where(s, |e: PerJobView| e.desc.jobid == jobid)
}

/// A reference count saturates instead of wrapping.
pub open spec fn sat_inc(c: u32) -> u32 {
    if c < u32::MAX {
        (c + 1) as u32
    } else {
        c
    }
}

/// Acquiring a reference: a known job gains one count (and keeps any request
/// for persistence); an unknown one enters with count 1 and an empty store.
pub open spec fn spec_resolve_perjob(
    s: Seq<PerJobView>,
    desc: JobDescView,
    save: bool,
) -> Seq<PerJobView> {
    let i = jobs_find(s, desc.jobid);
    if i < s.len() {
        s.update(
            i,
            PerJobView { counter: sat_inc(s[i].counter), saveprofile: s[i].saveprofile || save, ..s[i] },
        )
    } else {
        s.push(PerJobView { desc, counter: 1, exporter: Seq::empty(), saveprofile: save })
    }
}

/// Releasing a reference of a known job: the entry leaves the table at count
/// one, else it only loses one count.
pub open spec fn spec_relax_perjob(s: Seq<PerJobView>, jobid: Seq<char>) -> Seq<PerJobView> {
    let i = jobs_find(s, jobid);
    if s[i].counter <= 1 {
        s.remove(i)
    } else {
        s.update(i, PerJobView { counter: (s[i].counter - 1) as u32, ..s[i] })
    }
}

/// The release that takes the count to zero removes the entry.
pub open spec fn spec_relax_removes(s: Seq<PerJobView>, jobid: Seq<char>) -> bool {
    jobs_has(s, jobid) && s[jobs_find(s, jobid)].counter <= 1
}

/// Persistence fires exactly on the removing release of a job marked for it.
pub open spec fn spec_relax_persists(s: Seq<PerJobView>, jobid: Seq<char>) -> bool {
    spec_relax_removes(s, jobid) && s[jobs_find(s, jobid)].saveprofile
}

/// Job registry: owns the set of active jobs, their reference counts and
/// per-job stores, plus the store summing all jobs and the scrape targets.
/// The durable root directory is kept as a path prefix; the surrounding
/// process performs the file writes the registry decides on.
pub struct ExporterFactory {
    pub main: Exporter,
    pub perjob: Vec<PerJobRefcount>,
    pub prefix: String,
    pub scrapes: Vec<ProxyScraper>,
}

/// Abstract value of an [`ExporterFactory`].
pub struct FactoryView {
    pub main: Seq<GroupView>,
    pub perjob: Seq<PerJobView>,
    pub prefix: Seq<char>,
    pub scrapes: Seq<ScraperView>,
}

impl View for ExporterFactory {
    type V = FactoryView;

    open spec fn view(&self) -> FactoryView {
        FactoryView {
            main: self.main@,
            perjob: self.perjob@.map_values(|e: PerJobRefcount| e@),
            prefix: self.prefix@,
            scrapes: self.scrapes@.map_values(|s: ProxyScraper| s@),
        }
    }
}

/// The registry's invariant: well-formed stores, one entry per job id, every
/// count at least one, and the distinguished summing job kept out of the
/// table (it lives in `main` and is pinned).
pub open spec fn factory_wf(v: FactoryView) -> bool {
    &&& exporter_wf(v.main)
    &&& forall|i: int, j: int|
        0 <= i < j < v.perjob.len() ==> v.perjob[i].desc.jobid != v.perjob[j].desc.jobid
    &&& forall|i: int|
        0 <= i < v.perjob.len() ==> (#[trigger] v.perjob[i]).counter >= 1 && exporter_wf(
            v.perjob[i].exporter,
        ) && v.perjob[i].desc.jobid != "main"@
}

/// First index in `v` of the entry for `jobid`, or the length when absent.
#[verifier::loop_isolation(false)]
fn find_job(v: &Vec<PerJobRefcount>, jobid: &String) -> (r: usize)
    ensures
        r as int == jobs_find(v@.map_values(|e: PerJobRefcount| e@), jobid@),
        r <= v@.len(),
{
    let ghost s = v@.map_values(|e: PerJobRefcount| e@);
    proof {
        lemma_find_index(s, |e: PerJobView| e.desc.jobid == jobid@);
    }
    let mut i: usize = 0;
    while i < v.len()
        invariant
            i <= v@.len(),
            forall|j: int| 0 <= j < i ==> s[j].desc.jobid != jobid@,
        decreases v@.len() - i,
    {
        if v[i].desc.jobid == *jobid {
            assert(s[i as int].desc.jobid == jobid@);
            return i;
        }
        i += 1;
    }
    v.len()
}

impl ExporterFactory {
    /// A fresh registry over a durable root directory: the summing store
    /// exists from the start, no job is active, nothing is scraped.
    pub fn new(prefix: String) -> (r: ExporterFactory)
        ensures
            r@.main =~= Seq::<GroupView>::empty(),
            r@.perjob =~= Seq::<PerJobView>::empty(),
            r@.prefix == prefix@,
            r@.scrapes =~= Seq::<ScraperView>::empty(),
            factory_wf(r@),
    {
        let r = ExporterFactory {
            main: Exporter::new(),
            perjob: Vec::new(),
            prefix,
            scrapes: Vec::new(),
        };
        proof {
            assert(r@.perjob =~= Seq::<PerJobView>::empty());
            assert(r@.scrapes =~= Seq::<ScraperView>::empty());
        }
        r
    }

    /// The store summing all jobs on this proxy.
    pub fn get_main(&self) -> (r: &Exporter)
        ensures
            r@ == self@.main,
    {
        &self.main
    }

    /// Read-only lookup of an active job's store; the distinguished id
    /// resolves to the summing store.
    pub fn resolve_by_id(&self, jobid: &String) -> (r: Option<&Exporter>)
        ensures
            r is Some <==> (jobid@ == "main"@ || jobs_has(self@.perjob, jobid@)),
            r matches Some(e) ==> e@ == (if jobid@ == "main"@ {
                self@.main
            } else {
                self@.perjob[jobs_find(self@.perjob, jobid@)].exporter
            }),
    {
        let main_id = String::from_str("main");
        if *jobid == main_id {
            return Some(&self.main);
        }
        let ghost s = self@.perjob;
        proof {
            lemma_find_index(s, |e: PerJobView| e.desc.jobid == jobid@);
            lemma_find_index_contains(s, |e: PerJobView| e.desc.jobid == jobid@);
        }
        let i = find_job(&self.perjob, jobid);
        if i < self.perjob.len() {
            Some(&self.perjob[i].exporter)
        } else {
            None
        }
    }

    /// Acquire a reference on a job, creating its entry on first sight.  The
    /// persistence request is sticky: once some caller asks, the job's final
    /// state will be persisted.  The distinguished summing job is pinned and
    /// never changes count.
    pub fn resolve_job(&mut self, desc: &JobDesc, tobesaved: bool)
        requires
            factory_wf(old(self)@),
        ensures
            desc@.jobid == "main"@ ==> final(self)@ == old(self)@,
            desc@.jobid != "main"@ ==> final(self)@ == (FactoryView {
                perjob: spec_resolve_perjob(old(self)@.perjob, desc@, tobesaved),
                ..old(self)@
            }),
            factory_wf(final(self)@),
    {
        let main_id = String::from_str("main");
        if desc.jobid == main_id {
            return ;
        }
        let ghost s = self@.perjob;
        proof {
            lemma_find_index(s, |e: PerJobView| e.desc.jobid == desc@.jobid);
        }
        let i = find_job(&self.perjob, &desc.jobid);
        if i < self.perjob.len() {
            let ghost before = self.perjob@;
            let mut e = PerJobRefcount {
                desc: self.perjob[i].desc.clone(),
                counter: self.perjob[i].counter,
                exporter: Exporter { groups: Vec::new() },
                saveprofile: self.perjob[i].saveprofile || tobesaved,
            };
            // Move the store rather than copying it: swap it out of the slot.
            let mut slot = self.perjob.remove(i);
            core::mem::swap(&mut e.exporter, &mut slot.exporter);
            if e.counter < u32::MAX {
                e.counter = e.counter + 1;
            }
            self.perjob.insert(i, e);
            proof {
                let f = |x: PerJobRefcount| x@;
                let target = spec_resolve_perjob(s, desc@, tobesaved);
                assert forall|j: int| 0 <= j < self.perjob@.len() implies self.perjob@.map_values(
                    f,
                )[j] == target[j] by {
                    if j < i {
                        assert(self.perjob@[j] == before[j]);
                    } else if j > i {
                        assert(self.perjob@[j] == before[j]);
                    }
                }
                assert(self.perjob@.map_values(f) =~= target);
                assert(factory_wf(self@)) by {
                    assert forall|a: int, b: int|
                        0 <= a < b < target.len() implies target[a].desc.jobid
                        != target[b].desc.jobid by {}
                }
            }
        } else {
            let ghost before = self.perjob@;
            let e = PerJobRefcount {
                desc: desc.clone(),
                counter: 1,
                exporter: Exporter::new(),
                saveprofile: tobesaved,
            };
            proof {
                assert(e@.exporter =~= Seq::<GroupView>::empty());
            }
            self.perjob.push(e);
            proof {
                let f = |x: PerJobRefcount| x@;
                let target = spec_resolve_perjob(s, desc@, tobesaved);
                assert forall|j: int| 0 <= j < self.perjob@.len() implies self.perjob@.map_values(
                    f,
                )[j] == target[j] by {
                    if j < before.len() {
                        assert(self.perjob@[j] == before[j]);
                    }
                }
                assert(self.perjob@.map_values(f) =~= target);
            }
        }
    }

    /// Release one reference on a job.  The release that takes the count to
    /// zero removes the entry and, when the job was marked for persistence,
    /// hands back the final profile for the caller to write out — the sole
    /// deletion path, so at most one such profile ever comes back per entry.
    /// Releasing an unknown job is the caller's accounting error and fails;
    /// the distinguished summing job is pinned and never released.
    pub fn relax_job(&mut self, desc: &JobDesc) -> (r: Result<Option<JobProfile>, ProxyErr>)
        requires
            factory_wf(old(self)@),
        ensures
            r is Ok <==> (desc@.jobid == "main"@ || jobs_has(old(self)@.perjob, desc@.jobid)),
            desc@.jobid == "main"@ ==> final(self)@ == old(self)@ && (r matches Ok(p) ==> p is None),
            r is Err ==> final(self)@ == old(self)@,
            (desc@.jobid != "main"@ && jobs_has(old(self)@.perjob, desc@.jobid)) ==> {
                &&& final(self)@ == (FactoryView {
                    perjob: spec_relax_perjob(old(self)@.perjob, desc@.jobid),
                    ..old(self)@
                })
                &&& (r->Ok_0 is Some <==> spec_relax_persists(old(self)@.perjob, desc@.jobid))
                &&& (r->Ok_0 matches Some(p) ==> p@ == perjob_profile(
                    old(self)@.perjob[jobs_find(old(self)@.perjob, desc@.jobid)],
                ))
            },
            factory_wf(final(self)@),
    {
        let main_id = String::from_str("main");
        if desc.jobid == main_id {
            return Ok(None);
        }
        let ghost s = self@.perjob;
        proof {
            lemma_find_index(s, |e: PerJobView| e.desc.jobid == desc@.jobid);
            lemma_find_index_contains(s, |e: PerJobView| e.desc.jobid == desc@.jobid);
        }
        let i = find_job(&self.perjob, &desc.jobid);
        if i == self.perjob.len() {
            return Err(ProxyErr::new("No such job to remove"));
        }
        let ghost before = self.perjob@;
        if self.perjob[i].counter > 1 {
            let mut e = PerJobRefcount {
                desc: self.perjob[i].desc.clone(),
                counter: self.perjob[i].counter - 1,
                exporter: Exporter { groups: Vec::new() },
                saveprofile: self.perjob[i].saveprofile,
            };
            let mut slot = self.perjob.remove(i);
            core::mem::swap(&mut e.exporter, &mut slot.exporter);
            self.perjob.insert(i, e);
            proof {
                let f = |x: PerJobRefcount| x@;
                let target = spec_relax_perjob(s, desc@.jobid);
                assert forall|j: int| 0 <= j < self.perjob@.len() implies self.perjob@.map_values(
                    f,
                )[j] == target[j] by {
                    if j < i {
                        assert(self.perjob@[j] == before[j]);
                    } else if j > i {
                        assert(self.perjob@[j] == before[j]);
                    }
                }
                assert(self.perjob@.map_values(f) =~= target);
            }
            Ok(None)
        } else {
            let entry = self.perjob.remove(i);
            proof {
                let f = |x: PerJobRefcount| x@;
                let target = spec_relax_perjob(s, desc@.jobid);
                assert forall|j: int| 0 <= j < self.perjob@.len() implies self.perjob@.map_values(
                    f,
                )[j] == target[j] by {
                    if j < i {
                        assert(self.perjob@[j] == before[j]);
                    } else {
                        assert(self.perjob@[j] == before[j + 1]);
                    }
                }
                assert(self.perjob@.map_values(f) =~= target);
            }
            if entry.saveprofile {
                let p = match entry.profile() {
                    Ok(p) => p,
                    Err(e) => {
                        // Unreachable: materializing a profile always succeeds.
                        return Err(e);
                    },
                };
                Ok(Some(p))
            } else {
                Ok(None)
            }
        }
    }

    /// Every active job's description: the summing job first, then the
    /// table in entry order.
    #[verifier::loop_isolation(false)]
    pub fn list_jobs(&self) -> (r: Vec<JobDesc>)
        ensures
            r@.len() == 1 + self@.perjob.len(),
            r@[0]@ == spec_main_desc(),
            forall|i: int| 0 <= i < self@.perjob.len() ==> r@[i + 1]@ == self@.perjob[i].desc,
    {
        let mut r: Vec<JobDesc> = Vec::new();
        r.push(JobDesc::main_desc());
        let mut i: usize = 0;
        while i < self.perjob.len()
            invariant
                i <= self.perjob@.len(),
                r@.len() == 1 + i,
                r@[0]@ == spec_main_desc(),
                forall|j: int| 0 <= j < i ==> r@[j + 1]@ == self@.perjob[j].desc,

            decreases self.perjob@.len() - i,
        {
            r.push(self.perjob[i].desc.clone());
            i += 1;
        }
        r
    }

    /// Every active job's current profile: the summing job first, then the
    /// table in entry order.
    #[verifier::loop_isolation(false)]
    pub fn profiles(&self) -> (r: Vec<JobProfile>)
        ensures
            r@.len() == 1 + self@.perjob.len(),
            r@[0]@ == (JobProfileView {
                desc: spec_main_desc(),
                counters: groups_snaps(self@.main),
            }),
            forall|i: int|
                0 <= i < self@.perjob.len() ==> r@[i + 1]@ == perjob_profile(self@.perjob[i]),
    {
        let mut r: Vec<JobProfile> = Vec::new();
        let main_p = match self.main.profile(&JobDesc::main_desc()) {
            Ok(p) => p,
            Err(_) => {
                // Unreachable: materializing a profile always succeeds.
                JobProfile::new(JobDesc::main_desc())
            },
        };
        r.push(main_p);
        let mut i: usize = 0;
        while i < self.perjob.len()
            invariant
                i <= self.perjob@.len(),
                r@.len() == 1 + i,
                r@[0]@ == (JobProfileView {
                    desc: spec_main_desc(),
                    counters: groups_snaps(self@.main),
                }),
                forall|j: int| 0 <= j < i ==> r@[j + 1]@ == perjob_profile(self@.perjob[j]),
            decreases self.perjob@.len() - i,
        {
            let p = match self.perjob[i].profile() {
                Ok(p) => p,
                Err(_) => {
                    // Unreachable: materializing a profile always succeeds.
                    JobProfile::new(JobDesc::main_desc())
                },
            };
            r.push(p);
            i += 1;
        }
        r
    }

    /// The current profile of one job; fails exactly when the id is unknown.
    pub fn profile_of(&self, jobid: &String) -> (r: Result<JobProfile, ProxyErr>)
        ensures
            r is Ok <==> (jobid@ == "main"@ || jobs_has(self@.perjob, jobid@)),
            r matches Ok(p) ==> p@ == (if jobid@ == "main"@ {
                JobProfileView { desc: spec_main_desc(), counters: groups_snaps(self@.main) }
            } else {
                perjob_profile(self@.perjob[jobs_find(self@.perjob, jobid@)])
            }),
    {
        let main_id = String::from_str("main");
        if *jobid == main_id {
            return self.main.profile(&JobDesc::main_desc());
        }
        let ghost s = self@.perjob;
        proof {
            lemma_find_index(s, |e: PerJobView| e.desc.jobid == jobid@);
            lemma_find_index_contains(s, |e: PerJobView| e.desc.jobid == jobid@);
        }
        let i = find_job(&self.perjob, jobid);
        if i < self.perjob.len() {
            self.perjob[i].profile()
        } else {
            Err(ProxyErr::new("No such Job ID"))
        }
    }

    /// Register a child proxy for scraping under its job-list URL.  The
    /// caller checks the child is alive; a target already known under the
    /// same URL is replaced.
    pub fn add_scrape(&mut self, url: &String, period: u64)
        ensures
            final(self)@ == (FactoryView {
                scrapes: old(self)@.scrapes.push(
                    ScraperView {
                        target_url: url@,
                        state: Seq::empty(),
                        period,
                        last_scrape: 0,
                    },
                ),
                ..old(self)@
            }),
    {
        let ghost before = self.scrapes@;
        self.scrapes.push(ProxyScraper::new(url.clone(), period));
        proof {
            let f = |x: ProxyScraper| x@;
            assert forall|j: int| 0 <= j < self.scrapes@.len() implies self.scrapes@.map_values(f)[j]
                == before.map_values(f).push(
                ScraperView { target_url: url@, state: Seq::empty(), period, last_scrape: 0 },
            )[j] by {
                if j < before.len() {
                    assert(self.scrapes@[j] == before[j]);
                }
            }
            assert(self.scrapes@.map_values(f) =~= before.map_values(f).push(
                ScraperView { target_url: url@, state: Seq::empty(), period, last_scrape: 0 },
            ));
        }
    }

    /// Whether registering `c` in store `gs` succeeds: it is already present
    /// or its name is well formed.
    pub open spec fn can_register(gs: Seq<GroupView>, c: crate::counters::SnapshotView) -> bool {
        exporter_has(gs, c.name) || valid_metric_name(c.name)
    }

    /// Whether accumulating `c` into store `gs` succeeds: the name is
    /// registered with a compatible shape.
    pub open spec fn can_accumulate(gs: Seq<GroupView>, c: crate::counters::SnapshotView) -> bool {
        exporter_has(gs, c.name) && compatible(exporter_lookup(gs, c.name).ctype, c.ctype)
    }

    /// Register a metric in one job's store.  Fails exactly when the job is
    /// unknown or the name is new and malformed, and then changes nothing.
    pub fn job_push(&mut self, jobid: &String, snap: &CounterSnapshot) -> (r: Result<
        (),
        ProxyErr,
    >)
        requires
            factory_wf(old(self)@),
        ensures
            r is Ok <==> (jobs_has(old(self)@.perjob, jobid@) && Self::can_register(
                old(self)@.perjob[jobs_find(old(self)@.perjob, jobid@)].exporter,
                snap@,
            )),
            r is Ok ==> final(self)@ == (FactoryView {
                perjob: old(self)@.perjob.update(
                    jobs_find(old(self)@.perjob, jobid@),
                    PerJobView {
                        exporter: spec_exporter_push(
                            old(self)@.perjob[jobs_find(old(self)@.perjob, jobid@)].exporter,
                            snap@,
                        ),
                        ..old(self)@.perjob[jobs_find(old(self)@.perjob, jobid@)]
                    },
                ),
                ..old(self)@
            }),
            r is Err ==> final(self)@ == old(self)@,
            factory_wf(final(self)@),
    {
        let ghost s = self@.perjob;
        proof {
            lemma_find_index(s, |e: PerJobView| e.desc.jobid == jobid@);
            lemma_find_index_contains(s, |e: PerJobView| e.desc.jobid == jobid@);
        }
        let i = find_job(&self.perjob, jobid);
        if i == self.perjob.len() {
            return Err(ProxyErr::new("No such JobID"));
        }
        let ghost before = self.perjob@;
        let mut entry = self.perjob.remove(i);
        let ghost eview = entry@;
        let r = entry.exporter.push(snap);
        match r {
            Ok(()) => {},
            Err(e) => {
                self.perjob.insert(i, entry);
                proof {
                    let f = |x: PerJobRefcount| x@;
                    assert forall|j: int| 0 <= j < self.perjob@.len() implies self.perjob@.map_values(
                        f,
                    )[j] == s[j] by {
                        if j < i {
                            assert(self.perjob@[j] == before[j]);
                        } else if j > i {
                            assert(self.perjob@[j] == before[j]);
                        }
                    }
                    assert(self.perjob@.map_values(f) =~= s);
                }
                return Err(e);
            },
        }
        self.perjob.insert(i, entry);
        proof {
            let f = |x: PerJobRefcount| x@;
            let target = s.update(
                i as int,
                PerJobView { exporter: spec_exporter_push(s[i as int].exporter, snap@), ..s[
                    i as int
                ] },
            );
            assert forall|j: int| 0 <= j < self.perjob@.len() implies self.perjob@.map_values(f)[j]
                == target[j] by {
                if j < i {
                    assert(self.perjob@[j] == before[j]);
                } else if j > i {
                    assert(self.perjob@[j] == before[j]);
                }
            }
            assert(self.perjob@.map_values(f) =~= target);
        }
        Ok(())
    }

    /// Accumulate a value into one job's store.  Fails exactly when the job
    /// is unknown, the name is not registered there, or the shapes differ,
    /// and then changes nothing.
    pub fn job_accumulate(&mut self, jobid: &String, snap: &CounterSnapshot) -> (r: Result<
        (),
        ProxyErr,
    >)
        requires
            factory_wf(old(self)@),
        ensures
            r is Ok <==> (jobs_has(old(self)@.perjob, jobid@) && Self::can_accumulate(
                old(self)@.perjob[jobs_find(old(self)@.perjob, jobid@)].exporter,
                snap@,
            )),
            r is Ok ==> final(self)@ == (FactoryView {
                perjob: old(self)@.perjob.update(
                    jobs_find(old(self)@.perjob, jobid@),
                    PerJobView {
                        exporter: spec_exporter_accumulate(
                            old(self)@.perjob[jobs_find(old(self)@.perjob, jobid@)].exporter,
                            snap@,
                        ),
                        ..old(self)@.perjob[jobs_find(old(self)@.perjob, jobid@)]
                    },
                ),
                ..old(self)@
            }),
            r is Err ==> final(self)@ == old(self)@,
            factory_wf(final(self)@),
    {
        let ghost s = self@.perjob;
        proof {
            lemma_find_index(s, |e: PerJobView| e.desc.jobid == jobid@);
            lemma_find_index_contains(s, |e: PerJobView| e.desc.jobid == jobid@);
        }
        let i = find_job(&self.perjob, jobid);
        if i == self.perjob.len() {
            return Err(ProxyErr::new("No such JobID"));
        }
        let ghost before = self.perjob@;
        let mut entry = self.perjob.remove(i);
        let r = entry.exporter.accumulate(snap);
        match r {
            Ok(()) => {},
            Err(e) => {
                self.perjob.insert(i, entry);
                proof {
                    let f = |x: PerJobRefcount| x@;
                    assert forall|j: int| 0 <= j < self.perjob@.len() implies self.perjob@.map_values(
                        f,
                    )[j] == s[j] by {
                        if j < i {
                            assert(self.perjob@[j] == before[j]);
                        } else if j > i {
                            assert(self.perjob@[j] == before[j]);
                        }
                    }
                    assert(self.perjob@.map_values(f) =~= s);
                }
                return Err(e);
            },
        }
        self.perjob.insert(i, entry);
        proof {
            let f = |x: PerJobRefcount| x@;
            let target = s.update(
                i as int,
                PerJobView { exporter: spec_exporter_accumulate(s[i as int].exporter, snap@), ..s[
                    i as int
                ] },
            );
            assert forall|j: int| 0 <= j < self.perjob@.len() implies self.perjob@.map_values(f)[j]
                == target[j] by {
                if j < i {
                    assert(self.perjob@[j] == before[j]);
                } else if j > i {
                    assert(self.perjob@[j] == before[j]);
                }
            }
            assert(self.perjob@.map_values(f) =~= target);
        }
        Ok(())
    }

    /// Register a metric in the summing store and, when a job id is given,
    /// in that job's store too.  An unknown job id fails before anything
    /// changes; a malformed new name fails with nothing changed.
    pub fn push(
        &mut self,
        name: &str,
        doc: &str,
        ctype: CounterType,
        perjob: Option<&String>,
    ) -> (r: Result<(), ProxyErr>)
        requires
            factory_wf(old(self)@),
        ensures
            ({
                let c = crate::counters::SnapshotView { name: name@, doc: doc@, ctype };
                &&& (r is Ok <==> (Self::can_register(old(self)@.main, c) && (match perjob {
                    Some(j) => jobs_has(old(self)@.perjob, j@) && Self::can_register(
                        old(self)@.perjob[jobs_find(old(self)@.perjob, j@)].exporter,
                        c,
                    ),
                    None => true,
                })))
                &&& (r is Ok ==> final(self)@ == (FactoryView {
                    main: spec_exporter_push(old(self)@.main, c),
                    perjob: (match perjob {
                        Some(j) => old(self)@.perjob.update(
                            jobs_find(old(self)@.perjob, j@),
                            PerJobView {
                                exporter: spec_exporter_push(
                                    old(self)@.perjob[jobs_find(old(self)@.perjob, j@)].exporter,
                                    c,
                                ),
                                ..old(self)@.perjob[jobs_find(old(self)@.perjob, j@)]
                            },
                        ),
                        None => old(self)@.perjob,
                    }),
                    ..old(self)@
                }))
                &&& (r is Err ==> final(self)@ == old(self)@)
            }),
            factory_wf(final(self)@),
    {
        let snap = CounterSnapshot::new(name.to_owned(), doc.to_owned(), ctype);
        match perjob {
            Some(jobid) => {
                let ghost s = self@.perjob;
                proof {
                    lemma_find_index(s, |e: PerJobView| e.desc.jobid == jobid@);
                    lemma_find_index_contains(s, |e: PerJobView| e.desc.jobid == jobid@);
                }
                let i = find_job(&self.perjob, jobid);
                if i == self.perjob.len() {
                    return Err(ProxyErr::new("No such JobID"));
                }
                match self.main.push(&snap) {
                    Ok(()) => {},
                    Err(e) => {
                        return Err(e);
                    },
                }
                self.job_push(jobid, &snap)
            },
            None => self.main.push(&snap),
        }
    }

    /// Accumulate a value into the summing store and, when a job id is
    /// given, into that job's store too.  An unknown job id fails before
    /// anything changes; when the summing store takes the value but the
    /// job's store cannot, the summing store keeps it and the error reports
    /// the job-side failure.
    pub fn accumulate(
        &mut self,
        name: &str,
        ctype: CounterType,
        perjob: Option<&String>,
    ) -> (r: Result<(), ProxyErr>)
        requires
            factory_wf(old(self)@),
        ensures
            ({
                let c = crate::counters::SnapshotView { name: name@, doc: ""@, ctype };
                let known = match perjob {
                    Some(j) => jobs_has(old(self)@.perjob, j@),
                    None => true,
                };
                let main2 = if known && Self::can_accumulate(old(self)@.main, c) {
                    spec_exporter_accumulate(old(self)@.main, c)
                } else {
                    old(self)@.main
                };
                &&& (r is Ok <==> (known && Self::can_accumulate(old(self)@.main, c) && (
                match perjob {
                    Some(j) => Self::can_accumulate(
                        old(self)@.perjob[jobs_find(old(self)@.perjob, j@)].exporter,
                        c,
                    ),
                    None => true,
                })))
                &&& final(self)@.main == main2
                &&& final(self)@.prefix == old(self)@.prefix
                &&& final(self)@.scrapes == old(self)@.scrapes
                &&& (r is Ok ==> final(self)@.perjob == (match perjob {
                    Some(j) => old(self)@.perjob.update(
                        jobs_find(old(self)@.perjob, j@),
                        PerJobView {
                            exporter: spec_exporter_accumulate(
                                old(self)@.perjob[jobs_find(old(self)@.perjob, j@)].exporter,
                                c,
                            ),
                            ..old(self)@.perjob[jobs_find(old(self)@.perjob, j@)]
                        },
                    ),
                    None => old(self)@.perjob,
                }))
                &&& (r is Err ==> final(self)@.perjob == old(self)@.perjob)
            }),
            factory_wf(final(self)@),
    {
        let snap = CounterSnapshot::new(name.to_owned(), String::new(), ctype);
        match perjob {
            Some(jobid) => {
                let ghost s = self@.perjob;
                proof {
                    lemma_find_index(s, |e: PerJobView| e.desc.jobid == jobid@);
                    lemma_find_index_contains(s, |e: PerJobView| e.desc.jobid == jobid@);
                }
                let i = find_job(&self.perjob, jobid);
                if i == self.perjob.len() {
                    return Err(ProxyErr::new("No such JobID"));
                }
                match self.main.accumulate(&snap) {
                    Ok(()) => {},
                    Err(e) => {
                        return Err(e);
                    },
                }
                self.job_accumulate(jobid, &snap)
            },
            None => self.main.accumulate(&snap),
        }
    }

    /// The job id a partial-profile file belongs to, read back from its
    /// name: the part of the file name (after any directory prefix) that
    /// precedes the host-and-timestamp tag.  Fails exactly when the path has
    /// no file name.
    pub fn profile_parse_jobid(target: &String) -> (r: Result<String, ProxyErr>)
        ensures
            r is Ok <==> last_occ(target@, '/') + 1 < target@.len(),
            r matches Ok(j) ==> j@ == spec_parse_jobid(target@),
    {
        let s = target.as_str();
        let n = s.unicode_len();
        proof {
            crate::strutil::lemma_last_occ(s@, '/');
        }
        let start = crate::strutil::after_last_occ(s, '/');
        if start == n {
            return Err(ProxyErr::new("Failed to parse path"));
        }
        let fname = s.substring_char(start, n);
        proof {
            lemma_first_match(fname@, "___"@);
        }
        let cut = crate::strutil::find_sub(fname, "___");
        Ok(fname.substring_char(0, cut).to_owned())
    }

    /// The file name a partial profile is written under: the job id, the
    /// writing host and a timestamp, so that concurrent writers on a shared
    /// filesystem never collide and the aggregation loop can read the job id
    /// back without coordination.
    pub fn partial_profile_name(jobid: &String, host: &String, ts: u64) -> (r: String)
        ensures
            r@ == jobid@ + "___"@ + host@ + "."@ + dec_seq(ts as nat) + ".partialprofile"@,
    {
        let mut out = jobid.clone();
        out.append("___");
        out.append(host.as_str());
        out.append(".");
        let d = crate::numfmt::u64_to_dec(ts);
        out.append(d.as_str());
        out.append(".partialprofile");
        proof {
            assert(out@ =~= jobid@ + "___"@ + host@ + "."@ + dec_seq(ts as nat)
                + ".partialprofile"@);
        }
        out
    }
}

/// What `profile_parse_jobid` reads out of a partial-profile path: the file
/// name after the last separator, up to the host-and-timestamp tag.
pub open spec fn spec_parse_jobid(s: Seq<char>) -> Seq<char> {
    let fname = s.subrange(last_occ(s, '/') + 1, s.len() as int);
    fname.take(first_match(fname, "___"@))
}

/// `n` acquisitions of one job, in a row.
pub open spec fn apply_resolves(
    s: Seq<PerJobView>,
    desc: JobDescView,
    save: bool,
    n: nat,
) -> Seq<PerJobView>
    decreases n,
{
    if n == 0 {
        s
    } else {
        spec_resolve_perjob(apply_resolves(s, desc, save, (n - 1) as nat), desc, save)
    }
}

/// `k` releases of one job, in a row.
pub open spec fn apply_relaxes(s: Seq<PerJobView>, jobid: Seq<char>, k: nat) -> Seq<PerJobView>
    decreases k,
{
    if k == 0 {
        s
    } else {
        apply_relaxes(spec_relax_perjob(s, jobid), jobid, (k - 1) as nat)
    }
}

/// How many of `k` releases of one job trigger persistence.
pub open spec fn relax_persist_count(s: Seq<PerJobView>, jobid: Seq<char>, k: nat) -> nat
    decreases k,
{
    if k == 0 {
        0
    } else {
        (if spec_relax_persists(s, jobid) {
            1nat
        } else {
            0nat
        }) + relax_persist_count(spec_relax_perjob(s, jobid), jobid, (k - 1) as nat)
    }
}

/// An entry pushed for a job id the table does not know is found at the end
/// of the table.
proof fn lemma_find_pushed(s: Seq<PerJobView>, e: PerJobView)
    requires
        !jobs_has(s, e.desc.jobid),
    ensures
        jobs_find(s.push(e), e.desc.jobid) == s.len(),
{
    let t = s.push(e);
    lemma_find_index(t, |x: PerJobView| x.desc.jobid == e.desc.jobid);
    let fi = jobs_find(t, e.desc.jobid);
    assert(t[s.len() as int] == e);
    if fi < s.len() {
        assert(t[fi] == s[fi]);
        assert(jobs_has(s, e.desc.jobid));
    }
    if fi > s.len() {
        assert(t[s.len() as int].desc.jobid != e.desc.jobid);
    }
}

/// After `n` acquisitions of a job the table did not know, its entry sits at
/// the end with a count of exactly `n`.
proof fn lemma_resolves_shape(s: Seq<PerJobView>, desc: JobDescView, save: bool, n: nat)
    requires
        !jobs_has(s, desc.jobid),
        1 <= n <= u32::MAX,
    ensures
        apply_resolves(s, desc, save, n) =~= s.push(
            PerJobView { desc, counter: n as u32, exporter: Seq::empty(), saveprofile: save },
        ),
    decreases n,
{
    let e_n = PerJobView { desc, counter: n as u32, exporter: Seq::empty(), saveprofile: save };
    if n == 1 {
        lemma_find_index(s, |x: PerJobView| x.desc.jobid == desc.jobid);
        lemma_find_index_contains(s, |x: PerJobView| x.desc.jobid == desc.jobid);
        assert(jobs_find(s, desc.jobid) == s.len());
        assert(apply_resolves(s, desc, save, 0) == s);
        assert(apply_resolves(s, desc, save, 1) == spec_resolve_perjob(s, desc, save));
    } else {
        lemma_resolves_shape(s, desc, save, (n - 1) as nat);
        let prev = PerJobView {
            desc,
            counter: (n - 1) as u32,
            exporter: Seq::empty(),
            saveprofile: save,
        };
        let t = s.push(prev);
        lemma_find_pushed(s, prev);
        assert(jobs_find(t, desc.jobid) == s.len());
        assert(t[s.len() as int] == prev);
        assert(spec_resolve_perjob(t, desc, save) =~= t.update(
            s.len() as int,
            PerJobView {
                counter: sat_inc(prev.counter),
                saveprofile: prev.saveprofile || save,
                ..prev
            },
        ));
        assert(spec_resolve_perjob(apply_resolves(s, desc, save, (n - 1) as nat), desc, save)
            == spec_resolve_perjob(t, desc, save));
        assert(t.update(s.len() as int, e_n) =~= s.push(e_n));
    }
}

/// Releasing an end-of-table entry `c` times removes it exactly at the last
/// release, which is the only one that can persist; it persists exactly when
/// the entry was marked.
proof fn lemma_relaxes_shape(s: Seq<PerJobView>, e: PerJobView, c: nat)
    requires
        !jobs_has(s, e.desc.jobid),
        c == e.counter as nat,
        c >= 1,
    ensures
        apply_relaxes(s.push(e), e.desc.jobid, c) =~= s,
        relax_persist_count(s.push(e), e.desc.jobid, c) == (if e.saveprofile {
            1nat
        } else {
            0nat
        }),
    decreases c,
{
    let t = s.push(e);
    lemma_find_pushed(s, e);
    assert(t[s.len() as int] == e);
    assert(jobs_has(t, e.desc.jobid));
    if c == 1 {
        assert(spec_relax_perjob(t, e.desc.jobid) =~= s);
        assert(spec_relax_removes(t, e.desc.jobid));
        assert(apply_relaxes(t, e.desc.jobid, 1) == apply_relaxes(
            spec_relax_perjob(t, e.desc.jobid),
            e.desc.jobid,
            0,
        ));
        assert(relax_persist_count(s, e.desc.jobid, 0) == 0);
    } else {
        let e2 = PerJobView { counter: (e.counter - 1) as u32, ..e };
        assert(spec_relax_perjob(t, e.desc.jobid) =~= s.push(e2)) by {
            assert(t.update(s.len() as int, e2) =~= s.push(e2));
        }
        assert(!spec_relax_removes(t, e.desc.jobid));
        lemma_relaxes_shape(s, e2, (c - 1) as nat);
    }
}

/// The reference-counted lifecycle: after `n` acquisitions of a job the
/// table did not know, its count is exactly `n`; `n` releases then persist
/// its profile exactly once — and only when persistence was requested — and
/// leave no entry behind, so any further release fails as an accounting
/// error.
pub proof fn lemma_refcount_lifecycle(s: Seq<PerJobView>, desc: JobDescView, save: bool, n: nat)
    requires
        !jobs_has(s, desc.jobid),
        1 <= n <= u32::MAX,
    ensures
        ({
            let after = apply_resolves(s, desc, save, n);
            &&& jobs_has(after, desc.jobid)
            &&& after[jobs_find(after, desc.jobid)].counter == n as u32
            &&& relax_persist_count(after, desc.jobid, n) == (if save {
                1nat
            } else {
                0nat
            })
            &&& apply_relaxes(after, desc.jobid, n) =~= s
            &&& !jobs_has(apply_relaxes(after, desc.jobid, n), desc.jobid)
        }),
{
    lemma_resolves_shape(s, desc, save, n);
    let e = PerJobView { desc, counter: n as u32, exporter: Seq::empty(), saveprofile: save };
    lemma_find_pushed(s, e);
    assert(s.push(e)[s.len() as int] == e);
    assert(jobs_has(s.push(e), desc.jobid));
    lemma_relaxes_shape(s, e, n);
    assert(apply_resolves(s, desc, save, n) == s.push(e));
    assert(apply_relaxes(s.push(e), desc.jobid, n) =~= s);
}

} // verus!
