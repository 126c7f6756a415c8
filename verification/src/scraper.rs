use vstd::prelude::*;

verus! {

use crate::counters::SnapshotView;
use crate::errors::ProxyErr;
use crate::exporter::{spec_exporter_accumulate, spec_exporter_push, GroupView};
use crate::factory::{
    factory_wf, jobs_find, jobs_has, spec_relax_perjob, spec_relax_persists, spec_resolve_perjob,
    ExporterFactory, FactoryView, PerJobView,
};
use crate::jobs::{
    can_subtract_counters, spec_subtract_counters, JobProfile, JobProfileView,
};
use crate::numfmt::{all_dec_digits, dec_val, parse_u64};
use crate::seqx::{contains_where, find_index, lemma_find_index, lemma_find_index_contains};
use crate::strutil::{find_char, first_occ, lemma_first_occ};

/// Abstract value of a [`ProxyScraper`].
pub struct ScraperView {
    pub target_url: Seq<char>,
    pub state: Seq<JobProfileView>,
    pub period: u64,
    pub last_scrape: u64,
}

/// One scrape target: a child proxy's job-list URL, the rate limit, the time
/// of the last round, and the last full snapshot seen for each of the
/// child's jobs.
pub struct ProxyScraper {
    pub target_url: String,
    pub state: Vec<JobProfile>,
    pub period: u64,
    pub last_scrape: u64,
}

impl View for ProxyScraper {
    type V = ScraperView;

    open spec fn view(&self) -> ScraperView {
        ScraperView {
            target_url: self.target_url@,
            state: self.state@.map_values(|p: JobProfile| p@),
            period: self.period,
            last_scrape: self.last_scrape,
        }
    }
}

impl ProxyScraper {
    pub fn new(target_url: String, period: u64) -> (r: ProxyScraper)
        ensures
            r@.target_url == target_url@,
            r@.state =~= Seq::<JobProfileView>::empty(),
            r@.period == period,
            r@.last_scrape == 0,
    {
        let r = ProxyScraper { target_url, state: Vec::new(), period, last_scrape: 0 };
        proof {
            assert(r@.state =~= Seq::<JobProfileView>::empty());
        }
        r
    }
}

/// What `parse_period` yields on `s`: the address and the scrape period.  A
/// plain address gets the default period; an address with an unreadable
/// period falls back to a short one, keeping the whole argument as address.
pub open spec fn spec_parse_period(s: Seq<char>) -> (Seq<char>, u64) {
    let i = first_occ(s, '@');
    if i == s.len() {
        (s, 1000u64)
    } else {
        let rest = s.subrange(i + 1, s.len() as int);
        let stime = rest.take(first_occ(rest, '@'));
        if stime.len() > 0 && all_dec_digits(stime) && dec_val(stime) <= u64::MAX {
            (s.take(i), dec_val(stime) as u64)
        } else {
            (s, 5u64)
        }
    }
}

/// Split a scrape argument `address@period` into the address and the period
/// in seconds; a bare address defaults to 1000.
pub fn parse_period(arg: &String) -> (r: (String, u64))
    ensures
        r.0@ == spec_parse_period(arg@).0,
        r.1 == spec_parse_period(arg@).1,
{
    let s = arg.as_str();
    let n = s.unicode_len();
    proof {
        lemma_first_occ(s@, '@');
    }
    let i = find_char(s, '@');
    if i == n {
        return (arg.clone(), 1000);
    }
    let rest = s.substring_char(i + 1, n);
    proof {
        lemma_first_occ(rest@, '@');
    }
    let k = find_char(rest, '@');
    let stime = rest.substring_char(0, k);
    proof {
        assert(stime@ =~= s@.subrange(i + 1, n as int).take(first_occ(s@.subrange(i + 1, n as int), '@')));
    }
    match parse_u64(stime) {
        Ok(v) => (s.substring_char(0, i).to_owned(), v),
        Err(_) => (arg.clone(), 5),
    }
}


/// First index in `ps` of the profile of `jobid`, or `ps.len()` when absent.
pub open spec fn profs_find(ps: Seq<JobProfileView>, jobid: Seq<char>) -> int {
    find_index(ps, |p: JobProfileView| p.desc.jobid == jobid)
}

/// Some profile in `ps` belongs to `jobid`.
pub open spec fn profs_has(ps: Seq<JobProfileView>, jobid: Seq<char>) -> bool {
    contains_where(ps, |p: JobProfileView| p.desc.jobid == jobid)
}

/// First index in `v` of the profile of `jobid`, or the length when absent.
#[verifier::loop_isolation(false)]
pub fn find_profile(v: &Vec<JobProfile>, jobid: &String) -> (r: usize)
    ensures
        r as int == profs_find(v@.map_values(|p: JobProfile| p@), jobid@),
        r <= v@.len(),
{
    let ghost s = v@.map_values(|p: JobProfile| p@);
    proof {
        lemma_find_index(s, |p: JobProfileView| p.desc.jobid == jobid@);
    }
    let mut i: usize = 0;
    while i < v.len()
        invariant
            i <= v@.len(),
            forall|j: int| 0 <= j < i ==> s[j].desc.jobid != jobid@,
        decreases v@.len() - i,
    {
        if v[i].desc.jobid == *jobid {
            assert(s[i as int].desc.jobid == jobid@);
            return i;
        }
        i += 1;
    }
    v.len()
}

/// Feeding one delta counter into a store: idempotent registration, then
/// accumulation.
pub open spec fn feed_one(gs: Seq<GroupView>, c: SnapshotView) -> Seq<GroupView> {
    spec_exporter_accumulate(spec_exporter_push(gs, c), c)
}

pub open spec fn can_feed_one(gs: Seq<GroupView>, c: SnapshotView) -> bool {
    ExporterFactory::can_register(gs, c) && ExporterFactory::can_accumulate(
        spec_exporter_push(gs, c),
        c,
    )
}

/// Feeding a whole delta, counter by counter.
pub open spec fn feed_all(gs: Seq<GroupView>, cs: Seq<SnapshotView>) -> Seq<GroupView>
    decreases cs.len(),
{
    if cs.len() == 0 {
        gs
    } else {
        feed_all(feed_one(gs, cs[0]), cs.drop_first())
    }
}

pub open spec fn can_feed_all(gs: Seq<GroupView>, cs: Seq<SnapshotView>) -> bool
    decreases cs.len(),
{
    if cs.len() == 0 {
        true
    } else {
        can_feed_one(gs, cs[0]) && can_feed_all(feed_one(gs, cs[0]), cs.drop_first())
    }
}

pub proof fn lemma_feed_all_push(gs: Seq<GroupView>, cs: Seq<SnapshotView>, x: SnapshotView)
    ensures
        feed_all(gs, cs.push(x)) == feed_one(feed_all(gs, cs), x),
        can_feed_all(gs, cs.push(x)) == (can_feed_all(gs, cs) && can_feed_one(feed_all(gs, cs), x)),
    decreases cs.len(),
{
    if cs.len() == 0 {
        let s1 = cs.push(x);
        assert(s1[0] == x);
        assert(s1.drop_first() =~= Seq::<SnapshotView>::empty());
        assert(feed_all(feed_one(gs, x), s1.drop_first()) == feed_one(gs, x));
        assert(can_feed_all(feed_one(gs, x), s1.drop_first()));
    } else {
        let s1 = cs.push(x);
        assert(s1[0] == cs[0]);
        assert(s1.drop_first() =~= cs.drop_first().push(x));
        lemma_feed_all_push(feed_one(gs, cs[0]), cs.drop_first(), x);
    }
}

/// The delta a scraped profile contributes: the difference against the
/// previous round's snapshot when one exists, the whole profile when the
/// job is newly seen.
pub open spec fn delta_of(p: JobProfileView, prev: Seq<JobProfileView>) -> Seq<SnapshotView> {
    if profs_has(prev, p.desc.jobid) {
        spec_subtract_counters(p.counters, prev[profs_find(prev, p.desc.jobid)].counters)
    } else {
        p.counters
    }
}

pub open spec fn can_delta(p: JobProfileView, prev: Seq<JobProfileView>) -> bool {
    profs_has(prev, p.desc.jobid) ==> can_subtract_counters(
        p.counters,
        prev[profs_find(prev, p.desc.jobid)].counters,
    )
}

/// One departure: the parent releases its scrape-side reference.  The
/// distinguished summing job is pinned and never released.
pub open spec fn depart_step(pj: Seq<PerJobView>, jobid: Seq<char>) -> Seq<PerJobView> {
    if jobid == "main"@ {
        pj
    } else {
        spec_relax_perjob(pj, jobid)
    }
}

pub open spec fn can_depart_step(pj: Seq<PerJobView>, jobid: Seq<char>) -> bool {
    jobid == "main"@ || jobs_has(pj, jobid)
}

/// All departures of one round: every job of the previous round that the
/// child no longer reports is released, in previous-round order.
pub open spec fn spec_departures(
    pj: Seq<PerJobView>,
    prev: Seq<JobProfileView>,
    incoming: Seq<JobProfileView>,
) -> Seq<PerJobView>
    decreases prev.len(),
{
    if prev.len() == 0 {
        pj
    } else if profs_has(incoming, prev[0].desc.jobid) {
        spec_departures(pj, prev.drop_first(), incoming)
    } else {
        spec_departures(depart_step(pj, prev[0].desc.jobid), prev.drop_first(), incoming)
    }
}

pub open spec fn can_departures(
    pj: Seq<PerJobView>,
    prev: Seq<JobProfileView>,
    incoming: Seq<JobProfileView>,
) -> bool
    decreases prev.len(),
{
    if prev.len() == 0 {
        true
    } else if profs_has(incoming, prev[0].desc.jobid) {
        can_departures(pj, prev.drop_first(), incoming)
    } else {
        can_depart_step(pj, prev[0].desc.jobid) && can_departures(
            depart_step(pj, prev[0].desc.jobid),
            prev.drop_first(),
            incoming,
        )
    }
}

/// The profiles the departures of one round persist, in departure order:
/// one for each removed entry that was marked for persistence.
pub open spec fn spec_departure_persists(
    pj: Seq<PerJobView>,
    prev: Seq<JobProfileView>,
    incoming: Seq<JobProfileView>,
) -> Seq<JobProfileView>
    decreases prev.len(),
{
    if prev.len() == 0 {
        Seq::empty()
    } else if profs_has(incoming, prev[0].desc.jobid) {
        spec_departure_persists(pj, prev.drop_first(), incoming)
    } else {
        let id = prev[0].desc.jobid;
        let rest = spec_departure_persists(depart_step(pj, id), prev.drop_first(), incoming);
        departure_contribution(pj, id, incoming) + rest
    }
}

/// Ingesting one scraped profile: its delta is fed into the summing store
/// for the distinguished id, else into the job's own store, the job being
/// resolved (scrape-side acquisition) when the previous round did not know
/// it.
pub open spec fn spec_ingest_one(
    f: FactoryView,
    p: JobProfileView,
    prev: Seq<JobProfileView>,
) -> FactoryView {
    let cs = delta_of(p, prev);
    if p.desc.jobid == "main"@ {
        FactoryView { main: feed_all(f.main, cs), ..f }
    } else {
        let pj = if profs_has(prev, p.desc.jobid) {
            f.perjob
        } else {
            spec_resolve_perjob(f.perjob, p.desc, false)
        };
        let i = jobs_find(pj, p.desc.jobid);
        FactoryView {
            perjob: pj.update(i, PerJobView { exporter: feed_all(pj[i].exporter, cs), ..pj[i] }),
            ..f
        }
    }
}

pub open spec fn can_ingest_one(
    f: FactoryView,
    p: JobProfileView,
    prev: Seq<JobProfileView>,
) -> bool {
    let cs = delta_of(p, prev);
    can_delta(p, prev) && if p.desc.jobid == "main"@ {
        can_feed_all(f.main, cs)
    } else {
        let pj = if profs_has(prev, p.desc.jobid) {
            f.perjob
        } else {
            spec_resolve_perjob(f.perjob, p.desc, false)
        };
        jobs_has(pj, p.desc.jobid) && can_feed_all(
            pj[jobs_find(pj, p.desc.jobid)].exporter,
            cs,
        )
    }
}

/// Ingesting a whole round's profiles, in reported order.
pub open spec fn spec_ingest_all(
    f: FactoryView,
    ps: Seq<JobProfileView>,
    prev: Seq<JobProfileView>,
) -> FactoryView
    decreases ps.len(),
{
    if ps.len() == 0 {
        f
    } else {
        spec_ingest_all(spec_ingest_one(f, ps[0], prev), ps.drop_first(), prev)
    }
}

pub open spec fn can_ingest_all(
    f: FactoryView,
    ps: Seq<JobProfileView>,
    prev: Seq<JobProfileView>,
) -> bool
    decreases ps.len(),
{
    if ps.len() == 0 {
        true
    } else {
        can_ingest_one(f, ps[0], prev) && can_ingest_all(
            spec_ingest_one(f, ps[0], prev),
            ps.drop_first(),
            prev,
        )
    }
}

pub proof fn lemma_ingest_all_push(
    f: FactoryView,
    ps: Seq<JobProfileView>,
    prev: Seq<JobProfileView>,
    x: JobProfileView,
)
    ensures
        spec_ingest_all(f, ps.push(x), prev) == spec_ingest_one(spec_ingest_all(f, ps, prev), x, prev),
        can_ingest_all(f, ps.push(x), prev) == (can_ingest_all(f, ps, prev) && can_ingest_one(
            spec_ingest_all(f, ps, prev),
            x,
            prev,
        )),
    decreases ps.len(),
{
    if ps.len() == 0 {
        let s1 = ps.push(x);
        assert(s1[0] == x);
        assert(s1.drop_first() =~= Seq::<JobProfileView>::empty());
        assert(spec_ingest_all(spec_ingest_one(f, x, prev), s1.drop_first(), prev)
            == spec_ingest_one(f, x, prev));
        assert(can_ingest_all(spec_ingest_one(f, x, prev), s1.drop_first(), prev));
    } else {
        let s1 = ps.push(x);
        assert(s1[0] == ps[0]);
        assert(s1.drop_first() =~= ps.drop_first().push(x));
        lemma_ingest_all_push(spec_ingest_one(f, ps[0], prev), ps.drop_first(), prev, x);
    }
}

/// The shadow state after a round: exactly the profiles the child reported,
/// raw (not the deltas), keyed by job id with the later of two duplicates
/// winning.
pub open spec fn upsert_state(ps: Seq<JobProfileView>, p: JobProfileView) -> Seq<JobProfileView> {
    if profs_has(ps, p.desc.jobid) {
        ps.update(profs_find(ps, p.desc.jobid), p)
    } else {
        ps.push(p)
    }
}

pub open spec fn spec_new_state(incoming: Seq<JobProfileView>) -> Seq<JobProfileView>
    decreases incoming.len(),
{
    if incoming.len() == 0 {
        Seq::empty()
    } else {
        upsert_state(spec_new_state(incoming.drop_last()), incoming.last())
    }
}

/// The round is skipped while the configured period has not elapsed.
pub open spec fn spec_rate_skip(v: ScraperView, now: u64) -> bool {
    now < v.last_scrape || now - v.last_scrape < v.period
}


pub proof fn lemma_departures_push(
    pj: Seq<PerJobView>,
    prev: Seq<JobProfileView>,
    inc: Seq<JobProfileView>,
    x: JobProfileView,
)
    ensures
        spec_departures(pj, prev.push(x), inc) == (if profs_has(inc, x.desc.jobid) {
            spec_departures(pj, prev, inc)
        } else {
            depart_step(spec_departures(pj, prev, inc), x.desc.jobid)
        }),
        can_departures(pj, prev.push(x), inc) == (can_departures(pj, prev, inc) && (!profs_has(
            inc,
            x.desc.jobid,
        ) ==> can_depart_step(spec_departures(pj, prev, inc), x.desc.jobid))),
        spec_departure_persists(pj, prev.push(x), inc) == spec_departure_persists(pj, prev, inc)
            + departure_contribution(spec_departures(pj, prev, inc), x.desc.jobid, inc),
    decreases prev.len(),
{
    if prev.len() == 0 {
        let s1 = prev.push(x);
        assert(s1[0] == x);
        assert(s1.drop_first() =~= Seq::<JobProfileView>::empty());
        let tailx = departure_contribution(pj, x.desc.jobid, inc);
        if profs_has(inc, x.desc.jobid) {
            assert(spec_departures(pj, s1.drop_first(), inc) == pj);
            assert(can_departures(pj, s1.drop_first(), inc));
            assert(spec_departure_persists(pj, s1.drop_first(), inc) =~= Seq::<
                JobProfileView,
            >::empty());
            assert(spec_departure_persists(pj, s1, inc) =~= Seq::<JobProfileView>::empty()
                + tailx);
        } else {
            let d = depart_step(pj, x.desc.jobid);
            assert(spec_departures(d, s1.drop_first(), inc) == d);
            assert(can_departures(d, s1.drop_first(), inc));
            assert(spec_departure_persists(d, s1.drop_first(), inc) =~= Seq::<
                JobProfileView,
            >::empty());
            assert(spec_departure_persists(pj, s1, inc) =~= tailx);
            assert(Seq::<JobProfileView>::empty() + tailx =~= tailx);
        }
    } else {
        let s1 = prev.push(x);
        assert(s1[0] == prev[0]);
        assert(s1.drop_first() =~= prev.drop_first().push(x));
        if profs_has(inc, prev[0].desc.jobid) {
            lemma_departures_push(pj, prev.drop_first(), inc, x);
        } else {
            let id0 = prev[0].desc.jobid;
            let d0 = depart_step(pj, id0);
            lemma_departures_push(d0, prev.drop_first(), inc, x);
            let head = departure_contribution(pj, id0, inc);
            let mid = spec_departure_persists(d0, prev.drop_first(), inc);
            let tailx = departure_contribution(spec_departures(d0, prev.drop_first(), inc), x.desc.jobid, inc);
            assert(spec_departure_persists(pj, prev, inc) == head + mid) by {
                if head.len() == 0 {
                    assert(head + mid =~= mid);
                }
            }
            assert(spec_departure_persists(pj, s1, inc) == head + (mid + tailx)) by {
                if head.len() == 0 {
                    assert(head + (mid + tailx) =~= mid + tailx);
                }
            }
            assert(head + (mid + tailx) =~= (head + mid) + tailx);
        }
    }
}

/// What one departing job contributes to the persisted profiles: its final
/// profile when its removing release was marked for persistence.
pub open spec fn departure_contribution(
    pj: Seq<PerJobView>,
    jobid: Seq<char>,
    inc: Seq<JobProfileView>,
) -> Seq<JobProfileView> {
    if !profs_has(inc, jobid) && jobid != "main"@ && spec_relax_persists(pj, jobid) {
        seq![crate::factory::perjob_profile(pj[jobs_find(pj, jobid)])]
    } else {
        Seq::empty()
    }
}

pub proof fn lemma_can_departures_take(
    pj: Seq<PerJobView>,
    prev: Seq<JobProfileView>,
    inc: Seq<JobProfileView>,
    j: int,
)
    requires
        0 <= j <= prev.len(),
        can_departures(pj, prev, inc),
    ensures
        can_departures(pj, prev.take(j), inc),
    decreases prev.len() - j,
{
    if j == prev.len() {
        assert(prev.take(j) =~= prev);
    } else {
        lemma_can_departures_take(pj, prev, inc, j + 1);
        assert(prev.take(j + 1) =~= prev.take(j).push(prev[j]));
        lemma_departures_push(pj, prev.take(j), inc, prev[j]);
    }
}

pub proof fn lemma_can_feed_take(gs: Seq<GroupView>, cs: Seq<SnapshotView>, j: int)
    requires
        0 <= j <= cs.len(),
        can_feed_all(gs, cs),
    ensures
        can_feed_all(gs, cs.take(j)),
    decreases cs.len() - j,
{
    if j == cs.len() {
        assert(cs.take(j) =~= cs);
    } else {
        lemma_can_feed_take(gs, cs, j + 1);
        assert(cs.take(j + 1) =~= cs.take(j).push(cs[j]));
        lemma_feed_all_push(gs, cs.take(j), cs[j]);
    }
}

pub proof fn lemma_can_ingest_take(
    f: FactoryView,
    ps: Seq<JobProfileView>,
    prev: Seq<JobProfileView>,
    j: int,
)
    requires
        0 <= j <= ps.len(),
        can_ingest_all(f, ps, prev),
    ensures
        can_ingest_all(f, ps.take(j), prev),
    decreases ps.len() - j,
{
    if j == ps.len() {
        assert(ps.take(j) =~= ps);
    } else {
        lemma_can_ingest_take(f, ps, prev, j + 1);
        assert(ps.take(j + 1) =~= ps.take(j).push(ps[j]));
        lemma_ingest_all_push(f, ps.take(j), prev, ps[j]);
    }
}


/// Updating one table entry without changing its job id leaves lookups of
/// that id where they were.
proof fn lemma_jobs_find_update(pj: Seq<PerJobView>, i: int, e: PerJobView)
    requires
        0 <= i < pj.len(),
        e.desc.jobid == pj[i].desc.jobid,
        jobs_find(pj, pj[i].desc.jobid) == i,
    ensures
        jobs_find(pj.update(i, e), pj[i].desc.jobid) == i,
{
    let id = pj[i].desc.jobid;
    let t = pj.update(i, e);
    lemma_find_index(pj, |x: PerJobView| x.desc.jobid == id);
    lemma_find_index(t, |x: PerJobView| x.desc.jobid == id);
    let fi = jobs_find(t, id);
    assert(t[i] == e);
    if fi < i {
        assert(t[fi] == pj[fi]);
    }
    if fi > i {
        assert(t[i].desc.jobid != id);
    }
}

impl ProxyScraper {
    /// One scrape round against this target, fed with the job list the child
    /// reported and the current time.  While the configured period has not
    /// elapsed the round is skipped whole.  Otherwise: every job of the
    /// previous round the child no longer reports is released on the
    /// registry (the profiles those releases persist come back for the
    /// caller to write out); every reported job is resolved when newly seen,
    /// its delta against the previous round is computed, and the delta's
    /// counters are registered and accumulated in that job's store — in the
    /// summing store for the distinguished id; finally the raw report
    /// replaces the shadow state.  A failing step aborts the round: the
    /// scraper itself is then unchanged and the caller drops it.
    #[verifier::loop_isolation(false)]
    #[verifier::rlimit(100)]
    pub fn scrape(
        &mut self,
        factory: &mut ExporterFactory,
        profiles: &Vec<JobProfile>,
        now: u64,
    ) -> (r: Result<Vec<JobProfile>, ProxyErr>)
        requires
            factory_wf(old(factory)@),
        ensures
            factory_wf(final(factory)@),
            spec_rate_skip(old(self)@, now) ==> r is Ok && r->Ok_0@.len() == 0 && final(self)@
                == old(self)@ && final(factory)@ == old(factory)@,
            !spec_rate_skip(old(self)@, now) ==> ({
                let prev = old(self)@.state;
                let inc = profiles@.map_values(|p: JobProfile| p@);
                let f1 = FactoryView {
                    perjob: spec_departures(old(factory)@.perjob, prev, inc),
                    ..old(factory)@
                };
                &&& (r is Ok <==> (can_departures(old(factory)@.perjob, prev, inc)
                    && can_ingest_all(f1, inc, prev)))
                &&& (r is Ok ==> final(factory)@ == spec_ingest_all(f1, inc, prev))
                &&& (r is Ok ==> final(self)@ == (ScraperView {
                    state: spec_new_state(inc),
                    last_scrape: now,
                    ..old(self)@
                }))
                &&& (r matches Ok(ps) ==> ps@.map_values(|p: JobProfile| p@)
                    == spec_departure_persists(old(factory)@.perjob, prev, inc))
                &&& (r is Err ==> final(self)@ == old(self)@)
            }),
    {
        if now < self.last_scrape || now - self.last_scrape < self.period {
            return Ok(Vec::new());
        }
        let ghost prev = self@.state;
        let ghost inc = profiles@.map_values(|p: JobProfile| p@);
        let ghost f0 = factory@;
        let ghost pj0 = factory@.perjob;

        // Departures: release every job of the previous round that the child
        // no longer reports.
        let mut persists: Vec<JobProfile> = Vec::new();
        proof {
            assert(prev.take(0) =~= Seq::<JobProfileView>::empty());
            assert(spec_departures(pj0, prev.take(0), inc) == pj0);
            assert(can_departures(pj0, prev.take(0), inc));
            assert(spec_departure_persists(pj0, prev.take(0), inc) =~= Seq::<
                JobProfileView,
            >::empty());
            assert(persists@.map_values(|p: JobProfile| p@) =~= Seq::<JobProfileView>::empty());
        }
        let mut i: usize = 0;
        while i < self.state.len()
            invariant
                i <= prev.len(),
                self@ == old(self)@,
                factory@ == (FactoryView {
                    perjob: spec_departures(pj0, prev.take(i as int), inc),
                    ..f0
                }),
                can_departures(pj0, prev.take(i as int), inc),
                persists@.map_values(|p: JobProfile| p@) == spec_departure_persists(
                    pj0,
                    prev.take(i as int),
                    inc,
                ),
                factory_wf(factory@),
            decreases prev.len() - i,
        {
            let ghost dcur = spec_departures(pj0, prev.take(i as int), inc);
            let ghost id = prev[i as int].desc.jobid;
            proof {
                assert(prev.take(i + 1) =~= prev.take(i as int).push(prev[i as int]));
                lemma_departures_push(pj0, prev.take(i as int), inc, prev[i as int]);
                assert(self.state@[i as int]@ == prev[i as int]);
                lemma_find_index(inc, |p: JobProfileView| p.desc.jobid == id);
                lemma_find_index_contains(inc, |p: JobProfileView| p.desc.jobid == id);
            }
            let pi = find_profile(profiles, &self.state[i].desc.jobid);
            if pi == profiles.len() {
                proof {
                    assert(!profs_has(inc, id));
                }
                let ghost pb = persists@;
                match factory.relax_job(&self.state[i].desc) {
                    Ok(Some(p)) => {
                        persists.push(p);
                        proof {
                            let f = |x: JobProfile| x@;
                            let target = spec_departure_persists(pj0, prev.take(i + 1), inc);
                            assert forall|j: int| 0 <= j < persists@.len() implies persists@.map_values(
                                f,
                            )[j] == target[j] by {
                                if j < pb.len() {
                                    assert(persists@[j] == pb[j]);
                                }
                            }
                            assert(persists@.map_values(f) =~= target);
                        }
                    },
                    Ok(None) => {
                        proof {
                            assert(departure_contribution(dcur, id, inc) =~= Seq::<
                                JobProfileView,
                            >::empty());
                            assert(persists@.map_values(|x: JobProfile| x@)
                                =~= spec_departure_persists(pj0, prev.take(i + 1), inc));
                        }
                    },
                    Err(e) => {
                        proof {
                            assert(!can_depart_step(dcur, id));
                            if can_departures(pj0, prev, inc) {
                                lemma_can_departures_take(pj0, prev, inc, i + 1);
                            }
                        }
                        return Err(e);
                    },
                }
            } else {
                proof {
                    assert(inc[pi as int].desc.jobid == id);
                    assert(profs_has(inc, id));
                }
            }
            i += 1;
        }
        proof {
            assert(prev.take(prev.len() as int) =~= prev);
        }
        let ghost f1 = factory@;

        // Ingest: resolve newly seen jobs and feed each delta into its store.
        let mut k: usize = 0;
        while k < profiles.len()
            invariant
                k <= inc.len(),
                self@ == old(self)@,
                factory@ == spec_ingest_all(f1, inc.take(k as int), prev),
                can_ingest_all(f1, inc.take(k as int), prev),
                factory_wf(factory@),
            decreases inc.len() - k,
        {
            let ghost fcur = factory@;
            let ghost p_v = inc[k as int];
            let ghost cs = delta_of(p_v, prev);
            proof {
                assert(inc.take(k + 1) =~= inc.take(k as int).push(inc[k as int]));
                lemma_ingest_all_push(f1, inc.take(k as int), prev, inc[k as int]);
                assert(profiles@[k as int]@ == p_v);
                lemma_find_index(prev, |p: JobProfileView| p.desc.jobid == p_v.desc.jobid);
                lemma_find_index_contains(prev, |p: JobProfileView| p.desc.jobid == p_v.desc.jobid);
            }
            let pi = find_profile(&self.state, &profiles[k].desc.jobid);
            let mut dp = profiles[k].clone();
            if pi < self.state.len() {
                proof {
                    assert(self.state@[pi as int]@ == prev[pi as int]);
                    assert(profs_has(prev, p_v.desc.jobid));
                }
                match dp.subtract(&self.state[pi]) {
                    Ok(()) => {
                        proof {
                            assert(dp@.counters == cs);
                        }
                    },
                    Err(e) => {
                        proof {
                            assert(!can_delta(p_v, prev));
                            assert(!can_ingest_one(fcur, p_v, prev));
                            if can_ingest_all(f1, inc, prev) {
                                lemma_can_ingest_take(f1, inc, prev, k + 1);
                            }
                        }
                        return Err(e);
                    },
                }
            } else {
                proof {
                    assert(!profs_has(prev, p_v.desc.jobid));
                    assert(dp@.counters == cs);
                }
                factory.resolve_job(&profiles[k].desc, false);
            }
            let main_id = String::from_str("main");
            if profiles[k].desc.jobid == main_id {
                // The child's summing job feeds the parent's summing store.
                let ghost gs0 = fcur.main;
                proof {
                    assert(cs.take(0) =~= Seq::<SnapshotView>::empty());
                    assert(feed_all(gs0, cs.take(0)) == gs0);
                    assert(can_feed_all(gs0, cs.take(0)));
                }
                let mut j: usize = 0;
                while j < dp.counters.len()
                    invariant
                        j <= cs.len(),
                        dp@.counters == cs,
                        self@ == old(self)@,
                        factory@ == (FactoryView { main: feed_all(gs0, cs.take(j as int)), ..fcur }),
                        can_feed_all(gs0, cs.take(j as int)),
                        factory_wf(factory@),
                    decreases cs.len() - j,
                {
                    let ghost gcur = feed_all(gs0, cs.take(j as int));
                    proof {
                        assert(cs.take(j + 1) =~= cs.take(j as int).push(cs[j as int]));
                        lemma_feed_all_push(gs0, cs.take(j as int), cs[j as int]);
                        assert(dp.counters@[j as int]@ == cs[j as int]);
                    }
                    match factory.main.push(&dp.counters[j]) {
                        Ok(()) => {},
                        Err(e) => {
                            proof {
                                assert(!can_feed_one(gcur, cs[j as int]));
                                if can_ingest_all(f1, inc, prev) {
                                    lemma_can_ingest_take(f1, inc, prev, k + 1);
                                    lemma_can_feed_take(gs0, cs, j + 1);
                                }
                            }
                            return Err(e);
                        },
                    }
                    proof {
                        assert(factory@.main == spec_exporter_push(gcur, cs[j as int]));
                    }
                    match factory.main.accumulate(&dp.counters[j]) {
                        Ok(()) => {},
                        Err(e) => {
                            proof {
                                assert(!can_feed_one(gcur, cs[j as int]));
                                if can_ingest_all(f1, inc, prev) {
                                    lemma_can_ingest_take(f1, inc, prev, k + 1);
                                    lemma_can_feed_take(gs0, cs, j + 1);
                                }
                            }
                            return Err(e);
                        },
                    }
                    proof {
                        assert(factory@.main == feed_one(gcur, cs[j as int]));
                    }
                    j += 1;
                }
                proof {
                    assert(cs.take(cs.len() as int) =~= cs);
                    assert(factory@ == spec_ingest_one(fcur, p_v, prev));
                    assert(can_ingest_one(fcur, p_v, prev));
                }
            } else {
                let ghost pj_after = if profs_has(prev, p_v.desc.jobid) {
                    fcur.perjob
                } else {
                    spec_resolve_perjob(fcur.perjob, p_v.desc, false)
                };
                proof {
                    assert(factory@.perjob == pj_after);
                }
                let known = match factory.resolve_by_id(&profiles[k].desc.jobid) {
                    Some(_) => true,
                    None => false,
                };
                if !known {
                    proof {
                        assert(!can_ingest_one(fcur, p_v, prev));
                        if can_ingest_all(f1, inc, prev) {
                            lemma_can_ingest_take(f1, inc, prev, k + 1);
                        }
                    }
                    return Err(ProxyErr::new("No such JobID"));
                }
                let ghost ii = jobs_find(pj_after, p_v.desc.jobid);
                let ghost e0 = pj_after[ii];
                let ghost gs0 = e0.exporter;
                proof {
                    assert(jobs_has(pj_after, p_v.desc.jobid));
                    lemma_find_index(pj_after, |x: PerJobView| x.desc.jobid == p_v.desc.jobid);
                    lemma_find_index_contains(pj_after, |x: PerJobView| x.desc.jobid == p_v.desc.jobid);
                    assert(cs.take(0) =~= Seq::<SnapshotView>::empty());
                    assert(feed_all(gs0, cs.take(0)) == gs0);
                    assert(can_feed_all(gs0, cs.take(0)));
                    assert(pj_after.update(ii, PerJobView { exporter: feed_all(gs0, cs.take(0)), ..e0 })
                        =~= pj_after);
                }
                let jobid = profiles[k].desc.jobid.clone();
                let mut j: usize = 0;
                while j < dp.counters.len()
                    invariant
                        j <= cs.len(),
                        dp@.counters == cs,
                        jobid@ == p_v.desc.jobid,
                        self@ == old(self)@,
                        factory@ == (FactoryView {
                            perjob: pj_after.update(
                                ii,
                                PerJobView { exporter: feed_all(gs0, cs.take(j as int)), ..e0 },
                            ),
                            ..fcur
                        }),
                        can_feed_all(gs0, cs.take(j as int)),
                        factory_wf(factory@),
                    decreases cs.len() - j,
                {
                    let ghost gcur = feed_all(gs0, cs.take(j as int));
                    let ghost ecur = PerJobView { exporter: gcur, ..e0 };
                    proof {
                        assert(cs.take(j + 1) =~= cs.take(j as int).push(cs[j as int]));
                        lemma_feed_all_push(gs0, cs.take(j as int), cs[j as int]);
                        assert(dp.counters@[j as int]@ == cs[j as int]);
                        lemma_jobs_find_update(pj_after, ii, ecur);
                        assert(factory@.perjob[ii] == ecur);
                        assert(jobs_find(factory@.perjob, p_v.desc.jobid) == ii);
                        assert(jobs_has(factory@.perjob, p_v.desc.jobid)) by {
                            lemma_find_index_contains(
                                factory@.perjob,
                                |x: PerJobView| x.desc.jobid == p_v.desc.jobid,
                            );
                        }
                    }
                    let ghost before_push = factory@.perjob;
                    match factory.job_push(&jobid, &dp.counters[j]) {
                        Ok(()) => {},
                        Err(e) => {
                            proof {
                                assert(!ExporterFactory::can_register(gcur, cs[j as int]));
                                assert(!can_feed_one(gcur, cs[j as int]));
                                if can_ingest_all(f1, inc, prev) {
                                    lemma_can_ingest_take(f1, inc, prev, k + 1);
                                    lemma_can_feed_take(gs0, cs, j + 1);
                                }
                            }
                            return Err(e);
                        },
                    }
                    proof {
                        let epush = PerJobView {
                            exporter: spec_exporter_push(gcur, cs[j as int]),
                            ..e0
                        };
                        assert(factory@.perjob =~= pj_after.update(ii, epush));
                        lemma_jobs_find_update(pj_after, ii, epush);
                        assert(factory@.perjob[ii] == epush);
                        assert(jobs_find(factory@.perjob, p_v.desc.jobid) == ii);
                        assert(jobs_has(factory@.perjob, p_v.desc.jobid)) by {
                            lemma_find_index_contains(
                                factory@.perjob,
                                |x: PerJobView| x.desc.jobid == p_v.desc.jobid,
                            );
                        }
                    }
                    match factory.job_accumulate(&jobid, &dp.counters[j]) {
                        Ok(()) => {},
                        Err(e) => {
                            proof {
                                assert(!can_feed_one(gcur, cs[j as int]));
                                if can_ingest_all(f1, inc, prev) {
                                    lemma_can_ingest_take(f1, inc, prev, k + 1);
                                    lemma_can_feed_take(gs0, cs, j + 1);
                                }
                            }
                            return Err(e);
                        },
                    }
                    proof {
                        assert(factory@.perjob =~= pj_after.update(
                            ii,
                            PerJobView { exporter: feed_all(gs0, cs.take(j + 1)), ..e0 },
                        ));
                    }
                    j += 1;
                }
                proof {
                    assert(cs.take(cs.len() as int) =~= cs);
                    assert(factory@ == spec_ingest_one(fcur, p_v, prev));
                    assert(can_ingest_one(fcur, p_v, prev));
                }
            }
            k += 1;
        }
        proof {
            assert(inc.take(inc.len() as int) =~= inc);
        }

        // The raw report becomes the shadow state for the next round.
        let mut ns: Vec<JobProfile> = Vec::new();
        proof {
            assert(inc.take(0) =~= Seq::<JobProfileView>::empty());
            assert(ns@.map_values(|p: JobProfile| p@) =~= spec_new_state(inc.take(0)));
        }
        let mut k2: usize = 0;
        while k2 < profiles.len()
            invariant
                k2 <= inc.len(),
                self@ == old(self)@,
                ns@.map_values(|p: JobProfile| p@) == spec_new_state(inc.take(k2 as int)),
            decreases inc.len() - k2,
        {
            let ghost scur = spec_new_state(inc.take(k2 as int));
            proof {
                assert(inc.take(k2 + 1).drop_last() =~= inc.take(k2 as int));
                assert(inc.take(k2 + 1).last() == inc[k2 as int]);
                assert(profiles@[k2 as int]@ == inc[k2 as int]);
                lemma_find_index(scur, |p: JobProfileView| p.desc.jobid == inc[k2 as int].desc.jobid);
                lemma_find_index_contains(
                    scur,
                    |p: JobProfileView| p.desc.jobid == inc[k2 as int].desc.jobid,
                );
            }
            let q = profiles[k2].clone();
            let ghost nb = ns@;
            let qi = find_profile(&ns, &q.desc.jobid);
            if qi < ns.len() {
                ns.set(qi, q);
                proof {
                    let f = |x: JobProfile| x@;
                    assert forall|j: int| 0 <= j < ns@.len() implies ns@.map_values(f)[j]
                        == upsert_state(scur, inc[k2 as int])[j] by {
                        if j != qi {
                            assert(ns@[j] == nb[j]);
                        }
                    }
                    assert(ns@.map_values(f) =~= upsert_state(scur, inc[k2 as int]));
                }
            } else {
                ns.push(q);
                proof {
                    let f = |x: JobProfile| x@;
                    assert forall|j: int| 0 <= j < ns@.len() implies ns@.map_values(f)[j]
                        == upsert_state(scur, inc[k2 as int])[j] by {
                        if j < nb.len() {
                            assert(ns@[j] == nb[j]);
                        }
                    }
                    assert(ns@.map_values(f) =~= upsert_state(scur, inc[k2 as int]));
                }
            }
            k2 += 1;
        }
        proof {
            assert(inc.take(inc.len() as int) =~= inc);
        }
        self.state = ns;
        self.last_scrape = now;
        Ok(persists)
    }
}

} // verus!
