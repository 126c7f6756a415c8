use vstd::prelude::*;

verus! {

use crate::counters::{compatible, spec_merge, spec_subtract, CounterSnapshot, SnapshotView};
use crate::errors::ProxyErr;
use crate::seqx::{contains_where, find_index, lemma_find_index};

/// Abstract value of a [`JobDesc`].
pub struct JobDescView {
    pub jobid: Seq<char>,
    pub command: Seq<char>,
    pub size: u64,
    pub nodelist: Seq<char>,
    pub partition: Seq<char>,
    pub cluster: Seq<char>,
    pub run_dir: Seq<char>,
    pub start_time: u64,
    pub end_time: u64,
}

/// Immutable identity and metadata of one job.  Created when the job is
/// first observed; only `end_time` is ever backfilled, when a description is
/// reconstructed from a trace.
pub struct JobDesc {
    pub jobid: String,
    pub command: String,
    pub size: u64,
    pub nodelist: String,
    pub partition: String,
    pub cluster: String,
    pub run_dir: String,
    pub start_time: u64,
    pub end_time: u64,
}

impl View for JobDesc {
    type V = JobDescView;

    open spec fn view(&self) -> JobDescView {
        JobDescView {
            jobid: self.jobid@,
            command: self.command@,
            size: self.size,
            nodelist: self.nodelist@,
            partition: self.partition@,
            cluster: self.cluster@,
            run_dir: self.run_dir@,
            start_time: self.start_time,
            end_time: self.end_time,
        }
    }
}

impl Clone for JobDesc {
    fn clone(&self) -> (r: Self)
        ensures
            r@ == self@,
    {
        JobDesc {
            jobid: self.jobid.clone(),
            command: self.command.clone(),
            size: self.size,
            nodelist: self.nodelist.clone(),
            partition: self.partition.clone(),
            cluster: self.cluster.clone(),
            run_dir: self.run_dir.clone(),
            start_time: self.start_time,
            end_time: self.end_time,
        }
    }
}

/// The description of the distinguished job that sums all jobs on this
/// proxy.
pub open spec fn spec_main_desc() -> JobDescView {
    JobDescView {
        jobid: "main"@,
        command: "Sum of all Jobs"@,
        size: 0u64,
        nodelist: ""@,
        partition: ""@,
        cluster: ""@,
        run_dir: ""@,
        start_time: 0u64,
        end_time: 0u64,
    }
}

impl JobDesc {
    /// The description of the distinguished job that sums all jobs on this
    /// proxy.
    pub fn main_desc() -> (r: JobDesc)
        ensures
            r@ == spec_main_desc(),
            r@ == (JobDescView {
                jobid: "main"@,
                command: "Sum of all Jobs"@,
                size: 0u64,
                nodelist: ""@,
                partition: ""@,
                cluster: ""@,
                run_dir: ""@,
                start_time: 0u64,
                end_time: 0u64,
            }),
    {
        JobDesc {
            jobid: "main".to_owned(),
            command: "Sum of all Jobs".to_owned(),
            size: 0,
            nodelist: "".to_owned(),
            partition: "".to_owned(),
            cluster: "".to_owned(),
            run_dir: "".to_owned(),
            start_time: 0,
            end_time: 0,
        }
    }
}

/// First index in `s` of a snapshot named `name`, or `s.len()` when absent.
pub open spec fn snaps_find(s: Seq<SnapshotView>, name: Seq<char>) -> int {
    find_index(s, |c: SnapshotView| c.name == name)
}

/// Some snapshot in `s` is named `name`.
pub open spec fn snaps_has(s: Seq<SnapshotView>, name: Seq<char>) -> bool {
    contains_where(s, |c: SnapshotView| c.name == name)
}

/// No two snapshots in `s` share a name.
pub open spec fn snaps_unique(s: Seq<SnapshotView>) -> bool {
    forall|i: int, j: int| 0 <= i < j < s.len() ==> s[i].name != s[j].name
}

/// Accumulate one incoming snapshot into a counter list: merge into the
/// first entry of the same name, or append when the name is new.
pub open spec fn merge_one(a: Seq<SnapshotView>, c: SnapshotView) -> Seq<SnapshotView> {
    let i = snaps_find(a, c.name);
    if i < a.len() {
        a.update(i, SnapshotView { ctype: spec_merge(a[i].ctype, c.ctype), ..a[i] })
    } else {
        a.push(c)
    }
}

/// The one way `merge_one` can fail: the name is present with an
/// incompatible shape.
pub open spec fn can_merge_one(a: Seq<SnapshotView>, c: SnapshotView) -> bool {
    snaps_find(a, c.name) < a.len() ==> compatible(a[snaps_find(a, c.name)].ctype, c.ctype)
}

/// Element-wise accumulation of `b` into `a`, in `b`'s order.
pub open spec fn spec_merge_counters(a: Seq<SnapshotView>, b: Seq<SnapshotView>) -> Seq<
    SnapshotView,
>
    decreases b.len(),
{
    if b.len() == 0 {
        a
    } else {
        spec_merge_counters(merge_one(a, b[0]), b.drop_first())
    }
}

/// Whether every step of `spec_merge_counters(a, b)` meets a compatible
/// shape.
pub open spec fn can_merge_counters(a: Seq<SnapshotView>, b: Seq<SnapshotView>) -> bool
    decreases b.len(),
{
    if b.len() == 0 {
        true
    } else {
        can_merge_one(a, b[0]) && can_merge_counters(merge_one(a, b[0]), b.drop_first())
    }
}

pub proof fn lemma_merge_counters_push(a: Seq<SnapshotView>, b: Seq<SnapshotView>, x: SnapshotView)
    ensures
        spec_merge_counters(a, b.push(x)) == merge_one(spec_merge_counters(a, b), x),
        can_merge_counters(a, b.push(x)) == (can_merge_counters(a, b) && can_merge_one(
            spec_merge_counters(a, b),
            x,
        )),
    decreases b.len(),
{
    if b.len() == 0 {
        let s1 = b.push(x);
        assert(s1[0] == x);
        assert(s1.drop_first() =~= Seq::<SnapshotView>::empty());
        assert(spec_merge_counters(a, s1) == spec_merge_counters(merge_one(a, x), s1.drop_first()));
        assert(spec_merge_counters(merge_one(a, x), s1.drop_first()) == merge_one(a, x));
        assert(spec_merge_counters(a, b) == a);
        assert(can_merge_counters(merge_one(a, x), s1.drop_first()));
        assert(can_merge_counters(a, b));
    } else {
        let s1 = b.push(x);
        assert(s1[0] == b[0]);
        assert(s1.drop_first() =~= b.drop_first().push(x));
        lemma_merge_counters_push(merge_one(a, b[0]), b.drop_first(), x);
        assert(spec_merge_counters(a, s1) == spec_merge_counters(
            merge_one(a, b[0]),
            b.drop_first().push(x),
        ));
        assert(spec_merge_counters(a, b) == spec_merge_counters(merge_one(a, b[0]), b.drop_first()));
        assert(can_merge_counters(a, s1) == (can_merge_one(a, b[0]) && can_merge_counters(
            merge_one(a, b[0]),
            b.drop_first().push(x),
        )));
        assert(can_merge_counters(a, b) == (can_merge_one(a, b[0]) && can_merge_counters(
            merge_one(a, b[0]),
            b.drop_first(),
        )));
    }
}

pub proof fn lemma_can_merge_take(a: Seq<SnapshotView>, b: Seq<SnapshotView>, j: int)
    requires
        0 <= j <= b.len(),
        can_merge_counters(a, b),
    ensures
        can_merge_counters(a, b.take(j)),
    decreases b.len() - j,
{
    if j == b.len() {
        assert(b.take(j) =~= b);
    } else {
        lemma_can_merge_take(a, b, j + 1);
        assert(b.take(j + 1) =~= b.take(j).push(b[j]));
        lemma_merge_counters_push(a, b.take(j), b[j]);
    }
}

/// Delta of one snapshot against a previous counter list: subtract the first
/// entry of the same name, or keep the snapshot whole when the name is new.
pub open spec fn subtract_one(c: SnapshotView, prev: Seq<SnapshotView>) -> SnapshotView {
    let i = snaps_find(prev, c.name);
    if i < prev.len() {
        SnapshotView { ctype: spec_subtract(c.ctype, prev[i].ctype), ..c }
    } else {
        c
    }
}

pub open spec fn can_subtract_one(c: SnapshotView, prev: Seq<SnapshotView>) -> bool {
    snaps_find(prev, c.name) < prev.len() ==> compatible(
        c.ctype,
        prev[snaps_find(prev, c.name)].ctype,
    )
}

/// Element-wise delta of `a` against `prev`.
pub open spec fn spec_subtract_counters(a: Seq<SnapshotView>, prev: Seq<SnapshotView>) -> Seq<
    SnapshotView,
> {
    Seq::new(a.len(), |i: int| subtract_one(a[i], prev))
}

pub open spec fn can_subtract_counters(a: Seq<SnapshotView>, prev: Seq<SnapshotView>) -> bool {
    forall|i: int| 0 <= i < a.len() ==> can_subtract_one(#[trigger] a[i], prev)
}

/// Abstract value of a [`JobProfile`].
pub struct JobProfileView {
    pub desc: JobDescView,
    pub counters: Seq<SnapshotView>,
}

/// The externally visible full state of one job: its description and the
/// current value of every one of its counters.
pub struct JobProfile {
    pub desc: JobDesc,
    pub counters: Vec<CounterSnapshot>,
}

impl View for JobProfile {
    type V = JobProfileView;

    open spec fn view(&self) -> JobProfileView {
        JobProfileView {
            desc: self.desc@,
            counters: self.counters@.map_values(|c: CounterSnapshot| c@),
        }
    }
}

impl Clone for JobProfile {
    fn clone(&self) -> (r: Self)
        ensures
            r@ == self@,
    {
        let r = JobProfile { desc: self.desc.clone(), counters: clone_snapshots(&self.counters) };
        proof {
            assert(r@.counters =~= self@.counters);
        }
        r
    }
}

/// Copy a snapshot list, value for value.
pub fn clone_snapshots(v: &Vec<CounterSnapshot>) -> (r: Vec<CounterSnapshot>)
    ensures
        r@.map_values(|c: CounterSnapshot| c@) == v@.map_values(|c: CounterSnapshot| c@),
        r@.len() == v@.len(),
{
    let mut r: Vec<CounterSnapshot> = Vec::new();
    let mut i: usize = 0;
    while i < v.len()
        invariant
            i <= v@.len(),
            r@.len() == i,
            forall|j: int| 0 <= j < i ==> r@[j]@ == v@[j]@,
        decreases v@.len() - i,
    {
        r.push(v[i].clone());
        i += 1;
    }
    proof {
        assert(r@.map_values(|c: CounterSnapshot| c@) =~= v@.map_values(|c: CounterSnapshot| c@));
    }
    r
}

/// First index in `v` of a snapshot named `name`, or `v.len()` when absent.
#[verifier::loop_isolation(false)]
pub fn find_snapshot(v: &Vec<CounterSnapshot>, name: &String) -> (r: usize)
    ensures
        r as int == snaps_find(v@.map_values(|c: CounterSnapshot| c@), name@),
        r <= v@.len(),
{
    let ghost s = v@.map_values(|c: CounterSnapshot| c@);
    proof {
        lemma_find_index(s, |c: SnapshotView| c.name == name@);
    }
    let mut i: usize = 0;
    while i < v.len()
        invariant
            i <= v@.len(),
            forall|j: int| 0 <= j < i ==> s[j].name != name@,
        decreases v@.len() - i,
    {
        if v[i].name == *name {
            assert(s[i as int].name == name@);
            return i;
        }
        i += 1;
    }
    v.len()
}

impl JobProfile {
    /// A fresh profile with no counters yet.
    pub fn new(desc: JobDesc) -> (r: JobProfile)
        ensures
            r@.desc == desc@,
            r@.counters =~= Seq::<SnapshotView>::empty(),
    {
        JobProfile { desc, counters: Vec::new() }
    }

    /// Accumulate every counter of `other` into this profile by name,
    /// appending names not seen before.  Fails exactly when some step meets
    /// an incompatible shape, and then changes nothing.
    #[verifier::loop_isolation(false)]
    pub fn merge(&mut self, other: &JobProfile) -> (r: Result<(), ProxyErr>)
        ensures
            r is Ok <==> can_merge_counters(old(self)@.counters, other@.counters),
            r is Ok ==> final(self)@ == (JobProfileView {
                counters: spec_merge_counters(old(self)@.counters, other@.counters),
                ..old(self)@
            }),
            r is Err ==> final(self)@ == old(self)@,
    {
        let ghost a = self@.counters;
        let ghost b = other@.counters;
        let mut tmp = clone_snapshots(&self.counters);
        let mut k: usize = 0;
        while k < other.counters.len()
            invariant
                k <= b.len(),
                other.counters@.len() == b.len(),
                tmp@.map_values(|c: CounterSnapshot| c@) == spec_merge_counters(a, b.take(k as int)),
                can_merge_counters(a, b.take(k as int)),
            decreases b.len() - k,
        {
            let ghost folded = spec_merge_counters(a, b.take(k as int));
            proof {
                assert(b.take(k + 1) =~= b.take(k as int).push(b[k as int]));
                lemma_merge_counters_push(a, b.take(k as int), b[k as int]);
                assert(other.counters@[k as int]@ == b[k as int]);
            }
            let c = &other.counters[k];
            let i = find_snapshot(&tmp, &c.name);
            if i < tmp.len() {
                let ghost before = tmp@;
                let mut cell = tmp[i].clone();
                match cell.merge(c) {
                    Ok(()) => {},
                    Err(e) => {
                        proof {
                            assert(!can_merge_one(folded, b[k as int]));
                            if can_merge_counters(a, b) {
                                lemma_can_merge_take(a, b, k + 1);
                            }
                        }
                        return Err(e);
                    },
                }
                tmp.set(i, cell);
                proof {
                    let f = |c: CounterSnapshot| c@;
                    assert forall|j: int| 0 <= j < tmp@.len() implies tmp@.map_values(f)[j]
                        == merge_one(folded, b[k as int])[j] by {
                        if j != i {
                            assert(tmp@[j] == before[j]);
                        }
                    }
                    assert(tmp@.map_values(f) =~= merge_one(folded, b[k as int]));
                }
            } else {
                let ghost before = tmp@;
                tmp.push(c.clone());
                proof {
                    let f = |c: CounterSnapshot| c@;
                    assert forall|j: int| 0 <= j < tmp@.len() implies tmp@.map_values(f)[j]
                        == merge_one(folded, b[k as int])[j] by {
                        if j < before.len() {
                            assert(tmp@[j] == before[j]);
                        }
                    }
                    assert(tmp@.map_values(f) =~= merge_one(folded, b[k as int]));
                }
            }
            k += 1;
        }
        proof {
            assert(b.take(b.len() as int) =~= b);
        }
        self.counters = tmp;
        proof {
            assert(self@ == (JobProfileView {
                counters: spec_merge_counters(a, b),
                ..old(self)@
            }));
        }
        Ok(())
    }

    /// Replace every counter by its delta against `prev`, the subtraction
    /// step of the scraper.  Counters absent from `prev` stay whole.  Fails
    /// exactly when some name is present in `prev` with an incompatible
    /// shape, and then changes nothing.
    #[verifier::loop_isolation(false)]
    pub fn subtract(&mut self, prev: &JobProfile) -> (r: Result<(), ProxyErr>)
        ensures
            r is Ok <==> can_subtract_counters(old(self)@.counters, prev@.counters),
            r is Ok ==> final(self)@ == (JobProfileView {
                counters: spec_subtract_counters(old(self)@.counters, prev@.counters),
                ..old(self)@
            }),
            r is Err ==> final(self)@ == old(self)@,
    {
        let ghost a = self@.counters;
        let ghost b = prev@.counters;
        let mut tmp: Vec<CounterSnapshot> = Vec::new();
        let mut k: usize = 0;
        while k < self.counters.len()
            invariant
                k <= a.len(),
                self.counters@.len() == a.len(),
                self@.counters == a,
                tmp@.map_values(|c: CounterSnapshot| c@) =~= spec_subtract_counters(
                    a.take(k as int),
                    b,
                ),
                forall|i: int| 0 <= i < k ==> can_subtract_one(#[trigger] a[i], b),
            decreases a.len() - k,
        {
            proof {
                assert(self.counters@[k as int]@ == a[k as int]);
            }
            let mut cell = self.counters[k].clone();
            let i = find_snapshot(&prev.counters, &cell.name);
            if i < prev.counters.len() {
                proof {
                    assert(prev.counters@[i as int]@ == b[i as int]);
                }
                match cell.subtract(&prev.counters[i]) {
                    Ok(()) => {},
                    Err(e) => {
                        assert(!can_subtract_one(a[k as int], b));
                        return Err(e);
                    },
                }
            }
            let ghost before = tmp@;
            proof {
                assert(cell@ == subtract_one(a[k as int], b));
            }
            tmp.push(cell);
            proof {
                let f = |c: CounterSnapshot| c@;
                assert forall|j: int| 0 <= j < tmp@.len() implies tmp@.map_values(f)[j]
                    == spec_subtract_counters(a.take(k + 1), b)[j] by {
                    if j < before.len() {
                        assert(tmp@[j] == before[j]);
                        assert(before.map_values(f)[j] == spec_subtract_counters(
                            a.take(k as int),
                            b,
                        )[j]);
                    }
                }
                assert(tmp@.map_values(f) =~= spec_subtract_counters(a.take(k + 1), b));
            }
            k += 1;
        }
        proof {
            assert(a.take(a.len() as int) =~= a);
        }
        self.counters = tmp;
        proof {
            assert(self@ == (JobProfileView {
                counters: spec_subtract_counters(a, b),
                ..old(self)@
            }));
        }
        Ok(())
    }
}

} // verus!
