use vstd::prelude::*;

verus! {

use crate::counters::{
    compatible, spec_basename, spec_merge, spec_snapshot_line, valid_metric_name, CounterSnapshot,
    SnapshotView,
};
use crate::errors::ProxyErr;
use crate::jobs::{snaps_has, snaps_find, snaps_unique, JobDesc, JobProfile, JobProfileView};
use crate::seqx::{contains_where, find_index, lemma_find_index, lemma_find_index_contains};

/// One independently updatable metric cell: the latest snapshot of one fully
/// qualified metric name.
pub struct ExporterEntry {
    pub value: CounterSnapshot,
}

impl View for ExporterEntry {
    type V = SnapshotView;

    open spec fn view(&self) -> SnapshotView {
        self.value@
    }
}

impl ExporterEntry {
    pub fn new(value: CounterSnapshot) -> (r: ExporterEntry)
        ensures
            r@ == value@,
    {
        ExporterEntry { value }
    }
}

/// Abstract value of an [`ExporterEntryGroup`].
pub struct GroupView {
    pub basename: Seq<char>,
    pub doc: Seq<char>,
    pub snaps: Seq<SnapshotView>,
}

/// All metrics of one family: the family name, its help text, and one cell
/// per fully qualified metric name.
pub struct ExporterEntryGroup {
    pub basename: String,
    pub doc: String,
    pub entries: Vec<ExporterEntry>,
}

impl View for ExporterEntryGroup {
    type V = GroupView;

    open spec fn view(&self) -> GroupView {
        GroupView {
            basename: self.basename@,
            doc: self.doc@,
            snaps: self.entries@.map_values(|e: ExporterEntry| e@),
        }
    }
}

impl GroupView {
    /// Every cell carries a well-formed name of this group's family, and no
    /// two cells share a name.
    pub open spec fn wf(self) -> bool {
        &&& snaps_unique(self.snaps)
        &&& forall|i: int|
            0 <= i < self.snaps.len() ==> valid_metric_name(#[trigger] self.snaps[i].name)
                && spec_basename(self.snaps[i].name) == self.basename
    }
}

/// First index in `entries` of a cell named `name`, or the length when
/// absent.
#[verifier::loop_isolation(false)]
fn find_entry(v: &Vec<ExporterEntry>, name: &String) -> (r: usize)
    ensures
        r as int == snaps_find(v@.map_values(|e: ExporterEntry| e@), name@),
        r <= v@.len(),
{
    let ghost s = v@.map_values(|e: ExporterEntry| e@);
    proof {
        lemma_find_index(s, |c: SnapshotView| c.name == name@);
    }
    let mut i: usize = 0;
    while i < v.len()
        invariant
            i <= v@.len(),
            forall|j: int| 0 <= j < i ==> s[j].name != name@,
        decreases v@.len() - i,
    {
        if v[i].value.name == *name {
            assert(s[i as int].name == name@);
            return i;
        }
        i += 1;
    }
    v.len()
}

/// The `# HELP` and `# TYPE` header lines that precede a family's cells in
/// the text exposition.
pub open spec fn spec_group_header(basename: Seq<char>, doc: Seq<char>) -> Seq<char> {
    "# HELP "@ + basename + " "@ + doc + "\n"@ + "# TYPE "@ + basename + " counter\n"@
}

/// The exposition lines of a cell list, in cell order.
pub open spec fn spec_lines(snaps: Seq<SnapshotView>) -> Seq<char>
    decreases snaps.len(),
{
    if snaps.len() == 0 {
        Seq::empty()
    } else {
        spec_lines(snaps.drop_last()) + spec_snapshot_line(snaps.last())
    }
}

/// The full exposition of one family: header, then one line per cell.
pub open spec fn spec_group_exposition(g: GroupView) -> Seq<char> {
    spec_group_header(g.basename, g.doc) + spec_lines(g.snaps)
}

impl ExporterEntryGroup {
    pub fn new(basename: String, doc: String) -> (r: ExporterEntryGroup)
        ensures
            r@ == (GroupView { basename: basename@, doc: doc@, snaps: Seq::empty() }),
            r@.wf(),
    {
        let r = ExporterEntryGroup { basename, doc, entries: Vec::new() };
        proof {
            assert(r@.snaps =~= Seq::<SnapshotView>::empty());
        }
        r
    }

    /// The family a metric name belongs to: everything before the first `{`.
    pub fn basename(name: String) -> (r: String)
        ensures
            r@ == spec_basename(name@),
    {
        proof {
            crate::strutil::lemma_first_occ(name@, '{');
        }
        let s = name.as_str();
        let cut = crate::strutil::find_char(s, '{');
        s.substring_char(0, cut).to_owned()
    }

    /// Overwrite the cell registered under `value`'s name with `value`.
    /// Fails exactly when the name is not registered, and then changes
    /// nothing.
    pub fn set(&mut self, value: CounterSnapshot) -> (r: Result<(), ProxyErr>)
        ensures
            r is Ok <==> snaps_has(old(self)@.snaps, value@.name),
            r is Ok ==> final(self)@ == (GroupView {
                snaps: old(self)@.snaps.update(snaps_find(old(self)@.snaps, value@.name), value@),
                ..old(self)@
            }),
            r is Err ==> final(self)@ == old(self)@,
    {
        let ghost s = self@.snaps;
        proof {
            lemma_find_index(s, |c: SnapshotView| c.name == value@.name);
        }
        let i = find_entry(&self.entries, &value.name);
        if i < self.entries.len() {
            let ghost before = self.entries@;
            self.entries.set(i, ExporterEntry::new(value));
            proof {
                let f = |e: ExporterEntry| e@;
                assert forall|j: int| 0 <= j < self.entries@.len() implies self.entries@.map_values(
                    f,
                )[j] == s.update(i as int, value@)[j] by {
                    if j != i {
                        assert(self.entries@[j] == before[j]);
                    }
                }
                assert(self.entries@.map_values(f) =~= s.update(i as int, value@));
            }
            Ok(())
        } else {
            Err(ProxyErr::new("Failed to set counter"))
        }
    }

    /// Merge `snapshot`'s value into the cell registered under its name.
    /// Fails exactly when the name is not registered or the shapes differ,
    /// and then changes nothing.
    pub fn accumulate(&mut self, snapshot: &CounterSnapshot) -> (r: Result<(), ProxyErr>)
        ensures
            r is Ok <==> (snaps_has(old(self)@.snaps, snapshot@.name) && compatible(
                old(self)@.snaps[snaps_find(old(self)@.snaps, snapshot@.name)].ctype,
                snapshot@.ctype,
            )),
            r is Ok ==> final(self)@ == (GroupView {
                snaps: old(self)@.snaps.update(
                    snaps_find(old(self)@.snaps, snapshot@.name),
                    SnapshotView {
                        ctype: spec_merge(
                            old(self)@.snaps[snaps_find(old(self)@.snaps, snapshot@.name)].ctype,
                            snapshot@.ctype,
                        ),
                        ..old(self)@.snaps[snaps_find(old(self)@.snaps, snapshot@.name)]
                    },
                ),
                ..old(self)@
            }),
            r is Err ==> final(self)@ == old(self)@,
    {
        let ghost s = self@.snaps;
        proof {
            lemma_find_index(s, |c: SnapshotView| c.name == snapshot@.name);
        }
        let i = find_entry(&self.entries, &snapshot.name);
        if i < self.entries.len() {
            let ghost before = self.entries@;
            let mut cell = self.entries[i].value.clone();
            match cell.merge(snapshot) {
                Ok(()) => {},
                Err(e) => {
                    return Err(e);
                },
            }
            self.entries.set(i, ExporterEntry::new(cell));
            proof {
                let f = |e: ExporterEntry| e@;
                let target = s.update(
                    i as int,
                    SnapshotView { ctype: spec_merge(s[i as int].ctype, snapshot@.ctype), ..s[
                        i as int
                    ] },
                );
                assert forall|j: int| 0 <= j < self.entries@.len() implies self.entries@.map_values(
                    f,
                )[j] == target[j] by {
                    if j != i {
                        assert(self.entries@[j] == before[j]);
                    }
                }
                assert(self.entries@.map_values(f) =~= target);
            }
            Ok(())
        } else {
            Err(ProxyErr::new("Failed to set counter"))
        }
    }

    /// Register a new metric name in this family.  Re-pushing a registered
    /// name changes nothing; a never-seen name must respect the label-brace
    /// convention, otherwise it is rejected and nothing changes.
    pub fn push(&mut self, snapshot: CounterSnapshot) -> (r: Result<(), ProxyErr>)
        ensures
            r is Ok <==> (snaps_has(old(self)@.snaps, snapshot@.name) || valid_metric_name(
                snapshot@.name,
            )),
            snaps_has(old(self)@.snaps, snapshot@.name) ==> final(self)@ == old(self)@,
            (!snaps_has(old(self)@.snaps, snapshot@.name) && valid_metric_name(snapshot@.name))
                ==> final(self)@ == (GroupView {
                snaps: old(self)@.snaps.push(snapshot@),
                ..old(self)@
            }),
            r is Err ==> final(self)@ == old(self)@,
    {
        let ghost s = self@.snaps;
        proof {
            lemma_find_index(s, |c: SnapshotView| c.name == snapshot@.name);
        }
        let i = find_entry(&self.entries, &snapshot.name);
        if i < self.entries.len() {
            return Ok(());
        }
        if !snapshot.has_valid_name() {
            return Err(ProxyErr::new("Bad metric name: unmatched brackets"));
        }
        let ghost before = self.entries@;
        self.entries.push(ExporterEntry::new(snapshot));
        proof {
            let f = |e: ExporterEntry| e@;
            assert forall|j: int| 0 <= j < self.entries@.len() implies self.entries@.map_values(f)[j]
                == s.push(self.entries@.last()@)[j] by {
                if j < before.len() {
                    assert(self.entries@[j] == before[j]);
                }
            }
            assert(self.entries@.map_values(f) =~= s.push(self.entries@.last()@));
        }
        Ok(())
    }

    /// The family's block of the text exposition: `# HELP` and `# TYPE`
    /// headers, then one `name value` line per cell, in cell order.
    #[verifier::loop_isolation(false)]
    pub fn serialize(&self) -> (r: Result<String, ProxyErr>)
        ensures
            r is Ok,
            r is Ok ==> r->Ok_0@ == spec_group_exposition(self@),
    {
        let mut out = String::new();
        out.append("# HELP ");
        out.append(self.basename.as_str());
        out.append(" ");
        out.append(self.doc.as_str());
        out.append("\n");
        out.append("# TYPE ");
        out.append(self.basename.as_str());
        out.append(" counter\n");
        proof {
            assert(out@ =~= spec_group_header(self@.basename, self@.doc));
        }
        let ghost s = self@.snaps;
        let mut i: usize = 0;
        while i < self.entries.len()
            invariant
                i <= self.entries@.len(),
                out@ == spec_group_header(self@.basename, self@.doc) + spec_lines(
                    s.take(i as int),
                ),
            decreases self.entries@.len() - i,
        {
            let line = self.entries[i].value.serialize();
            out.append(line.as_str());
            proof {
                assert(s.take(i + 1).drop_last() =~= s.take(i as int));
                assert(s.take(i + 1).last() == s[i as int]);
                assert(self.entries@[i as int]@ == s[i as int]);
                assert(out@ =~= spec_group_header(self@.basename, self@.doc) + spec_lines(
                    s.take(i + 1),
                ));
            }
            i += 1;
        }
        proof {
            assert(s.take(s.len() as int) =~= s);
        }
        Ok(out)
    }

    /// A copy of every cell of this family, in cell order.
    #[verifier::loop_isolation(false)]
    pub fn snapshot(&self) -> (r: Result<Vec<CounterSnapshot>, ProxyErr>)
        ensures
            r is Ok,
            r is Ok ==> r->Ok_0@.map_values(|c: CounterSnapshot| c@) == self@.snaps,
    {
        let mut out: Vec<CounterSnapshot> = Vec::new();
        let mut i: usize = 0;
        while i < self.entries.len()
            invariant
                i <= self.entries@.len(),
                out@.len() == i,
                forall|j: int| 0 <= j < i ==> out@[j]@ == self@.snaps[j],
            decreases self.entries@.len() - i,
        {
            out.push(self.entries[i].value.clone());
            i += 1;
        }
        proof {
            assert(out@.map_values(|c: CounterSnapshot| c@) =~= self@.snaps);
        }
        Ok(out)
    }
}

/// First index in `gs` of the group of family `basename`, or `gs.len()` when
/// the family is unknown.
pub open spec fn groups_find(gs: Seq<GroupView>, basename: Seq<char>) -> int {
    find_index(gs, |g: GroupView| g.basename == basename)
}

/// Some group in `gs` owns the family `basename`.
pub open spec fn groups_has(gs: Seq<GroupView>, basename: Seq<char>) -> bool {
    contains_where(gs, |g: GroupView| g.basename == basename)
}

/// The metric `name` is registered: its family has a group and the group has
/// a cell of that name.
pub open spec fn exporter_has(gs: Seq<GroupView>, name: Seq<char>) -> bool {
    let g = groups_find(gs, spec_basename(name));
    g < gs.len() && snaps_has(gs[g].snaps, name)
}

/// The cell registered under `name`; meaningful only when `exporter_has`.
pub open spec fn exporter_lookup(gs: Seq<GroupView>, name: Seq<char>) -> SnapshotView {
    let g = groups_find(gs, spec_basename(name));
    gs[g].snaps[snaps_find(gs[g].snaps, name)]
}

/// No two groups share a family name, and each group is well formed.
pub open spec fn exporter_wf(gs: Seq<GroupView>) -> bool {
    &&& forall|i: int, j: int| 0 <= i < j < gs.len() ==> gs[i].basename != gs[j].basename
    &&& forall|i: int| 0 <= i < gs.len() ==> (#[trigger] gs[i]).wf()
}

/// Registration: a no-op when the name is already present; otherwise the
/// cell joins its family's group, the group being created with the incoming
/// snapshot's help text when the family is new.
pub open spec fn spec_exporter_push(gs: Seq<GroupView>, c: SnapshotView) -> Seq<GroupView> {
    let g = groups_find(gs, spec_basename(c.name));
    if g < gs.len() {
        if snaps_has(gs[g].snaps, c.name) {
            gs
        } else {
            gs.update(g, GroupView { snaps: gs[g].snaps.push(c), ..gs[g] })
        }
    } else {
        gs.push(GroupView { basename: spec_basename(c.name), doc: c.doc, snaps: seq![c] })
    }
}

/// Overwrite: the cell registered under `c.name` is replaced by `c`.
pub open spec fn spec_exporter_set(gs: Seq<GroupView>, c: SnapshotView) -> Seq<GroupView> {
    let g = groups_find(gs, spec_basename(c.name));
    gs.update(g, GroupView { snaps: gs[g].snaps.update(snaps_find(gs[g].snaps, c.name), c), ..gs[g] })
}

/// Accumulate: the cell registered under `c.name` absorbs `c`'s value.
pub open spec fn spec_exporter_accumulate(gs: Seq<GroupView>, c: SnapshotView) -> Seq<GroupView> {
    let g = groups_find(gs, spec_basename(c.name));
    let i = snaps_find(gs[g].snaps, c.name);
    gs.update(
        g,
        GroupView {
            snaps: gs[g].snaps.update(
                i,
                SnapshotView { ctype: spec_merge(gs[g].snaps[i].ctype, c.ctype), ..gs[g].snaps[i] },
            ),
            ..gs[g]
        },
    )
}

/// All cells of the store, family blocks in table order.
pub open spec fn groups_snaps(gs: Seq<GroupView>) -> Seq<SnapshotView>
    decreases gs.len(),
{
    if gs.len() == 0 {
        Seq::empty()
    } else {
        groups_snaps(gs.drop_last()) + gs.last().snaps
    }
}

/// The text exposition of the whole store, without the end marker.
pub open spec fn spec_expositions(gs: Seq<GroupView>) -> Seq<char>
    decreases gs.len(),
{
    if gs.len() == 0 {
        Seq::empty()
    } else {
        spec_expositions(gs.drop_last()) + spec_group_exposition(gs.last())
    }
}

/// In-memory table of metric families; one instance exists per active job
/// plus one summing all jobs.
pub struct Exporter {
    pub groups: Vec<ExporterEntryGroup>,
}

impl View for Exporter {
    type V = Seq<GroupView>;

    open spec fn view(&self) -> Seq<GroupView> {
        self.groups@.map_values(|g: ExporterEntryGroup| g@)
    }
}

/// Copy an entry list, value for value.
fn clone_entries(v: &Vec<ExporterEntry>) -> (r: Vec<ExporterEntry>)
    ensures
        r@.map_values(|e: ExporterEntry| e@) == v@.map_values(|e: ExporterEntry| e@),
        r@.len() == v@.len(),
{
    let mut r: Vec<ExporterEntry> = Vec::new();
    let mut i: usize = 0;
    while i < v.len()
        invariant
            i <= v@.len(),
            r@.len() == i,
            forall|j: int| 0 <= j < i ==> r@[j]@ == v@[j]@,
        decreases v@.len() - i,
    {
        r.push(ExporterEntry::new(v[i].value.clone()));
        i += 1;
    }
    proof {
        assert(r@.map_values(|e: ExporterEntry| e@) =~= v@.map_values(|e: ExporterEntry| e@));
    }
    r
}

impl Clone for ExporterEntryGroup {
    fn clone(&self) -> (r: Self)
        ensures
            r@ == self@,
    {
        let r = ExporterEntryGroup {
            basename: self.basename.clone(),
            doc: self.doc.clone(),
            entries: clone_entries(&self.entries),
        };
        proof {
            assert(r@.snaps =~= self@.snaps);
        }
        r
    }
}

/// First index in `v` of the group of family `basename`, or the length when
/// the family is unknown.
#[verifier::loop_isolation(false)]
fn find_group(v: &Vec<ExporterEntryGroup>, basename: &String) -> (r: usize)
    ensures
        r as int == groups_find(v@.map_values(|g: ExporterEntryGroup| g@), basename@),
        r <= v@.len(),
{
    let ghost s = v@.map_values(|g: ExporterEntryGroup| g@);
    proof {
        lemma_find_index(s, |g: GroupView| g.basename == basename@);
    }
    let mut i: usize = 0;
    while i < v.len()
        invariant
            i <= v@.len(),
            forall|j: int| 0 <= j < i ==> s[j].basename != basename@,
        decreases v@.len() - i,
    {
        if v[i].basename == *basename {
            assert(s[i as int].basename == basename@);
            return i;
        }
        i += 1;
    }
    v.len()
}

impl Exporter {
    pub fn new() -> (r: Exporter)
        ensures
            r@ =~= Seq::<GroupView>::empty(),
            exporter_wf(r@),
    {
        let r = Exporter { groups: Vec::new() };
        proof {
            assert(r@ =~= Seq::<GroupView>::empty());
        }
        r
    }

    /// Register `value`'s name, creating its family's group on first use.
    /// Re-registration is a no-op; a malformed label set is rejected.
    pub fn push(&mut self, value: &CounterSnapshot) -> (r: Result<(), ProxyErr>)
        requires
            exporter_wf(old(self)@),
        ensures
            r is Ok <==> (exporter_has(old(self)@, value@.name) || valid_metric_name(value@.name)),
            exporter_has(old(self)@, value@.name) ==> final(self)@ == old(self)@,
            (!exporter_has(old(self)@, value@.name) && valid_metric_name(value@.name))
                ==> final(self)@ == spec_exporter_push(old(self)@, value@),
            r is Err ==> final(self)@ == old(self)@,
            exporter_wf(final(self)@),
    {
        let ghost gs = self@;
        let bname = ExporterEntryGroup::basename(value.name.clone());
        let g = find_group(&self.groups, &bname);
        if g < self.groups.len() {
            let ghost before = self.groups@;
            let mut grp = self.groups[g].clone();
            let r = grp.push(value.clone());
            match r {
                Ok(()) => {},
                Err(e) => {
                    return Err(e);
                },
            }
            self.groups.set(g, grp);
            proof {
                let f = |x: ExporterEntryGroup| x@;
                if snaps_has(gs[g as int].snaps, value@.name) {
                    assert forall|j: int| 0 <= j < self.groups@.len() implies self.groups@.map_values(
                        f,
                    )[j] == gs[j] by {
                        if j != g {
                            assert(self.groups@[j] == before[j]);
                        }
                    }
                    assert(self.groups@.map_values(f) =~= gs);
                } else {
                    let target = gs.update(
                        g as int,
                        GroupView { snaps: gs[g as int].snaps.push(value@), ..gs[g as int] },
                    );
                    assert forall|j: int| 0 <= j < self.groups@.len() implies self.groups@.map_values(
                        f,
                    )[j] == target[j] by {
                        if j != g {
                            assert(self.groups@[j] == before[j]);
                        }
                    }
                    assert(self.groups@.map_values(f) =~= target);
                }
                lemma_exporter_push_wf(gs, value@);
            }
            Ok(())
        } else {
            if !value.has_valid_name() {
                return Err(ProxyErr::new("Bad metric name: unmatched brackets"));
            }
            let ghost before = self.groups@;
            let mut grp = ExporterEntryGroup::new(bname, value.doc.clone());
            let r = grp.push(value.clone());
            match r {
                Ok(()) => {},
                Err(_) => {
                    // Unreachable: a fresh group has no entry of this name and
                    // the name was just checked.
                    assert(false);
                    return Err(ProxyErr::new("Bad metric name: unmatched brackets"));
                },
            }
            self.groups.push(grp);
            proof {
                let f = |x: ExporterEntryGroup| x@;
                let target = gs.push(
                    GroupView {
                        basename: spec_basename(value@.name),
                        doc: value@.doc,
                        snaps: seq![value@],
                    },
                );
                assert(grp@.snaps =~= seq![value@]);
                assert forall|j: int| 0 <= j < self.groups@.len() implies self.groups@.map_values(
                    f,
                )[j] == target[j] by {
                    if j < before.len() {
                        assert(self.groups@[j] == before[j]);
                    }
                }
                assert(self.groups@.map_values(f) =~= target);
                lemma_exporter_push_wf(gs, value@);
            }
            Ok(())
        }
    }

    /// Overwrite the value registered under `value`'s name; fails exactly
    /// when the name is unknown, and then changes nothing.
    pub fn set(&mut self, value: CounterSnapshot) -> (r: Result<(), ProxyErr>)
        requires
            exporter_wf(old(self)@),
        ensures
            r is Ok <==> exporter_has(old(self)@, value@.name),
            r is Ok ==> final(self)@ == spec_exporter_set(old(self)@, value@),
            r is Err ==> final(self)@ == old(self)@,
            exporter_wf(final(self)@),
    {
        let ghost gs = self@;
        let ghost vv = value@;
        let bname = ExporterEntryGroup::basename(value.name.clone());
        let g = find_group(&self.groups, &bname);
        if g < self.groups.len() {
            let ghost before = self.groups@;
            let mut grp = self.groups[g].clone();
            let ghost oldsnaps = grp@.snaps;
            proof {
                lemma_find_index(oldsnaps, |c: SnapshotView| c.name == vv.name);
            }
            let r = grp.set(value);
            match r {
                Ok(()) => {},
                Err(e) => {
                    return Err(e);
                },
            }
            self.groups.set(g, grp);
            proof {
                let f = |x: ExporterEntryGroup| x@;
                let target = spec_exporter_set(gs, vv);
                assert forall|j: int| 0 <= j < self.groups@.len() implies self.groups@.map_values(
                    f,
                )[j] == target[j] by {
                    if j != g {
                        assert(self.groups@[j] == before[j]);
                    }
                }
                assert(self.groups@.map_values(f) =~= target);
                lemma_find_index_contains(oldsnaps, |c: SnapshotView| c.name == vv.name);
                lemma_wf_update_cell(gs, g as int, snaps_find(oldsnaps, vv.name), vv);
            }
            Ok(())
        } else {
            Err(ProxyErr::new("No such key cannot set it"))
        }
    }

    /// Merge `value` into the cell registered under its name; fails exactly
    /// when the name is unknown or the shapes differ, and then changes
    /// nothing.
    pub fn accumulate(&mut self, value: &CounterSnapshot) -> (r: Result<(), ProxyErr>)
        requires
            exporter_wf(old(self)@),
        ensures
            r is Ok <==> (exporter_has(old(self)@, value@.name) && compatible(
                exporter_lookup(old(self)@, value@.name).ctype,
                value@.ctype,
            )),
            r is Ok ==> final(self)@ == spec_exporter_accumulate(old(self)@, value@),
            r is Err ==> final(self)@ == old(self)@,
            exporter_wf(final(self)@),
    {
        let ghost gs = self@;
        let ghost vv = value@;
        let bname = ExporterEntryGroup::basename(value.name.clone());
        let g = find_group(&self.groups, &bname);
        if g < self.groups.len() {
            let ghost before = self.groups@;
            let mut grp = self.groups[g].clone();
            let ghost oldsnaps = grp@.snaps;
            proof {
                lemma_find_index(oldsnaps, |c: SnapshotView| c.name == vv.name);
            }
            let r = grp.accumulate(value);
            match r {
                Ok(()) => {},
                Err(e) => {
                    return Err(e);
                },
            }
            self.groups.set(g, grp);
            proof {
                let f = |x: ExporterEntryGroup| x@;
                let target = spec_exporter_accumulate(gs, vv);
                assert forall|j: int| 0 <= j < self.groups@.len() implies self.groups@.map_values(
                    f,
                )[j] == target[j] by {
                    if j != g {
                        assert(self.groups@[j] == before[j]);
                    }
                }
                assert(self.groups@.map_values(f) =~= target);
                lemma_find_index_contains(oldsnaps, |c: SnapshotView| c.name == vv.name);
                let i = snaps_find(oldsnaps, vv.name);
                lemma_wf_update_cell(
                    gs,
                    g as int,
                    i,
                    SnapshotView { ctype: spec_merge(oldsnaps[i].ctype, vv.ctype), ..oldsnaps[i] },
                );
            }
            Ok(())
        } else {
            Err(ProxyErr::new("No such key cannot set it"))
        }
    }

    /// The whole store's text exposition: each family's block in table
    /// order, closed by the end marker line.
    #[verifier::loop_isolation(false)]
    pub fn serialize(&self) -> (r: Result<String, ProxyErr>)
        ensures
            r is Ok,
            r is Ok ==> r->Ok_0@ == spec_expositions(self@) + "# EOF\n"@,
    {
        let ghost gs = self@;
        let mut out = String::new();
        proof {
            assert(out@ =~= spec_expositions(gs.take(0)));
        }
        let mut i: usize = 0;
        while i < self.groups.len()
            invariant
                i <= self.groups@.len(),
                out@ == spec_expositions(gs.take(i as int)),
            decreases self.groups@.len() - i,
        {
            let part = match self.groups[i].serialize() {
                Ok(s) => s,
                Err(e) => {
                    // Unreachable: group serialization always succeeds.
                    return Err(e);
                },
            };
            out.append(part.as_str());
            proof {
                assert(gs.take(i + 1).drop_last() =~= gs.take(i as int));
                assert(gs.take(i + 1).last() == gs[i as int]);
                assert(self.groups@[i as int]@ == gs[i as int]);
                assert(out@ =~= spec_expositions(gs.take(i + 1)));
            }
            i += 1;
        }
        proof {
            assert(gs.take(gs.len() as int) =~= gs);
        }
        out.append("# EOF\n");
        Ok(out)
    }

    /// Materialize the store into a profile for `desc`: every cell of every
    /// family, family blocks in table order.
    #[verifier::loop_isolation(false)]
    pub fn profile(&self, desc: &JobDesc) -> (r: Result<JobProfile, ProxyErr>)
        ensures
            r is Ok,
            r is Ok ==> r->Ok_0@ == (JobProfileView { desc: desc@, counters: groups_snaps(self@) }),
    {
        let ghost gs = self@;
        let mut counters: Vec<CounterSnapshot> = Vec::new();
        proof {
            assert(counters@.map_values(|c: CounterSnapshot| c@) =~= groups_snaps(gs.take(0)));
        }
        let mut i: usize = 0;
        while i < self.groups.len()
            invariant
                i <= self.groups@.len(),
                counters@.map_values(|c: CounterSnapshot| c@) == groups_snaps(gs.take(i as int)),
            decreases self.groups@.len() - i,
        {
            let ghost prefix = counters@.map_values(|c: CounterSnapshot| c@);
            let mut snaps = match self.groups[i].snapshot() {
                Ok(s) => s,
                Err(e) => {
                    // Unreachable: taking a snapshot always succeeds.
                    return Err(e);
                },
            };
            let ghost added = snaps@.map_values(|c: CounterSnapshot| c@);
            let mut k: usize = 0;
            while k < snaps.len()
                invariant
                    k <= snaps@.len(),
                    snaps@.map_values(|c: CounterSnapshot| c@) == added,
                    counters@.map_values(|c: CounterSnapshot| c@) =~= prefix + added.take(k as int),
                decreases snaps@.len() - k,
            {
                let ghost cbefore = counters@;
                counters.push(snaps[k].clone());
                proof {
                    let f = |c: CounterSnapshot| c@;
                    assert(snaps@[k as int]@ == added[k as int]);
                    assert forall|j: int| 0 <= j < counters@.len() implies counters@.map_values(f)[j]
                        == (prefix + added.take(k + 1))[j] by {
                        if j < cbefore.len() {
                            assert(counters@[j] == cbefore[j]);
                            assert(cbefore.map_values(f)[j] == (prefix + added.take(k as int))[j]);
                        }
                    }
                    assert(counters@.map_values(f) =~= prefix + added.take(k + 1));
                }
                k += 1;
            }
            proof {
                assert(added.take(added.len() as int) =~= added);
                assert(gs.take(i + 1).drop_last() =~= gs.take(i as int));
                assert(gs.take(i + 1).last() == gs[i as int]);
                assert(self.groups@[i as int]@ == gs[i as int]);
                assert(counters@.map_values(|c: CounterSnapshot| c@) =~= groups_snaps(
                    gs.take(i + 1),
                ));
            }
            i += 1;
        }
        proof {
            assert(gs.take(gs.len() as int) =~= gs);
        }
        Ok(JobProfile { desc: desc.clone(), counters })
    }
}

/// Updating one cell of one group, keeping its name, preserves
/// well-formedness of the store.
proof fn lemma_wf_update_cell(gs: Seq<GroupView>, g: int, i: int, c: SnapshotView)
    requires
        exporter_wf(gs),
        0 <= g < gs.len(),
        0 <= i < gs[g].snaps.len(),
        c.name == gs[g].snaps[i].name,
    ensures
        exporter_wf(gs.update(g, GroupView { snaps: gs[g].snaps.update(i, c), ..gs[g] })),
{
    let gs2 = gs.update(g, GroupView { snaps: gs[g].snaps.update(i, c), ..gs[g] });
    assert forall|j: int| 0 <= j < gs2.len() implies (#[trigger] gs2[j]).wf() by {
        if j == g {
            let s2 = gs2[j].snaps;
            assert(gs[g].wf());
            assert forall|k: int|
                0 <= k < s2.len() implies valid_metric_name(#[trigger] s2[k].name)
                && spec_basename(s2[k].name) == gs2[j].basename by {
                assert(s2[k].name == gs[g].snaps[k].name);
            }
            assert forall|k: int, l: int| 0 <= k < l < s2.len() implies s2[k].name
                != s2[l].name by {
                assert(s2[k].name == gs[g].snaps[k].name);
                assert(s2[l].name == gs[g].snaps[l].name);
            }
        }
    }
}

/// Registration preserves well-formedness of the store.
proof fn lemma_exporter_push_wf(gs: Seq<GroupView>, c: SnapshotView)
    requires
        exporter_wf(gs),
        valid_metric_name(c.name),
    ensures
        exporter_wf(spec_exporter_push(gs, c)),
{
    let bn = spec_basename(c.name);
    let g = groups_find(gs, bn);
    lemma_find_index(gs, |gv: GroupView| gv.basename == bn);
    if g < gs.len() {
        if !snaps_has(gs[g].snaps, c.name) {
            let gs2 = gs.update(g, GroupView { snaps: gs[g].snaps.push(c), ..gs[g] });
            assert forall|j: int| 0 <= j < gs2.len() implies (#[trigger] gs2[j]).wf() by {
                if j == g {
                    let s1 = gs[g].snaps;
                    let s2 = gs2[j].snaps;
                    assert(gs[g].wf());
                    assert(gs[g].basename == bn);
                    assert forall|k: int|
                        0 <= k < s2.len() implies valid_metric_name(#[trigger] s2[k].name)
                        && spec_basename(s2[k].name) == gs2[j].basename by {
                        if k < s1.len() {
                            assert(s2[k] == s1[k]);
                        } else {
                            assert(s2[k] == c);
                        }
                    }
                    assert forall|k: int, l: int| 0 <= k < l < s2.len() implies s2[k].name
                        != s2[l].name by {
                        if l < s1.len() {
                            assert(s2[k] == s1[k] && s2[l] == s1[l]);
                        } else {
                            assert(s2[l] == c);
                            assert(s2[k] == s1[k]);
                            if s1[k].name == c.name {
                                assert(snaps_has(s1, c.name));
                            }
                        }
                    }
                }
            }
            assert forall|i: int, j: int| 0 <= i < j < gs2.len() implies gs2[i].basename
                != gs2[j].basename by {
                assert(gs2[i].basename == gs[i].basename);
                assert(gs2[j].basename == gs[j].basename);
            }
        }
    } else {
        let newg = GroupView { basename: bn, doc: c.doc, snaps: seq![c] };
        let gs2 = gs.push(newg);
        assert forall|j: int| 0 <= j < gs2.len() implies (#[trigger] gs2[j]).wf() by {
            if j < gs.len() {
                assert(gs2[j] == gs[j]);
            } else {
                assert(gs2[j] == newg);
                assert(newg.snaps[0] == c);
            }
        }
        assert forall|i: int, j: int| 0 <= i < j < gs2.len() implies gs2[i].basename
            != gs2[j].basename by {
            assert(gs2[i] == gs[i]);
            if j < gs.len() {
                assert(gs2[j] == gs[j]);
            } else {
                assert(gs2[j] == newg);
            }
        }
    }
}


/// Idempotence of registration: once a name is pushed it is present, and
/// pushing it again leaves the store exactly as it was.
pub proof fn lemma_push_idempotent(gs: Seq<GroupView>, c: SnapshotView)
    requires
        valid_metric_name(c.name),
    ensures
        exporter_has(spec_exporter_push(gs, c), c.name),
        spec_exporter_push(spec_exporter_push(gs, c), c) == spec_exporter_push(gs, c),
{
    let bn = spec_basename(c.name);
    let g = groups_find(gs, bn);
    lemma_find_index(gs, |gv: GroupView| gv.basename == bn);
    let gs2 = spec_exporter_push(gs, c);
    lemma_find_index(gs2, |gv: GroupView| gv.basename == bn);
    let g2 = groups_find(gs2, bn);
    if g < gs.len() {
        if snaps_has(gs[g].snaps, c.name) {
            assert(gs2 == gs);
        } else {
            assert(gs2[g].basename == bn);
            assert forall|j: int| 0 <= j < g implies gs2[j].basename != bn by {
                assert(gs2[j] == gs[j]);
            }
            assert(g2 == g) by {
                if g2 < g {
                    assert(gs2[g2].basename == bn);
                } else if g2 > g {
                    assert(gs2[g].basename != bn);
                }
            }
            let n = gs[g].snaps.len() as int;
            assert(gs2[g].snaps[n] == c);
            assert(snaps_has(gs2[g].snaps, c.name));
        }
    } else {
        assert(forall|j: int| 0 <= j < gs.len() ==> (#[trigger] gs[j]).basename != bn);
        let n = gs.len() as int;
        assert(gs2[n].basename == bn);
        assert forall|j: int| 0 <= j < n implies gs2[j].basename != bn by {
            assert(gs2[j] == gs[j]);
        }
        assert(g2 == n) by {
            if g2 < n {
                assert(gs2[g2].basename == bn);
            } else if g2 > n {
                assert(gs2[n].basename != bn);
            }
        }
        assert(gs2[n].snaps[0] == c);
        assert(snaps_has(gs2[n].snaps, c.name));
    }
    assert(exporter_has(gs2, c.name));
}

} // verus!
