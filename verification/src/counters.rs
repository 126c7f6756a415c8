use vstd::prelude::*;

verus! {

use crate::errors::ProxyErr;
use crate::numfmt::{dec_seq, u64_to_dec};
use crate::strutil::{contains_char, find_char, first_occ, has_char, lemma_first_occ};

/// Point-in-time value of one metric.  `Counter` is a cumulative count with
/// the timestamp of its last update; `Gauge` is a distribution summary.  The
/// enum is the extension point for further metric shapes: arithmetic is
/// defined per variant and mixing variants is a caller error.
#[derive(Clone, Copy, PartialEq, Eq, Structural, Debug)]
pub enum CounterType {
    Counter { ts: u64, value: u64 },
    Gauge { min: u64, max: u64, hits: u64, total: u64 },
}

/// Addition that stops at the largest representable value instead of
/// wrapping: merged counters never decrease.
pub open spec fn sat_add(a: u64, b: u64) -> u64 {
    if a + b > u64::MAX {
        u64::MAX
    } else {
        (a + b) as u64
    }
}

/// Subtraction that stops at zero: a delta of a cumulative counter that went
/// backwards (a restarted source) reads as no progress.
pub open spec fn sat_sub(a: u64, b: u64) -> u64 {
    if a >= b {
        (a - b) as u64
    } else {
        0
    }
}

pub open spec fn max_u64(a: u64, b: u64) -> u64 {
    if a >= b {
        a
    } else {
        b
    }
}

pub open spec fn min_u64(a: u64, b: u64) -> u64 {
    if a <= b {
        a
    } else {
        b
    }
}

/// Two values can be merged or subtracted only when they have the same shape.
pub open spec fn compatible(a: CounterType, b: CounterType) -> bool {
    ||| (a is Counter && b is Counter)
    ||| (a is Gauge && b is Gauge)
}

/// Merge is per-variant addition: counters sum their values and keep the
/// latest timestamp; gauges widen their range and sum hits and total.
pub open spec fn spec_merge(a: CounterType, b: CounterType) -> CounterType {
    match (a, b) {
        (
            CounterType::Counter { ts: ta, value: va },
            CounterType::Counter { ts: tb, value: vb },
        ) => CounterType::Counter { ts: max_u64(ta, tb), value: sat_add(va, vb) },
        (
            CounterType::Gauge { min: mina, max: maxa, hits: ha, total: ta },
            CounterType::Gauge { min: minb, max: maxb, hits: hb, total: tb },
        ) => CounterType::Gauge {
            min: min_u64(mina, minb),
            max: max_u64(maxa, maxb),
            hits: sat_add(ha, hb),
            total: sat_add(ta, tb),
        },
        _ => a,
    }
}

/// Subtract is the per-variant difference used for deltas: counters keep
/// their own (newer) timestamp and subtract values; gauges keep their range
/// and subtract hits and total.
pub open spec fn spec_subtract(a: CounterType, b: CounterType) -> CounterType {
    match (a, b) {
        (
            CounterType::Counter { ts: ta, value: va },
            CounterType::Counter { ts: _tb, value: vb },
        ) => CounterType::Counter { ts: ta, value: sat_sub(va, vb) },
        (
            CounterType::Gauge { min: mina, max: maxa, hits: ha, total: ta },
            CounterType::Gauge { min: _minb, max: _maxb, hits: hb, total: tb },
        ) => CounterType::Gauge {
            min: mina,
            max: maxa,
            hits: sat_sub(ha, hb),
            total: sat_sub(ta, tb),
        },
        _ => a,
    }
}

fn exec_sat_add(a: u64, b: u64) -> (r: u64)
    ensures
        r == sat_add(a, b),
{
    if a > u64::MAX - b {
        u64::MAX
    } else {
        a + b
    }
}

fn exec_sat_sub(a: u64, b: u64) -> (r: u64)
    ensures
        r == sat_sub(a, b),
{
    if a >= b {
        a - b
    } else {
        0
    }
}

impl CounterType {
    /// A fresh cumulative counter: zero observed, never updated.
    pub fn newcounter() -> (r: CounterType)
        ensures
            r == (CounterType::Counter { ts: 0u64, value: 0u64 }),
    {
        CounterType::Counter { ts: 0, value: 0 }
    }

    /// Per-variant addition; fails exactly when the shapes differ.
    pub fn merge(&self, other: &CounterType) -> (r: Result<CounterType, ProxyErr>)
        ensures
            r is Ok <==> compatible(*self, *other),
            r is Ok ==> r->Ok_0 == spec_merge(*self, *other),
    {
        match (self, other) {
            (
                CounterType::Counter { ts: ta, value: va },
                CounterType::Counter { ts: tb, value: vb },
            ) => Ok(
                CounterType::Counter {
                    ts: if *ta >= *tb {
                        *ta
                    } else {
                        *tb
                    },
                    value: exec_sat_add(*va, *vb),
                },
            ),
            (
                CounterType::Gauge { min: mina, max: maxa, hits: ha, total: ta },
                CounterType::Gauge { min: minb, max: maxb, hits: hb, total: tb },
            ) => Ok(
                CounterType::Gauge {
                    min: if *mina <= *minb {
                        *mina
                    } else {
                        *minb
                    },
                    max: if *maxa >= *maxb {
                        *maxa
                    } else {
                        *maxb
                    },
                    hits: exec_sat_add(*ha, *hb),
                    total: exec_sat_add(*ta, *tb),
                },
            ),
            _ => Err(ProxyErr::new("Cannot merge counters of different types")),
        }
    }

    /// Per-variant difference; fails exactly when the shapes differ.
    pub fn subtract(&self, other: &CounterType) -> (r: Result<CounterType, ProxyErr>)
        ensures
            r is Ok <==> compatible(*self, *other),
            r is Ok ==> r->Ok_0 == spec_subtract(*self, *other),
    {
        match (self, other) {
            (
                CounterType::Counter { ts: ta, value: va },
                CounterType::Counter { ts: _, value: vb },
            ) => Ok(CounterType::Counter { ts: *ta, value: exec_sat_sub(*va, *vb) }),
            (
                CounterType::Gauge { min: mina, max: maxa, hits: ha, total: ta },
                CounterType::Gauge { min: _, max: _, hits: hb, total: tb },
            ) => Ok(
                CounterType::Gauge {
                    min: *mina,
                    max: *maxa,
                    hits: exec_sat_sub(*ha, *hb),
                    total: exec_sat_sub(*ta, *tb),
                },
            ),
            _ => Err(ProxyErr::new("Cannot subtract counters of different types")),
        }
    }
}

/// Merging is associative: folding a set of per-host counters into a tree of
/// proxies gives the same total whatever the grouping.
pub proof fn lemma_merge_associative(a: CounterType, b: CounterType, c: CounterType)
    requires
        compatible(a, b),
        compatible(b, c),
    ensures
        spec_merge(spec_merge(a, b), c) == spec_merge(a, spec_merge(b, c)),
{
}

/// Merging is commutative.
pub proof fn lemma_merge_commutative(a: CounterType, b: CounterType)
    requires
        compatible(a, b),
    ensures
        spec_merge(a, b) == spec_merge(b, a),
{
}

/// A metric name may carry a label set in the `family{labels}` convention: a
/// name that opens a brace must close one somewhere after it.
pub open spec fn valid_metric_name(s: Seq<char>) -> bool {
    has_char(s, '{') ==> has_char(s, '}')
}

/// The family portion of a metric name: everything before the first `{`, or
/// the whole name when it carries no label set.
pub open spec fn spec_basename(s: Seq<char>) -> Seq<char> {
    s.take(first_occ(s, '{'))
}

/// Abstract value of a [`CounterSnapshot`]: its strings as character
/// sequences, its value as is.
pub struct SnapshotView {
    pub name: Seq<char>,
    pub doc: Seq<char>,
    pub ctype: CounterType,
}

/// Latest observed state of one named metric: the full metric name (family
/// plus optional label set), the family's help text, and the value.
pub struct CounterSnapshot {
    pub name: String,
    pub doc: String,
    pub ctype: CounterType,
}

impl View for CounterSnapshot {
    type V = SnapshotView;

    open spec fn view(&self) -> SnapshotView {
        SnapshotView { name: self.name@, doc: self.doc@, ctype: self.ctype }
    }
}

impl Clone for CounterSnapshot {
    fn clone(&self) -> (r: Self)
        ensures
            r@ == self@,
    {
        CounterSnapshot { name: self.name.clone(), doc: self.doc.clone(), ctype: self.ctype }
    }
}

/// The number shown for a value in the text exposition: a counter shows its
/// count, a gauge its running total.
pub open spec fn display_value(c: CounterType) -> u64 {
    match c {
        CounterType::Counter { ts: _, value } => value,
        CounterType::Gauge { min: _, max: _, hits: _, total } => total,
    }
}

/// One line of the text exposition: `name value` and a newline.
pub open spec fn spec_snapshot_line(v: SnapshotView) -> Seq<char> {
    v.name + " "@ + dec_seq(display_value(v.ctype) as nat) + "\n"@
}

impl CounterSnapshot {
    pub fn new(name: String, doc: String, ctype: CounterType) -> (r: CounterSnapshot)
        ensures
            r@ == (SnapshotView { name: name@, doc: doc@, ctype }),
    {
        CounterSnapshot { name, doc, ctype }
    }

    /// Whether the name respects the label-brace convention.
    pub fn has_valid_name(&self) -> (r: bool)
        ensures
            r == valid_metric_name(self.name@),
    {
        !contains_char(self.name.as_str(), '{') || contains_char(self.name.as_str(), '}')
    }

    /// The family this snapshot's name belongs to.
    pub fn basename(&self) -> (r: String)
        ensures
            r@ == spec_basename(self.name@),
    {
        proof {
            lemma_first_occ(self.name@, '{');
        }
        let s = self.name.as_str();
        let cut = find_char(s, '{');
        s.substring_char(0, cut).to_owned()
    }

    /// Accumulate `other`'s value into this snapshot; name and help text are
    /// kept.  Fails exactly when the two values have different shapes, and
    /// then changes nothing.
    pub fn merge(&mut self, other: &CounterSnapshot) -> (r: Result<(), ProxyErr>)
        ensures
            r is Ok <==> compatible(old(self).ctype, other.ctype),
            r is Ok ==> final(self)@ == (SnapshotView {
                ctype: spec_merge(old(self)@.ctype, other@.ctype),
                ..old(self)@
            }),
            r is Err ==> final(self)@ == old(self)@,
    {
        match self.ctype.merge(&other.ctype) {
            Ok(c) => {
                self.ctype = c;
                Ok(())
            },
            Err(e) => Err(e),
        }
    }

    /// Subtract `other`'s value from this snapshot, the delta step of the
    /// scraper.  Fails exactly when the two values have different shapes, and
    /// then changes nothing.
    pub fn subtract(&mut self, other: &CounterSnapshot) -> (r: Result<(), ProxyErr>)
        ensures
            r is Ok <==> compatible(old(self).ctype, other.ctype),
            r is Ok ==> final(self)@ == (SnapshotView {
                ctype: spec_subtract(old(self)@.ctype, other@.ctype),
                ..old(self)@
            }),
            r is Err ==> final(self)@ == old(self)@,
    {
        match self.ctype.subtract(&other.ctype) {
            Ok(c) => {
                self.ctype = c;
                Ok(())
            },
            Err(e) => Err(e),
        }
    }

    /// One exposition line, `name value` and a newline.
    pub fn serialize(&self) -> (r: String)
        ensures
            r@ == spec_snapshot_line(self@),
    {
        let mut s = self.name.clone();
        s.append(" ");
        let v = match self.ctype {
            CounterType::Counter { ts: _, value } => value,
            CounterType::Gauge { min: _, max: _, hits: _, total } => total,
        };
        let d = u64_to_dec(v);
        s.append(d.as_str());
        s.append("\n");
        proof {
            assert(s@ =~= spec_snapshot_line(self@));
        }
        s
    }
}

/// The delta composition the scraper relies on: merging a newer counter `b`
/// onto a base `a` and subtracting the base recovers `b`, as long as the sum
/// did not saturate and `b` is indeed the newer observation.
pub proof fn lemma_merge_subtract_recovers(a: CounterType, b: CounterType)
    requires
        a is Counter,
        b is Counter,
        a->Counter_ts <= b->Counter_ts,
        a->Counter_value + b->Counter_value <= u64::MAX,
    ensures
        spec_subtract(spec_merge(a, b), a) == b,
{
}

} // verus!
