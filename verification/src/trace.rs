use vstd::prelude::*;

verus! {

use crate::counters::{CounterSnapshot, SnapshotView};
use crate::errors::ProxyErr;
use crate::jobs::{JobDesc, JobDescView, JobProfile};
use crate::seqx::{contains_where, find_index, lemma_find_index, lemma_find_index_contains};
use crate::trace_codec::{
    dec_frame, dec_frames, enc_frame, enc_frames, read_frame_at, read_u64_at, dec_u64,
    encode_frame, spec_frame_ts, wf_frame, FrameView, MetadataView, TraceCounter,
    TraceCounterMetadata, TraceCounterView, TraceFrame,
};

/// First index in `ms` of the declaration of `name`, or `ms.len()` when the
/// name has not been declared in this trace.
pub open spec fn metas_find(ms: Seq<MetadataView>, name: Seq<char>) -> int {
    find_index(ms, |m: MetadataView| m.name == name)
}

pub open spec fn metas_has(ms: Seq<MetadataView>, name: Seq<char>) -> bool {
    contains_where(ms, |m: MetadataView| m.name == name)
}

/// Declaring the names of an incoming snapshot vector, front to back: a
/// name seen before changes nothing; a new name gets the next sequential id
/// and a `CounterMetadata` frame.  Yields the grown table and the frames to
/// append.
pub open spec fn spec_check_counter(
    ms0: Seq<MetadataView>,
    cs: Seq<SnapshotView>,
    now: u64,
) -> (Seq<MetadataView>, Seq<FrameView>)
    decreases cs.len(),
{
    if cs.len() == 0 {
        (ms0, Seq::empty())
    } else {
        let (m1, f1) = spec_check_counter(ms0, cs.drop_last(), now);
        let c = cs.last();
        if metas_has(m1, c.name) {
            (m1, f1)
        } else {
            let meta = MetadataView { id: m1.len() as u64, name: c.name, doc: c.doc };
            (m1.push(meta), f1.push(FrameView::CounterMetadata { ts: now, metadata: meta }))
        }
    }
}

/// Declaration reaches every incoming name: after the check, each snapshot
/// of the batch has an id in the table.
pub proof fn lemma_check_covers(ms0: Seq<MetadataView>, cs: Seq<SnapshotView>, now: u64)
    ensures
        forall|i: int|
            0 <= i < cs.len() ==> metas_has(spec_check_counter(ms0, cs, now).0, #[trigger] cs[i].name),
        spec_check_counter(ms0, cs, now).0.len() >= ms0.len(),
        forall|i: int|
            0 <= i < ms0.len() ==> spec_check_counter(ms0, cs, now).0[i] == ms0[i],
    decreases cs.len(),
{
    if cs.len() > 0 {
        lemma_check_covers(ms0, cs.drop_last(), now);
        let (m1, _f1) = spec_check_counter(ms0, cs.drop_last(), now);
        let c = cs.last();
        let m2 = spec_check_counter(ms0, cs, now).0;
        assert forall|i: int| 0 <= i < cs.len() implies metas_has(m2, #[trigger] cs[i].name) by {
            if i < cs.len() - 1 {
                assert(cs.drop_last()[i] == cs[i]);
                assert(metas_has(m1, cs[i].name));
                let w = choose|w: int| 0 <= w < m1.len() && m1[w].name == cs[i].name;
                assert(m2[w].name == cs[i].name);
            } else {
                if metas_has(m1, c.name) {
                    let w = choose|w: int| 0 <= w < m1.len() && m1[w].name == c.name;
                    assert(m2[w].name == c.name);
                } else {
                    assert(m2[m1.len() as int].name == c.name);
                }
            }
        }
    }
}

/// The `Counters` frame a batch writes: each snapshot's declared id paired
/// with its value, in batch order, under one timestamp.
pub open spec fn spec_counters_frame(
    ms: Seq<MetadataView>,
    cs: Seq<SnapshotView>,
    now: u64,
) -> FrameView {
    FrameView::Counters {
        ts: now,
        counters: Seq::new(
            cs.len(),
            |i: int|
                TraceCounterView {
                    id: ms[metas_find(ms, cs[i].name)].id,
                    value: cs[i].ctype,
                },
        ),
    }
}

/// Abstract value of a [`TraceState`].
pub struct TraceStateView {
    pub lastwrite: u64,
    pub path: Seq<char>,
    pub data: Seq<u8>,
    pub counters: Seq<MetadataView>,
}

/// The mutable core of one trace: the byte image of its file, the time of
/// the last write, and the id table of declared counter names.  The caller
/// persists the bytes each write appends.
pub struct TraceState {
    pub lastwrite: u64,
    pub path: String,
    pub data: Vec<u8>,
    pub counters: Vec<TraceCounterMetadata>,
    pub current_counter_id: u64,
}

impl View for TraceState {
    type V = TraceStateView;

    open spec fn view(&self) -> TraceStateView {
        TraceStateView {
            lastwrite: self.lastwrite,
            path: self.path@,
            data: self.data@,
            counters: self.counters@.map_values(|m: TraceCounterMetadata| m@),
        }
    }
}

impl TraceState {
    /// Ids are assigned sequentially: the table's i-th declaration carries
    /// id i, and the next id continues the table.
    pub open spec fn wf(self) -> bool {
        &&& self.current_counter_id as int == self@.counters.len()
        &&& forall|i: int| 0 <= i < self@.counters.len() ==> (#[trigger] self@.counters[i]).id == i
    }

    /// A fresh trace: its image holds exactly the description frame.
    pub fn new(path: String, job: &JobDesc, now: u64) -> (r: TraceState)
        ensures
            r@.data == enc_frame(FrameView::Desc { ts: now, desc: job@ }),
            r@.lastwrite == 0,
            r@.path == path@,
            r@.counters =~= Seq::<MetadataView>::empty(),
            r.wf(),
    {
        let first = TraceFrame::Desc { ts: now, desc: job.clone() };
        let data = encode_frame(&first);
        let r = TraceState { lastwrite: 0, path, data, counters: Vec::new(), current_counter_id: 0 };
        proof {
            assert(r@.counters =~= Seq::<MetadataView>::empty());
        }
        r
    }

    /// The trace image's size in bytes.
    pub fn len(&self) -> (r: u64)
        ensures
            r as int == self@.data.len(),
    {
        proof {
            assert(usize::MAX <= u64::MAX);
        }
        self.data.len() as u64
    }

    /// The description the trace opens with; fails exactly when the first
    /// frame cannot be read or is not a description.
    pub fn desc(&self) -> (r: Result<JobDesc, ProxyErr>)
        ensures
            r is Ok <==> (match dec_frame(self@.data, 0) {
                Some((f, _)) => f is Desc,
                None => false,
            }),
            r matches Ok(d) ==> d@ == dec_frame(self@.data, 0)->Some_0.0->Desc_desc,
    {
        if self.data.len() == 0 {
            return Err(ProxyErr::new("First frame of the trace is not a trace description"));
        }
        match read_frame_at(&self.data, 0) {
            Ok(Some((frame, _))) => match frame.desc() {
                Ok(d) => Ok(d),
                Err(e) => Err(e),
            },
            Ok(None) => Err(ProxyErr::new("First frame of the trace is not a trace description")),
            Err(e) => Err(e),
        }
    }

    /// Offset where the last length-prefixed frame begins, found by walking
    /// the prefixes from the start; `None` marks a walk that does not land
    /// exactly on the end of the data — a truncated or corrupt image.
    pub open spec fn spec_last_start(b: Seq<u8>, o: int) -> Option<int>
        decreases b.len() - o,
    {
        match dec_u64(b, o) {
            Some((len, o1)) => {
                if o1 + len == b.len() {
                    Some(o)
                } else if o1 + len < b.len() {
                    Self::spec_last_start(b, o1 + len)
                } else {
                    None
                }
            },
            None => None,
        }
    }

    /// Walk the frame lengths from the start to find where the last frame
    /// begins; an image whose lengths do not land exactly on its end is
    /// corrupt.
    #[verifier::loop_isolation(false)]
    pub fn offset_of_last_frame_start(data: &Vec<u8>) -> (r: Result<usize, ProxyErr>)
        ensures
            r matches Ok(o) ==> Self::spec_last_start(data@, 0) == Some(o as int),
            r is Err <==> Self::spec_last_start(data@, 0) is None,
    {
        let mut off: usize = 0;
        loop
            invariant
                off <= data@.len(),
                Self::spec_last_start(data@, 0) == Self::spec_last_start(data@, off as int),
            decreases data@.len() - off,
        {
            let (len, o1) = match read_u64_at(data, off) {
                Some(v) => v,
                None => {
                    return Err(ProxyErr::new("Overrun of the file when scanning for EOF"));
                },
            };
            proof {
                assert(usize::MAX <= u64::MAX);
            }
            if len == (data.len() - o1) as u64 {
                return Ok(off);
            }
            if len > (data.len() - o1) as u64 {
                return Err(ProxyErr::new("Overrun of the file when scanning for EOF"));
            }
            off = o1 + (len as usize);
        }
    }

    /// The starting offset the length walk finds is a real offset: a length
    /// prefix lies there and runs exactly to the end of the data.
    pub proof fn lemma_last_start_props(b: Seq<u8>, o: int)
        requires
            Self::spec_last_start(b, o) is Some,
            0 <= o,
        ensures
            ({
                let s = Self::spec_last_start(b, o)->Some_0;
                &&& o <= s
                &&& s + 8 <= b.len()
                &&& dec_u64(b, s) is Some
            }),
        decreases b.len() - o,
    {
        match dec_u64(b, o) {
            Some((len, o1)) => {
                if o1 + len == b.len() {
                } else if o1 + len < b.len() {
                    Self::lemma_last_start_props(b, o1 + len);
                }
            },
            None => {},
        }
    }

    /// The last frame of the image, recovered without an index by scanning
    /// the frame lengths from the start.
    pub fn read_last(&self) -> (r: Result<Option<TraceFrame>, ProxyErr>)
        ensures
            r is Ok <==> (Self::spec_last_start(self@.data, 0) is Some && dec_frame(
                self@.data,
                Self::spec_last_start(self@.data, 0)->Some_0,
            ) is Some),
            r matches Ok(f) ==> f is Some && f->Some_0@ == dec_frame(
                self@.data,
                Self::spec_last_start(self@.data, 0)->Some_0,
            )->Some_0.0,
    {
        let off = match Self::offset_of_last_frame_start(&self.data) {
            Ok(o) => o,
            Err(e) => {
                return Err(e);
            },
        };
        proof {
            Self::lemma_last_start_props(self@.data, 0);
        }
        match read_frame_at(&self.data, off) {
            Ok(Some((f, _))) => Ok(Some(f)),
            Ok(None) => {
                // Unreachable: the walk never lands on the very end.
                assert(false);
                Err(ProxyErr::new("Overrun of the file when scanning for EOF"))
            },
            Err(e) => Err(e),
        }
    }

    /// Reopen a trace from its file image: the size is the image's, and the
    /// last write time is recovered from the last frame.  The declaration
    /// table starts empty: a reopened trace is read or frozen, not pushed
    /// to.
    pub fn from(path: String, data: Vec<u8>) -> (r: Result<TraceState, ProxyErr>)
        ensures
            r is Ok <==> (Self::spec_last_start(data@, 0) is Some && dec_frame(
                data@,
                Self::spec_last_start(data@, 0)->Some_0,
            ) is Some),
            r matches Ok(t) ==> ({
                &&& t@.data == data@
                &&& t@.path == path@
                &&& t@.counters =~= Seq::<MetadataView>::empty()
                &&& t.wf()
                &&& t@.lastwrite == spec_frame_ts(
                    dec_frame(data@, Self::spec_last_start(data@, 0)->Some_0)->Some_0.0,
                )
            }),
    {
        let mut ret = TraceState {
            lastwrite: 0,
            path,
            data,
            counters: Vec::new(),
            current_counter_id: 0,
        };
        proof {
            assert(ret@.counters =~= Seq::<MetadataView>::empty());
        }
        let last = match ret.read_last() {
            Ok(l) => l,
            Err(e) => {
                return Err(e);
            },
        };
        if let Some(f) = last {
            ret.lastwrite = f.ts();
        }
        Ok(ret)
    }

    /// Declare the new names of an incoming batch, exactly as
    /// `spec_check_counter` lays out, returning the metadata frames to
    /// append.
    #[verifier::loop_isolation(false)]
    pub fn check_counter(&mut self, counters: &Vec<CounterSnapshot>, now: u64) -> (r: Vec<
        TraceFrame,
    >)
        requires
            old(self).wf(),
        ensures
            final(self)@ == (TraceStateView {
                counters: spec_check_counter(
                    old(self)@.counters,
                    counters@.map_values(|c: CounterSnapshot| c@),
                    now,
                ).0,
                ..old(self)@
            }),
            r@.map_values(|f: TraceFrame| f@) == spec_check_counter(
                old(self)@.counters,
                counters@.map_values(|c: CounterSnapshot| c@),
                now,
            ).1,
            final(self).wf(),
    {
        let ghost ms0 = self@.counters;
        let ghost cs = counters@.map_values(|c: CounterSnapshot| c@);
        let mut ret: Vec<TraceFrame> = Vec::new();
        proof {
            assert(cs.take(0) =~= Seq::<SnapshotView>::empty());
            assert(ret@.map_values(|f: TraceFrame| f@) =~= Seq::<FrameView>::empty());
        }
        let mut i: usize = 0;
        while i < counters.len()
            invariant
                i <= cs.len(),
                self@ == (TraceStateView {
                    counters: spec_check_counter(ms0, cs.take(i as int), now).0,
                    ..old(self)@
                }),
                ret@.map_values(|f: TraceFrame| f@) == spec_check_counter(
                    ms0,
                    cs.take(i as int),
                    now,
                ).1,
                self.wf(),
            decreases cs.len() - i,
        {
            let ghost m1 = spec_check_counter(ms0, cs.take(i as int), now).0;
            let ghost f1 = spec_check_counter(ms0, cs.take(i as int), now).1;
            proof {
                assert(cs.take(i + 1).drop_last() =~= cs.take(i as int));
                assert(cs.take(i + 1).last() == cs[i as int]);
                assert(counters@[i as int]@ == cs[i as int]);
                lemma_find_index(m1, |m: MetadataView| m.name == cs[i as int].name);
                lemma_find_index_contains(m1, |m: MetadataView| m.name == cs[i as int].name);
            }
            let c = &counters[i];
            let idx = find_meta(&self.counters, &c.name);
            if idx == self.counters.len() {
                let ghost mb = self.counters@;
                let ghost rb = ret@;
                let metadata = TraceCounterMetadata {
                    id: self.current_counter_id,
                    name: c.name.clone(),
                    doc: c.doc.clone(),
                };
                self.counters.push(metadata.clone());
                proof {
                    assert(usize::MAX <= u64::MAX);
                }
                self.current_counter_id = self.counters.len() as u64;
                ret.push(TraceFrame::CounterMetadata { ts: now, metadata });
                proof {
                    let fm = |m: TraceCounterMetadata| m@;
                    let ff = |f: TraceFrame| f@;
                    assert forall|j: int| 0 <= j < self.counters@.len() implies self.counters@.map_values(
                        fm,
                    )[j] == spec_check_counter(ms0, cs.take(i + 1), now).0[j] by {
                        if j < mb.len() {
                            assert(self.counters@[j] == mb[j]);
                        }
                    }
                    assert(self.counters@.map_values(fm) =~= spec_check_counter(
                        ms0,
                        cs.take(i + 1),
                        now,
                    ).0);
                    assert forall|j: int| 0 <= j < ret@.len() implies ret@.map_values(ff)[j]
                        == spec_check_counter(ms0, cs.take(i + 1), now).1[j] by {
                        if j < rb.len() {
                            assert(ret@[j] == rb[j]);
                        }
                    }
                    assert(ret@.map_values(ff) =~= spec_check_counter(ms0, cs.take(i + 1), now).1);
                }
            } else {
                proof {
                    assert(m1[idx as int].name == cs[i as int].name);
                    assert(metas_has(m1, cs[i as int].name));
                }
            }
            i += 1;
        }
        proof {
            assert(cs.take(cs.len() as int) =~= cs);
        }
        ret
    }

    /// The id the trace assigned to this snapshot's name, if declared.
    pub fn counter_id(&self, counter: &CounterSnapshot) -> (r: Option<u64>)
        ensures
            r is Some <==> metas_has(self@.counters, counter@.name),
            r matches Some(id) ==> id == self@.counters[metas_find(
                self@.counters,
                counter@.name,
            )].id,
    {
        let ghost ms = self@.counters;
        proof {
            lemma_find_index(ms, |m: MetadataView| m.name == counter@.name);
            lemma_find_index_contains(ms, |m: MetadataView| m.name == counter@.name);
        }
        let i = find_meta(&self.counters, &counter.name);
        if i < self.counters.len() {
            Some(self.counters[i].id)
        } else {
            None
        }
    }

    /// Append one frame's wire form to the image.
    pub fn write_frame(&mut self, frame: TraceFrame)
        ensures
            final(self)@ == (TraceStateView {
                data: old(self)@.data + enc_frame(frame@),
                ..old(self)@
            }),
            wf_frame(frame@),
            final(self).current_counter_id == old(self).current_counter_id,
            old(self).wf() ==> final(self).wf(),
    {
        let mut bytes = encode_frame(&frame);
        self.data.append(&mut bytes);
    }

    /// Append a batch of frames and stamp the write time; an empty batch
    /// changes nothing, not even the time.
    #[verifier::loop_isolation(false)]
    pub fn write_frames(&mut self, frames: Vec<TraceFrame>, now: u64)
        ensures
            final(self)@ == (TraceStateView {
                data: old(self)@.data + enc_frames(frames@.map_values(|f: TraceFrame| f@)),
                lastwrite: if frames@.len() == 0 {
                    old(self)@.lastwrite
                } else {
                    now
                },
                ..old(self)@
            }),
            forall|i: int|
                0 <= i < frames@.len() ==> wf_frame((#[trigger] frames@[i])@),
            old(self).wf() ==> final(self).wf(),
    {
        let ghost fs = frames@.map_values(|f: TraceFrame| f@);
        if frames.len() == 0 {
            proof {
                assert(enc_frames(fs) =~= Seq::<u8>::empty());
                assert(old(self)@.data + enc_frames(fs) =~= old(self)@.data);
            }
            return ;
        }
        let ghost d0 = self@.data;
        let mut i: usize = 0;
        while i < frames.len()
            invariant
                i <= fs.len(),
                self@ == (TraceStateView { data: d0 + enc_frames(fs.take(i as int)), ..old(self)@ }),
                self.current_counter_id == old(self).current_counter_id,
                forall|j: int| 0 <= j < i ==> wf_frame(#[trigger] fs[j]),
            decreases fs.len() - i,
        {
            proof {
                assert(fs.take(i + 1).drop_last() =~= fs.take(i as int));
                assert(fs.take(i + 1).last() == fs[i as int]);
                assert(frames@[i as int]@ == fs[i as int]);
            }
            let f = frames[i].clone();
            self.write_frame(f);
            proof {
                assert(self@.data =~= d0 + enc_frames(fs.take(i + 1)));
            }
            i += 1;
        }
        proof {
            assert(fs.take(fs.len() as int) =~= fs);
            assert forall|j: int| 0 <= j < frames@.len() implies wf_frame(
                (#[trigger] frames@[j])@,
            ) by {
                assert(fs[j] == frames@[j]@);
            }
        }
        self.lastwrite = now;
        proof {
            assert(self@ == (TraceStateView {
                data: old(self)@.data + enc_frames(fs),
                lastwrite: now,
                ..old(self)@
            }));
        }
    }

    /// Record one batch of snapshots: new names are declared first, then a
    /// single `Counters` frame carries every value under one timestamp.
    /// All frames are appended to the image; the caller persists the bytes.
    #[verifier::loop_isolation(false)]
    pub fn push(&mut self, counters: Vec<CounterSnapshot>, now: u64) -> (r: Result<(), ProxyErr>)
        requires
            old(self).wf(),
        ensures
            r is Ok,
            ({
                let cs = counters@.map_values(|c: CounterSnapshot| c@);
                let ms2 = spec_check_counter(old(self)@.counters, cs, now).0;
                let metaframes = spec_check_counter(old(self)@.counters, cs, now).1;
                final(self)@ == (TraceStateView {
                    data: old(self)@.data + enc_frames(
                        metaframes.push(spec_counters_frame(ms2, cs, now)),
                    ),
                    lastwrite: if metaframes.len() == 0 {
                        old(self)@.lastwrite
                    } else {
                        now
                    },
                    counters: ms2,
                    ..old(self)@
                })
            }),
            final(self).wf(),
    {
        let ghost cs = counters@.map_values(|c: CounterSnapshot| c@);
        let ghost ms0 = self@.counters;
        let meta_frames = self.check_counter(&counters, now);
        let ghost ms2 = self@.counters;
        let ghost metaframes = meta_frames@.map_values(|f: TraceFrame| f@);
        proof {
            lemma_check_covers(ms0, cs, now);
        }
        let ghost d1 = self@.data;
        self.write_frames(meta_frames, now);
        let mut tcs: Vec<TraceCounter> = Vec::new();
        let mut i: usize = 0;
        while i < counters.len()
            invariant
                i <= cs.len(),
                tcs@.len() == i,
                self@.counters == ms2,
                self.wf(),
                forall|j: int|
                    0 <= j < i ==> (#[trigger] tcs@[j])@ == (TraceCounterView {
                        id: ms2[metas_find(ms2, cs[j].name)].id,
                        value: cs[j].ctype,
                    }),
            decreases cs.len() - i,
        {
            proof {
                assert(counters@[i as int]@ == cs[i as int]);
            }
            let id = match self.counter_id(&counters[i]) {
                Some(id) => id,
                None => {
                    // Unreachable: the check above declared every name.
                    assert(false);
                    return Err(ProxyErr::new("Counter name was not declared"));
                },
            };
            tcs.push(TraceCounter { id, value: counters[i].ctype });
            i += 1;
        }
        let frame = TraceFrame::Counters { ts: now, counters: tcs };
        proof {
            assert(frame@->Counters_counters =~= spec_counters_frame(ms2, cs, now)
                ->Counters_counters);
            assert(frame@ == spec_counters_frame(ms2, cs, now));
        }
        self.write_frame(frame);
        proof {
            let all = metaframes.push(spec_counters_frame(ms2, cs, now));
            assert(all.drop_last() =~= metaframes);
            assert(all.last() == spec_counters_frame(ms2, cs, now));
            assert(self@.data =~= old(self)@.data + enc_frames(all));
        }
        Ok(())
    }

    /// Replay the whole image: the opening description, then every later
    /// frame in file order.  Fails exactly when the image does not read as
    /// frames from start to end or does not open with a description.
    #[verifier::loop_isolation(false)]
    pub fn read_all(&self) -> (r: Result<(JobDesc, Vec<TraceFrame>), ProxyErr>)
        ensures
            ({
                match dec_frames(self@.data, 0) {
                    Some(fs) => {
                        &&& (r is Ok <==> (fs.len() > 0 && fs[0] is Desc))
                        &&& (r matches Ok((d, frames)) ==> d@ == fs[0]->Desc_desc
                            && frames@.map_values(|f: TraceFrame| f@) == fs.drop_first())
                    },
                    None => r is Err,
                }
            }),
    {
        let b = &self.data;
        let first = match read_frame_at(b, 0) {
            Ok(Some(v)) => v,
            Ok(None) => {
                return Err(ProxyErr::new("Failed to read first frame"));
            },
            Err(e) => {
                return Err(e);
            },
        };
        let (f0, start) = first;
        let desc = match f0.desc() {
            Ok(d) => d,
            Err(e) => {
                proof {
                    if dec_frames(b@, 0) is Some {
                        let fs = dec_frames(b@, 0)->Some_0;
                        assert(fs[0] == dec_frame(b@, 0)->Some_0.0);
                    }
                }
                return Err(e);
            },
        };
        let ghost f0v = f0@;
        let mut frames: Vec<TraceFrame> = Vec::new();
        let mut cur: usize = start;
        proof {
            if dec_frames(b@, 0) is Some {
                let fs = dec_frames(b@, 0)->Some_0;
                assert(fs[0] == f0v);
            }
        }
        loop
            invariant
                cur <= b@.len(),

                ({
                    let acc = seq![f0v] + frames@.map_values(|f: TraceFrame| f@);
                    match dec_frames(b@, cur as int) {
                        Some(rest) => dec_frames(b@, 0) == Some(acc + rest),
                        None => dec_frames(b@, 0) is None,
                    }
                }),
            decreases b@.len() - cur,
        {
            let ghost acc = seq![f0v] + frames@.map_values(|f: TraceFrame| f@);
            match read_frame_at(b, cur) {
                Ok(Some((f, o2))) => {
                    let ghost fb = frames@;
                    frames.push(f);
                    proof {
                        let acc2 = seq![f0v] + frames@.map_values(|f: TraceFrame| f@);
                        assert(frames@.map_values(|x: TraceFrame| x@) =~= fb.map_values(
                            |x: TraceFrame| x@,
                        ).push(f@));
                        if dec_frames(b@, o2 as int) is Some {
                            let r2 = dec_frames(b@, o2 as int)->Some_0;
                            assert(dec_frames(b@, cur as int) == Some(seq![f@] + r2));
                            assert(acc + (seq![f@] + r2) =~= acc2 + r2);
                        }
                    }
                    cur = o2;
                },
                Ok(None) => {
                    proof {
                        assert(dec_frames(b@, cur as int) == Some(Seq::<FrameView>::empty()));
                        assert(acc + Seq::<FrameView>::empty() =~= acc);
                        let fs = dec_frames(b@, 0)->Some_0;
                        assert(fs == acc);
                        assert(fs.drop_first() =~= frames@.map_values(|f: TraceFrame| f@));
                    }
                    return Ok((desc, frames));
                },
                Err(e) => {
                    return Err(e);
                },
            }
        }
    }
}

/// First index in `v` of the declaration of `name`, or the length when
/// absent.
#[verifier::loop_isolation(false)]
fn find_meta(v: &Vec<TraceCounterMetadata>, name: &String) -> (r: usize)
    ensures
        r as int == metas_find(v@.map_values(|m: TraceCounterMetadata| m@), name@),
        r <= v@.len(),
{
    let ghost s = v@.map_values(|m: TraceCounterMetadata| m@);
    proof {
        lemma_find_index(s, |m: MetadataView| m.name == name@);
    }
    let mut i: usize = 0;
    while i < v.len()
        invariant
            i <= v@.len(),
            forall|j: int| 0 <= j < i ==> s[j].name != name@,
        decreases v@.len() - i,
    {
        if v[i].name == *name {
            assert(s[i as int].name == name@);
            return i;
        }
        i += 1;
    }
    v.len()
}


/// What reopening a trace file yields, when its bytes read back: the
/// description (end time backfilled from the last write), the reopened
/// state, not yet frozen.
pub open spec fn spec_trace_from(path: Seq<char>, data: Seq<u8>) -> Option<TraceVal> {
    if TraceState::spec_last_start(data, 0) is Some && dec_frame(
        data,
        TraceState::spec_last_start(data, 0)->Some_0,
    ) is Some && dec_frame(data, 0) is Some && dec_frame(data, 0)->Some_0.0 is Desc {
        let lw = spec_frame_ts(
            dec_frame(data, TraceState::spec_last_start(data, 0)->Some_0)->Some_0.0,
        );
        let d0 = dec_frame(data, 0)->Some_0.0->Desc_desc;
        Some(
            TraceVal {
                desc: if lw != 0 {
                    JobDescView { end_time: lw, ..d0 }
                } else {
                    d0
                },
                state: TraceStateView {
                    lastwrite: lw,
                    path,
                    data,
                    counters: Seq::empty(),
                },
                done: false,
            },
        )
    } else {
        None
    }
}

/// Abstract value of a [`Trace`].
pub struct TraceVal {
    pub desc: JobDescView,
    pub state: TraceStateView,
    pub done: bool,
}

/// One job's trace: its description, the mutable file image, and the frozen
/// flag set when the job completes — a frozen trace refuses further pushes.
pub struct Trace {
    pub desc: JobDesc,
    pub state: TraceState,
    pub done: bool,
}

impl View for Trace {
    type V = TraceVal;

    open spec fn view(&self) -> TraceVal {
        TraceVal { desc: self.desc@, state: self.state@, done: self.done }
    }
}

impl Trace {
    pub open spec fn wf(self) -> bool {
        self.state.wf()
    }

    /// The file path a job's trace lives under: `<prefix>/<jobid>.trace`.
    pub fn name(prefix: &String, desc: &JobDesc) -> (r: String)
        ensures
            r@ == prefix@ + "/"@ + desc@.jobid + ".trace"@,
    {
        let mut out = prefix.clone();
        out.append("/");
        out.append(desc.jobid.as_str());
        out.append(".trace");
        proof {
            assert(out@ =~= prefix@ + "/"@ + desc@.jobid + ".trace"@);
        }
        out
    }

    /// A fresh trace for a job first observed now: its image opens with the
    /// description frame.  A job id is a one-shot key: the caller refuses to
    /// create a trace whose file already exists.
    pub fn new(prefix: &String, desc: &JobDesc, now: u64) -> (r: Trace)
        ensures
            r@.desc == desc@,
            r@.done == false,
            r@.state.data == enc_frame(FrameView::Desc { ts: now, desc: desc@ }),
            r@.state.path == prefix@ + "/"@ + desc@.jobid + ".trace"@,
            r@.state.lastwrite == 0,
            r@.state.counters =~= Seq::<MetadataView>::empty(),
            r.wf(),
    {
        let path = Trace::name(prefix, desc);
        let state = TraceState::new(path, desc, now);
        Trace { desc: desc.clone(), state, done: false }
    }

    /// Reopen a trace from its file image, recovering the description and
    /// backfilling its end time from the last observed activity.
    pub fn new_from_file(path: String, data: Vec<u8>) -> (r: Result<Trace, ProxyErr>)
        ensures
            r is Ok <==> spec_trace_from(path@, data@) is Some,
            r matches Ok(t) ==> t@ == spec_trace_from(path@, data@)->Some_0 && t.wf(),
    {
        let state = match TraceState::from(path, data) {
            Ok(st) => st,
            Err(e) => {
                return Err(e);
            },
        };
        let mut desc = match state.desc() {
            Ok(d) => d,
            Err(e) => {
                return Err(e);
            },
        };
        if state.lastwrite != 0 {
            desc.end_time = state.lastwrite;
        }
        Ok(Trace { desc, state, done: false })
    }

    pub fn desc(&self) -> (r: &JobDesc)
        ensures
            r@ == self@.desc,
    {
        &self.desc
    }

    pub fn path(&self) -> (r: String)
        ensures
            r@ == self@.state.path,
    {
        self.state.path.clone()
    }

    /// Record a profile's counters in this trace; a frozen trace refuses
    /// and nothing changes.
    pub fn push(&mut self, profile: JobProfile, now: u64) -> (r: Result<(), ProxyErr>)
        requires
            old(self).wf(),
        ensures
            r is Ok <==> !old(self)@.done,
            r is Err ==> final(self)@ == old(self)@,
            r is Ok ==> ({
                let cs = profile@.counters;
                let ms2 = spec_check_counter(old(self)@.state.counters, cs, now).0;
                let metaframes = spec_check_counter(old(self)@.state.counters, cs, now).1;
                final(self)@ == (TraceVal {
                    state: TraceStateView {
                        data: old(self)@.state.data + enc_frames(
                            metaframes.push(spec_counters_frame(ms2, cs, now)),
                        ),
                        lastwrite: if metaframes.len() == 0 {
                            old(self)@.state.lastwrite
                        } else {
                            now
                        },
                        counters: ms2,
                        ..old(self)@.state
                    },
                    ..old(self)@
                })
            }),
            final(self).wf(),
    {
        if self.done {
            return Err(ProxyErr::new("Job is done"));
        }
        match self.state.push(profile.counters, now) {
            Ok(()) => Ok(()),
            Err(e) => {
                // Unreachable: recording a batch always succeeds.
                Err(e)
            },
        }
    }
}

/// Abstract value of a [`TraceInfo`].
pub struct TraceInfoView {
    pub desc: JobDescView,
    pub size: u64,
    pub lastwrite: u64,
}

/// What the trace listing shows of one trace: its description, the size of
/// its image, and the last write time.
pub struct TraceInfo {
    pub desc: JobDesc,
    pub size: u64,
    pub lastwrite: u64,
}

impl View for TraceInfo {
    type V = TraceInfoView;

    open spec fn view(&self) -> TraceInfoView {
        TraceInfoView { desc: self.desc@, size: self.size, lastwrite: self.lastwrite }
    }
}

impl TraceInfo {
    pub fn new(trace: &Trace) -> (r: TraceInfo)
        ensures
            r@.desc == trace@.desc,
            r@.size as int == trace@.state.data.len(),
            r@.lastwrite == trace@.state.lastwrite,
    {
        TraceInfo {
            desc: trace.desc.clone(),
            size: trace.state.len(),
            lastwrite: trace.state.lastwrite,
        }
    }
}

/// One replayed trace: its listing entry and its frames after the opening
/// description, optionally filtered down to one metric name.
pub struct TraceRead {
    pub info: TraceInfo,
    pub frames: Vec<TraceFrame>,
}

/// Filtering a replay down to one metric name, front to back, carrying the
/// id the name was declared under: the matching declaration is kept and
/// sets the id; value frames are cut down to that id's datapoints and kept
/// only when datapoints remain; everything else is dropped.
pub open spec fn spec_filter_acc(fs: Seq<FrameView>, name: Seq<char>) -> (
    Seq<FrameView>,
    Option<u64>,
)
    decreases fs.len(),
{
    if fs.len() == 0 {
        (Seq::empty(), None::<u64>)
    } else {
        let (acc, fid) = spec_filter_acc(fs.drop_last(), name);
        match fs.last() {
            FrameView::CounterMetadata { ts: _, metadata } => {
                if metadata.name == name {
                    (acc.push(fs.last()), Some(metadata.id))
                } else {
                    (acc, fid)
                }
            },
            FrameView::Desc { .. } => (acc, fid),
            FrameView::Counters { ts, counters } => {
                match fid {
                    Some(id) => {
                        let kept = counters.filter(|c: TraceCounterView| c.id == id);
                        if kept.len() > 0 {
                            (acc.push(FrameView::Counters { ts, counters: kept }), fid)
                        } else {
                            (acc, fid)
                        }
                    },
                    None => (acc, fid),
                }
            },
        }
    }
}

pub open spec fn spec_filter_frames(fs: Seq<FrameView>, name: Seq<char>) -> Seq<FrameView> {
    spec_filter_acc(fs, name).0
}

/// What a filtered replay may contain: only declarations of the filtered
/// name, and value frames all of whose datapoints carry the id of such a
/// declaration occurring in the replay.
pub proof fn lemma_filter_only_named(fs: Seq<FrameView>, name: Seq<char>)
    ensures
        forall|i: int|
            0 <= i < spec_filter_frames(fs, name).len() ==> (match #[trigger] spec_filter_frames(
                fs,
                name,
            )[i] {
                FrameView::CounterMetadata { metadata, .. } => metadata.name == name,
                FrameView::Desc { .. } => false,
                FrameView::Counters { counters, .. } => counters.len() > 0 && exists|k: int|
                    0 <= k < fs.len() && ((#[trigger] fs[k]) matches FrameView::CounterMetadata {
                        metadata: m,
                        ..
                    } && m.name == name && forall|j: int|
                        0 <= j < counters.len() ==> (#[trigger] counters[j]).id == m.id),
            }),
    decreases fs.len(),
{
    if fs.len() > 0 {
        lemma_filter_only_named(fs.drop_last(), name);
        let (acc, fid) = spec_filter_acc(fs.drop_last(), name);
        let out = spec_filter_frames(fs, name);
        lemma_filter_id_declared(fs.drop_last(), name);
        assert forall|i: int| 0 <= i < out.len() implies (match #[trigger] out[i] {
            FrameView::CounterMetadata { metadata, .. } => metadata.name == name,
            FrameView::Desc { .. } => false,
            FrameView::Counters { counters, .. } => counters.len() > 0 && exists|k: int|
                0 <= k < fs.len() && ((#[trigger] fs[k]) matches FrameView::CounterMetadata {
                    metadata: m,
                    ..
                } && m.name == name && forall|j: int|
                    0 <= j < counters.len() ==> (#[trigger] counters[j]).id == m.id),
        }) by {
            let prev = spec_filter_frames(fs.drop_last(), name);
            if i < prev.len() {
                assert(out[i] == prev[i]);
                match prev[i] {
                    FrameView::Counters { counters, .. } => {
                        let k = choose|k: int|
                            0 <= k < fs.drop_last().len() && ((#[trigger] fs.drop_last()[k]) matches FrameView::CounterMetadata {
                                metadata: m,
                                ..
                            } && m.name == name && forall|j: int|
                                0 <= j < counters.len() ==> (#[trigger] counters[j]).id == m.id);
                        assert(fs[k] == fs.drop_last()[k]);
                    },
                    _ => {},
                }
            } else if i < out.len() {
                match fs.last() {
                    FrameView::CounterMetadata { .. } => {},
                    FrameView::Desc { .. } => {},
                    FrameView::Counters { ts: _, counters } => {
                        if fid is Some {
                            let id = fid->0;
                            let kept = counters.filter(|c: TraceCounterView| c.id == id);
                            assert forall|j: int|
                                0 <= j < kept.len() implies (#[trigger] kept[j]).id == id by {
                                counters.lemma_filter_pred(|c: TraceCounterView| c.id == id, j);
                            }
                            let k = choose|k: int|
                                0 <= k < fs.drop_last().len() && ((#[trigger] fs.drop_last()[k]) matches FrameView::CounterMetadata {
                                    metadata: m,
                                    ..
                                } && m.name == name && m.id == id);
                            assert(fs[k] == fs.drop_last()[k]);
                        }
                    },
                }
            }
        }
    }
}

/// The id the filter carries always comes from a declaration of the
/// filtered name earlier in the replay.
proof fn lemma_filter_id_declared(fs: Seq<FrameView>, name: Seq<char>)
    ensures
        spec_filter_acc(fs, name).1 matches Some(id) ==> exists|k: int|
            0 <= k < fs.len() && ((#[trigger] fs[k]) matches FrameView::CounterMetadata {
                metadata: m,
                ..
            } && m.name == name && m.id == id),
    decreases fs.len(),
{
    if fs.len() > 0 {
        lemma_filter_id_declared(fs.drop_last(), name);
        let fid = spec_filter_acc(fs, name).1;
        if fid is Some {
            let id = fid->0;
            match fs.last() {
                FrameView::CounterMetadata { ts: _, metadata } => {
                    if metadata.name == name {
                        assert(fs[fs.len() - 1] == fs.last());
                    } else {
                        let k = choose|k: int|
                            0 <= k < fs.drop_last().len() && ((#[trigger] fs.drop_last()[k]) matches FrameView::CounterMetadata {
                                metadata: m,
                                ..
                            } && m.name == name && m.id == id);
                        assert(fs[k] == fs.drop_last()[k]);
                    }
                },
                _ => {
                    let k = choose|k: int|
                        0 <= k < fs.drop_last().len() && ((#[trigger] fs.drop_last()[k]) matches FrameView::CounterMetadata {
                            metadata: m,
                            ..
                        } && m.name == name && m.id == id);
                    assert(fs[k] == fs.drop_last()[k]);
                },
            }
        }
    }
}

/// Replay fidelity: a trace image assembled from well-formed frames reads
/// back as exactly those frames.
pub proof fn lemma_trace_replay(fs: Seq<FrameView>)
    requires
        forall|i: int| 0 <= i < fs.len() ==> wf_frame(#[trigger] fs[i]),
    ensures
        dec_frames(enc_frames(fs), 0) == Some(fs),
{
    let b = enc_frames(fs);
    assert(b.subrange(0, b.len() as int) =~= b);
    crate::trace_codec::lemma_dec_enc_frames(b, 0, fs);
}

/// Cut a replay down to one metric name, as `spec_filter_frames` lays out.
#[verifier::loop_isolation(false)]
pub fn filter_frames(frames: &Vec<TraceFrame>, name: &String) -> (r: Vec<TraceFrame>)
    ensures
        r@.map_values(|f: TraceFrame| f@) == spec_filter_frames(
            frames@.map_values(|f: TraceFrame| f@),
            name@,
        ),
{
    let ghost fs = frames@.map_values(|f: TraceFrame| f@);
    let mut out: Vec<TraceFrame> = Vec::new();
    let mut fid: Option<u64> = None;
    proof {
        assert(fs.take(0) =~= Seq::<FrameView>::empty());
        assert(out@.map_values(|f: TraceFrame| f@) =~= Seq::<FrameView>::empty());
    }
    let mut i: usize = 0;
    while i < frames.len()
        invariant
            i <= fs.len(),
            out@.map_values(|f: TraceFrame| f@) == spec_filter_acc(fs.take(i as int), name@).0,
            fid == spec_filter_acc(fs.take(i as int), name@).1,
        decreases fs.len() - i,
    {
        let ghost accb = out@.map_values(|f: TraceFrame| f@);
        proof {
            assert(fs.take(i + 1).drop_last() =~= fs.take(i as int));
            assert(fs.take(i + 1).last() == fs[i as int]);
            assert(frames@[i as int]@ == fs[i as int]);
        }
        match &frames[i] {
            TraceFrame::CounterMetadata { ts: _, metadata } => {
                if metadata.name == *name {
                    let ghost ob = out@;
                    out.push(frames[i].clone());
                    fid = Some(metadata.id);
                    proof {
                        assert(out@.map_values(|f: TraceFrame| f@) =~= accb.push(fs[i as int]));
                    }
                }
            },
            TraceFrame::Desc { .. } => {},
            TraceFrame::Counters { ts, counters } => {
                if let Some(id) = fid {
                    let ghost cvs = counters@.map_values(|c: TraceCounter| c@);
                    let mut kept: Vec<TraceCounter> = Vec::new();
                    proof {
                        reveal(Seq::filter);
                        assert(cvs.take(0) =~= Seq::<TraceCounterView>::empty());
                        assert(kept@.map_values(|c: TraceCounter| c@) =~= cvs.take(0).filter(
                            |c: TraceCounterView| c.id == id,
                        ));
                    }
                    let mut j: usize = 0;
                    while j < counters.len()
                        invariant
                            j <= cvs.len(),
                            kept@.map_values(|c: TraceCounter| c@) == cvs.take(j as int).filter(
                                |c: TraceCounterView| c.id == id,
                            ),
                        decreases cvs.len() - j,
                    {
                        let ghost kb = kept@.map_values(|c: TraceCounter| c@);
                        proof {
                            reveal(Seq::filter);
                            assert(cvs.take(j + 1).drop_last() =~= cvs.take(j as int));
                            assert(cvs.take(j + 1).last() == cvs[j as int]);
                            assert(counters@[j as int]@ == cvs[j as int]);
                        }
                        if counters[j].id == id {
                            kept.push(counters[j].clone());
                            proof {
                                assert(kept@.map_values(|c: TraceCounter| c@) =~= kb.push(
                                    cvs[j as int],
                                ));
                            }
                        }
                        j += 1;
                    }
                    proof {
                        reveal(Seq::filter);
                        assert(cvs.take(cvs.len() as int) =~= cvs);
                    }
                    if kept.len() > 0 {
                        let nf = TraceFrame::Counters { ts: *ts, counters: kept };
                        proof {
                            assert(nf@ == (FrameView::Counters {
                                ts: *ts,
                                counters: cvs.filter(|c: TraceCounterView| c.id == id),
                            }));
                        }
                        out.push(nf);
                        proof {
                            assert(out@.map_values(|f: TraceFrame| f@) =~= accb.push(
                                FrameView::Counters {
                                    ts: *ts,
                                    counters: cvs.filter(|c: TraceCounterView| c.id == id),
                                },
                            ));
                        }
                    }
                }
            },
        }
        i += 1;
    }
    proof {
        assert(fs.take(fs.len() as int) =~= fs);
    }
    out
}



/// First index in `ts` of the trace of `jobid`, or `ts.len()` when absent.
pub open spec fn traces_find(ts: Seq<TraceVal>, jobid: Seq<char>) -> int {
    find_index(ts, |t: TraceVal| t.desc.jobid == jobid)
}

pub open spec fn traces_has(ts: Seq<TraceVal>, jobid: Seq<char>) -> bool {
    contains_where(ts, |t: TraceVal| t.desc.jobid == jobid)
}

/// A newly loaded or created trace joins the table; a job id seen twice
/// keeps the later trace.
pub open spec fn spec_trace_upsert(ts: Seq<TraceVal>, t: TraceVal) -> Seq<TraceVal> {
    if traces_has(ts, t.desc.jobid) {
        ts.update(traces_find(ts, t.desc.jobid), t)
    } else {
        ts.push(t)
    }
}

/// Loading a directory of trace files, in order: every file whose bytes
/// read back joins the table, unreadable files are skipped.
pub open spec fn spec_load_traces(files: Seq<(Seq<char>, Seq<u8>)>) -> Seq<TraceVal>
    decreases files.len(),
{
    if files.len() == 0 {
        Seq::empty()
    } else {
        let prev = spec_load_traces(files.drop_last());
        match spec_trace_from(files.last().0, files.last().1) {
            Some(t) => spec_trace_upsert(prev, t),
            None => prev,
        }
    }
}

/// Abstract value of a [`TraceView`].
pub struct TraceDirVal {
    pub prefix: Seq<char>,
    pub traces: Seq<TraceVal>,
}

/// The view layer over all traces under one directory prefix: loaded at
/// startup from the existing files, grown as jobs appear, frozen as they
/// complete.
pub struct TraceView {
    pub prefix: String,
    pub traces: Vec<Trace>,
}

impl View for TraceView {
    type V = TraceDirVal;

    open spec fn view(&self) -> TraceDirVal {
        TraceDirVal {
            prefix: self.prefix@,
            traces: self.traces@.map_values(|t: Trace| t@),
        }
    }
}

/// First index in `v` of the trace of `jobid`, or the length when absent.
#[verifier::loop_isolation(false)]
fn find_trace(v: &Vec<Trace>, jobid: &String) -> (r: usize)
    ensures
        r as int == traces_find(v@.map_values(|t: Trace| t@), jobid@),
        r <= v@.len(),
{
    let ghost s = v@.map_values(|t: Trace| t@);
    proof {
        lemma_find_index(s, |t: TraceVal| t.desc.jobid == jobid@);
    }
    let mut i: usize = 0;
    while i < v.len()
        invariant
            i <= v@.len(),
            forall|j: int| 0 <= j < i ==> s[j].desc.jobid != jobid@,
        decreases v@.len() - i,
    {
        if v[i].desc.jobid == *jobid {
            assert(s[i as int].desc.jobid == jobid@);
            return i;
        }
        i += 1;
    }
    v.len()
}

impl TraceView {
    /// Every loaded trace can be pushed to and read.
    pub open spec fn wf(self) -> bool {
        forall|i: int| 0 <= i < self@.traces.len() ==> (#[trigger] self.traces@[i]).wf()
    }

    /// Reopen every existing trace file, tolerating unreadable ones by
    /// skipping them.
    #[verifier::loop_isolation(false)]
    pub fn load_existing_traces(files: Vec<(String, Vec<u8>)>) -> (r: Vec<Trace>)
        ensures
            r@.map_values(|t: Trace| t@) == spec_load_traces(
                files@.map_values(|p: (String, Vec<u8>)| (p.0@, p.1@)),
            ),
            forall|i: int| 0 <= i < r@.len() ==> (#[trigger] r@[i]).wf(),
    {
        let ghost fvs = files@.map_values(|p: (String, Vec<u8>)| (p.0@, p.1@));
        let mut out: Vec<Trace> = Vec::new();
        proof {
            assert(fvs.take(0) =~= Seq::<(Seq<char>, Seq<u8>)>::empty());
            assert(out@.map_values(|t: Trace| t@) =~= Seq::<TraceVal>::empty());
        }
        let mut i: usize = 0;
        let n = files.len();
        let mut files = files;
        // Consume the images front to back, keeping the later of two
        // traces that claim the same job id.
        while i < n
            invariant
                i <= n,
                files@.len() == n - i,
                fvs.len() == n,
                forall|j: int| 0 <= j < n - i ==> (#[trigger] files@[j]).0@ == fvs[i + j].0
                    && files@[j].1@ == fvs[i + j].1,
                out@.map_values(|t: Trace| t@) == spec_load_traces(fvs.take(i as int)),
                forall|j: int| 0 <= j < out@.len() ==> (#[trigger] out@[j]).wf(),
            decreases n - i,
        {
            let ghost prev = spec_load_traces(fvs.take(i as int));
            proof {
                assert(fvs.take(i + 1).drop_last() =~= fvs.take(i as int));
                assert(fvs.take(i + 1).last() == fvs[i as int]);
            }
            let (path, data) = files.remove(0);
            proof {
                assert(path@ == fvs[i as int].0);
                assert(data@ == fvs[i as int].1);
            }
            match Trace::new_from_file(path, data) {
                Ok(t) => {
                    let ghost tv = t@;
                    proof {
                        lemma_find_index(prev, |x: TraceVal| x.desc.jobid == tv.desc.jobid);
                        lemma_find_index_contains(prev, |x: TraceVal| x.desc.jobid == tv.desc.jobid);
                    }
                    let ghost ob = out@;
                    let idx = find_trace(&out, &t.desc.jobid);
                    if idx < out.len() {
                        out.set(idx, t);
                        proof {
                            let f = |x: Trace| x@;
                            assert forall|j: int| 0 <= j < out@.len() implies out@.map_values(f)[j]
                                == spec_trace_upsert(prev, tv)[j] by {
                                if j != idx {
                                    assert(out@[j] == ob[j]);
                                }
                            }
                            assert(out@.map_values(f) =~= spec_trace_upsert(prev, tv));
                        }
                    } else {
                        out.push(t);
                        proof {
                            let f = |x: Trace| x@;
                            assert forall|j: int| 0 <= j < out@.len() implies out@.map_values(f)[j]
                                == spec_trace_upsert(prev, tv)[j] by {
                                if j < ob.len() {
                                    assert(out@[j] == ob[j]);
                                }
                            }
                            assert(out@.map_values(f) =~= spec_trace_upsert(prev, tv));
                        }
                    }
                },
                Err(_) => {},
            }
            i += 1;
        }
        proof {
            assert(fvs.take(fvs.len() as int) =~= fvs);
        }
        out
    }

    /// The view layer over a directory: its prefix and every readable trace
    /// file under it, handed in by the caller.
    pub fn new(prefix: String, files: Vec<(String, Vec<u8>)>) -> (r: TraceView)
        ensures
            r@.prefix == prefix@,
            r@.traces == spec_load_traces(files@.map_values(|p: (String, Vec<u8>)| (p.0@, p.1@))),
            r.wf(),
    {
        let traces = Self::load_existing_traces(files);
        TraceView { prefix, traces }
    }

    /// The listing of every known trace, in table order.
    #[verifier::loop_isolation(false)]
    pub fn list(&self) -> (r: Vec<TraceInfo>)
        ensures
            r@.len() == self@.traces.len(),
            forall|i: int|
                0 <= i < r@.len() ==> (#[trigger] r@[i])@ == (TraceInfoView {
                    desc: self@.traces[i].desc,
                    size: self@.traces[i].state.data.len() as u64,
                    lastwrite: self@.traces[i].state.lastwrite,
                }),
    {
        let mut out: Vec<TraceInfo> = Vec::new();
        let mut i: usize = 0;
        while i < self.traces.len()
            invariant
                i <= self@.traces.len(),
                out@.len() == i,
                forall|j: int|
                    0 <= j < i ==> (#[trigger] out@[j])@ == (TraceInfoView {
                        desc: self@.traces[j].desc,
                        size: self@.traces[j].state.data.len() as u64,
                        lastwrite: self@.traces[j].state.lastwrite,
                    }),
            decreases self@.traces.len() - i,
        {
            out.push(TraceInfo::new(&self.traces[i]));
            i += 1;
        }
        out
    }

    /// The trace of `desc`'s job, created on first observation.  The index
    /// into the table comes back; a job id is a one-shot key, so a job seen
    /// before — frozen or not — maps to its existing trace.
    pub fn get(&mut self, desc: &JobDesc, now: u64) -> (r: usize)
        requires
            old(self).wf(),
        ensures
            r < final(self)@.traces.len(),
            final(self)@.traces[r as int].desc.jobid == desc@.jobid,
            traces_has(old(self)@.traces, desc@.jobid) ==> final(self)@ == old(self)@ && r as int
                == traces_find(old(self)@.traces, desc@.jobid),
            !traces_has(old(self)@.traces, desc@.jobid) ==> ({
                &&& r as int == old(self)@.traces.len()
                &&& final(self)@.prefix == old(self)@.prefix
                &&& final(self)@.traces == old(self)@.traces.push(
                    TraceVal {
                        desc: desc@,
                        state: TraceStateView {
                            lastwrite: 0,
                            path: old(self)@.prefix + "/"@ + desc@.jobid + ".trace"@,
                            data: enc_frame(FrameView::Desc { ts: now, desc: desc@ }),
                            counters: Seq::empty(),
                        },
                        done: false,
                    },
                )
            }),
            final(self).wf(),
    {
        let ghost ts = self@.traces;
        proof {
            lemma_find_index(ts, |t: TraceVal| t.desc.jobid == desc@.jobid);
            lemma_find_index_contains(ts, |t: TraceVal| t.desc.jobid == desc@.jobid);
        }
        let i = find_trace(&self.traces, &desc.jobid);
        if i < self.traces.len() {
            i
        } else {
            let ghost before = self.traces@;
            let t = Trace::new(&self.prefix, desc, now);
            proof {
                assert(t@.state.counters =~= Seq::<MetadataView>::empty());
            }
            self.traces.push(t);
            proof {
                let f = |x: Trace| x@;
                let tv = TraceVal {
                    desc: desc@,
                    state: TraceStateView {
                        lastwrite: 0,
                        path: old(self)@.prefix + "/"@ + desc@.jobid + ".trace"@,
                        data: enc_frame(FrameView::Desc { ts: now, desc: desc@ }),
                        counters: Seq::empty(),
                    },
                    done: false,
                };
                assert forall|j: int| 0 <= j < self.traces@.len() implies self.traces@.map_values(
                    f,
                )[j] == before.map_values(f).push(tv)[j] by {
                    if j < before.len() {
                        assert(self.traces@[j] == before[j]);
                    } else {
                        assert(self.traces@[j]@.state.counters =~= tv.state.counters);
                    }
                }
                assert(self.traces@.map_values(f) =~= before.map_values(f).push(tv));
            }
            self.traces.len() - 1
        }
    }

    /// Freeze a job's trace: later pushes to it fail.  Freezing an unknown
    /// job changes nothing and is not an error.
    pub fn done(&mut self, job: &JobDesc) -> (r: Result<(), ProxyErr>)
        ensures
            r is Ok,
            traces_has(old(self)@.traces, job@.jobid) ==> final(self)@ == (TraceDirVal {
                traces: old(self)@.traces.update(
                    traces_find(old(self)@.traces, job@.jobid),
                    TraceVal {
                        done: true,
                        ..old(self)@.traces[traces_find(old(self)@.traces, job@.jobid)]
                    },
                ),
                ..old(self)@
            }),
            !traces_has(old(self)@.traces, job@.jobid) ==> final(self)@ == old(self)@,
            old(self).wf() ==> final(self).wf(),
    {
        let ghost ts = self@.traces;
        proof {
            lemma_find_index(ts, |t: TraceVal| t.desc.jobid == job@.jobid);
            lemma_find_index_contains(ts, |t: TraceVal| t.desc.jobid == job@.jobid);
        }
        let i = find_trace(&self.traces, &job.jobid);
        if i < self.traces.len() {
            let ghost before = self.traces@;
            let mut t = self.traces.remove(i);
            t.done = true;
            self.traces.insert(i, t);
            proof {
                let f = |x: Trace| x@;
                let target = ts.update(i as int, TraceVal { done: true, ..ts[i as int] });
                assert forall|j: int| 0 <= j < self.traces@.len() implies self.traces@.map_values(
                    f,
                )[j] == target[j] by {
                    if j < i {
                        assert(self.traces@[j] == before[j]);
                    } else if j > i {
                        assert(self.traces@[j] == before[j]);
                    }
                }
                assert(self.traces@.map_values(f) =~= target);
            }
        }
        Ok(())
    }

    /// Drop a job's trace from the table — the one deletion path — and hand
    /// back the file path for the caller to unlink.
    pub fn clear(&mut self, desc: &JobDesc) -> (r: String)
        ensures
            r@ == old(self)@.prefix + "/"@ + desc@.jobid + ".trace"@,
            traces_has(old(self)@.traces, desc@.jobid) ==> final(self)@ == (TraceDirVal {
                traces: old(self)@.traces.remove(traces_find(old(self)@.traces, desc@.jobid)),
                ..old(self)@
            }),
            !traces_has(old(self)@.traces, desc@.jobid) ==> final(self)@ == old(self)@,
            old(self).wf() ==> final(self).wf(),
    {
        let ghost ts = self@.traces;
        proof {
            lemma_find_index(ts, |t: TraceVal| t.desc.jobid == desc@.jobid);
            lemma_find_index_contains(ts, |t: TraceVal| t.desc.jobid == desc@.jobid);
        }
        let i = find_trace(&self.traces, &desc.jobid);
        if i < self.traces.len() {
            let ghost before = self.traces@;
            let _ = self.traces.remove(i);
            proof {
                let f = |x: Trace| x@;
                assert forall|j: int| 0 <= j < self.traces@.len() implies self.traces@.map_values(
                    f,
                )[j] == ts.remove(i as int)[j] by {
                    if j < i {
                        assert(self.traces@[j] == before[j]);
                    } else {
                        assert(self.traces@[j] == before[j + 1]);
                    }
                }
                assert(self.traces@.map_values(f) =~= ts.remove(i as int));
            }
        }
        Trace::name(&self.prefix, desc)
    }

    /// Replay one job's trace, optionally filtered down to one metric name.
    /// Fails exactly when the job id is unknown, its image does not read
    /// back, or the image does not open with a description.
    pub fn read(&self, jobid: String, filter: Option<String>) -> (r: Result<TraceRead, ProxyErr>)
        ensures
            r is Ok ==> traces_has(self@.traces, jobid@),
            !traces_has(self@.traces, jobid@) ==> r is Err,
            traces_has(self@.traces, jobid@) ==> ({
                let t = self@.traces[traces_find(self@.traces, jobid@)];
                match dec_frames(t.state.data, 0) {
                    Some(fs) => {
                        &&& (r is Ok <==> (fs.len() > 0 && fs[0] is Desc))
                        &&& (r matches Ok(tr) ==> ({
                            &&& tr.info@ == (TraceInfoView {
                                desc: t.desc,
                                size: t.state.data.len() as u64,
                                lastwrite: t.state.lastwrite,
                            })
                            &&& tr.frames@.map_values(|f: TraceFrame| f@) == (match filter {
                                Some(name) => spec_filter_frames(fs.drop_first(), name@),
                                None => fs.drop_first(),
                            })
                        }))
                    },
                    None => r is Err,
                }
            }),
    {
        let ghost ts = self@.traces;
        proof {
            lemma_find_index(ts, |t: TraceVal| t.desc.jobid == jobid@);
            lemma_find_index_contains(ts, |t: TraceVal| t.desc.jobid == jobid@);
        }
        let i = find_trace(&self.traces, &jobid);
        if i == self.traces.len() {
            return Err(ProxyErr::new("No such trace id"));
        }
        let trace = &self.traces[i];
        let (_, frames) = match trace.state.read_all() {
            Ok(v) => v,
            Err(e) => {
                return Err(e);
            },
        };
        let frames = match filter {
            Some(name) => filter_frames(&frames, &name),
            None => frames,
        };
        Ok(TraceRead { info: TraceInfo::new(trace), frames })
    }
}

} // verus!
