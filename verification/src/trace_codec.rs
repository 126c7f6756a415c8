use vstd::prelude::*;

verus! {

use vstd::bytes::{
    lemma_auto_spec_u64_to_from_le_bytes, spec_u64_from_le_bytes, spec_u64_to_le_bytes,
    u64_from_le_bytes, u64_to_le_bytes,
};
use vstd::slice::{slice_subrange, slice_to_vec};
use vstd::utf8::{decode_utf8, encode_utf8, valid_utf8};
use crate::counters::CounterType;
use crate::errors::ProxyErr;
use crate::jobs::{JobDesc, JobDescView};

/// One measurement inside a `Counters` frame: the small integer id a
/// `CounterMetadata` frame assigned to the metric name, and the value.
pub struct TraceCounter {
    pub id: u64,
    pub value: CounterType,
}

/// Abstract value of a [`TraceCounter`].
pub struct TraceCounterView {
    pub id: u64,
    pub value: CounterType,
}

impl View for TraceCounter {
    type V = TraceCounterView;

    open spec fn view(&self) -> TraceCounterView {
        TraceCounterView { id: self.id, value: self.value }
    }
}

impl Clone for TraceCounter {
    fn clone(&self) -> (r: Self)
        ensures
            r@ == self@,
    {
        TraceCounter { id: self.id, value: self.value }
    }
}

/// The declaration of one counter name within a trace: the id assigned on
/// first sight, the full metric name and its help text.
pub struct TraceCounterMetadata {
    pub id: u64,
    pub name: String,
    pub doc: String,
}

/// Abstract value of a [`TraceCounterMetadata`].
pub struct MetadataView {
    pub id: u64,
    pub name: Seq<char>,
    pub doc: Seq<char>,
}

impl View for TraceCounterMetadata {
    type V = MetadataView;

    open spec fn view(&self) -> MetadataView {
        MetadataView { id: self.id, name: self.name@, doc: self.doc@ }
    }
}

impl Clone for TraceCounterMetadata {
    fn clone(&self) -> (r: Self)
        ensures
            r@ == self@,
    {
        TraceCounterMetadata { id: self.id, name: self.name.clone(), doc: self.doc.clone() }
    }
}

/// One record of a trace file: the job description (first frame, exactly
/// once), a counter-name declaration, or a timestamped vector of values.
pub enum TraceFrame {
    Desc { ts: u64, desc: JobDesc },
    CounterMetadata { ts: u64, metadata: TraceCounterMetadata },
    Counters { ts: u64, counters: Vec<TraceCounter> },
}

/// Abstract value of a [`TraceFrame`].
pub enum FrameView {
    Desc { ts: u64, desc: JobDescView },
    CounterMetadata { ts: u64, metadata: MetadataView },
    Counters { ts: u64, counters: Seq<TraceCounterView> },
}

impl View for TraceFrame {
    type V = FrameView;

    open spec fn view(&self) -> FrameView {
        match self {
            TraceFrame::Desc { ts, desc } => FrameView::Desc { ts: *ts, desc: desc@ },
            TraceFrame::CounterMetadata { ts, metadata } => FrameView::CounterMetadata {
                ts: *ts,
                metadata: metadata@,
            },
            TraceFrame::Counters { ts, counters } => FrameView::Counters {
                ts: *ts,
                counters: counters@.map_values(|c: TraceCounter| c@),
            },
        }
    }
}

impl Clone for TraceFrame {
    fn clone(&self) -> (r: Self)
        ensures
            r@ == self@,
    {
        match self {
            TraceFrame::Desc { ts, desc } => TraceFrame::Desc { ts: *ts, desc: desc.clone() },
            TraceFrame::CounterMetadata { ts, metadata } => TraceFrame::CounterMetadata {
                ts: *ts,
                metadata: metadata.clone(),
            },
            TraceFrame::Counters { ts, counters } => {
                let mut cs: Vec<TraceCounter> = Vec::new();
                let mut i: usize = 0;
                while i < counters.len()
                    invariant
                        i <= counters@.len(),
                        cs@.len() == i,
                        forall|j: int| 0 <= j < i ==> cs@[j]@ == counters@[j]@,
                    decreases counters@.len() - i,
                {
                    cs.push(counters[i].clone());
                    i += 1;
                }
                let r = TraceFrame::Counters { ts: *ts, counters: cs };
                proof {
                    assert(cs@.map_values(|c: TraceCounter| c@) =~= counters@.map_values(
                        |c: TraceCounter| c@,
                    ));
                }
                r
            },
        }
    }
}

impl TraceFrame {
    /// The timestamp every frame kind carries.
    pub fn ts(&self) -> (r: u64)
        ensures
            r == spec_frame_ts(self@),
    {
        match self {
            TraceFrame::Desc { ts, desc: _ } => *ts,
            TraceFrame::CounterMetadata { ts, metadata: _ } => *ts,
            TraceFrame::Counters { ts, counters: _ } => *ts,
        }
    }

    /// The job description, of the one frame kind that carries it.
    pub fn desc(self) -> (r: Result<JobDesc, ProxyErr>)
        ensures
            r is Ok <==> self@ is Desc,
            r matches Ok(d) ==> d@ == self@->Desc_desc,
    {
        match self {
            TraceFrame::Desc { ts: _, desc } => Ok(desc),
            _ => Err(ProxyErr::new("Frame is not a jobdesc")),
        }
    }
}

pub open spec fn spec_frame_ts(f: FrameView) -> u64 {
    match f {
        FrameView::Desc { ts, .. } => ts,
        FrameView::CounterMetadata { ts, .. } => ts,
        FrameView::Counters { ts, .. } => ts,
    }
}

/// A 64-bit integer on the wire: 8 bytes, little endian.
pub open spec fn enc_u64(x: u64) -> Seq<u8> {
    spec_u64_to_le_bytes(x)
}

/// A string on the wire: its UTF-8 byte count, then the bytes.
pub open spec fn enc_str(s: Seq<char>) -> Seq<u8> {
    enc_u64(encode_utf8(s).len() as u64) + encode_utf8(s)
}

/// A value on the wire: a shape tag, then the shape's fields.
pub open spec fn enc_ct(c: CounterType) -> Seq<u8> {
    match c {
        CounterType::Counter { ts, value } => seq![1u8] + enc_u64(ts) + enc_u64(value),
        CounterType::Gauge { min, max, hits, total } => seq![2u8] + enc_u64(min) + enc_u64(max)
            + enc_u64(hits) + enc_u64(total),
    }
}

/// A job description on the wire: its fields in declaration order.
pub open spec fn enc_desc(d: JobDescView) -> Seq<u8> {
    enc_str(d.jobid) + enc_str(d.command) + enc_u64(d.size) + enc_str(d.nodelist) + enc_str(
        d.partition,
    ) + enc_str(d.cluster) + enc_str(d.run_dir) + enc_u64(d.start_time) + enc_u64(d.end_time)
}

/// One measurement on the wire: id, then value.
pub open spec fn enc_counter(c: TraceCounterView) -> Seq<u8> {
    enc_u64(c.id) + enc_ct(c.value)
}

/// A measurement vector on the wire, in order.
pub open spec fn enc_counter_list(cs: Seq<TraceCounterView>) -> Seq<u8>
    decreases cs.len(),
{
    if cs.len() == 0 {
        Seq::empty()
    } else {
        enc_counter_list(cs.drop_last()) + enc_counter(cs.last())
    }
}

/// A frame's content: a kind tag, the timestamp, then the kind's payload —
/// for `Counters` the element count precedes the elements.
pub open spec fn enc_body(f: FrameView) -> Seq<u8> {
    match f {
        FrameView::Desc { ts, desc } => seq![1u8] + enc_u64(ts) + enc_desc(desc),
        FrameView::CounterMetadata { ts, metadata } => seq![2u8] + enc_u64(ts) + enc_u64(
            metadata.id,
        ) + enc_str(metadata.name) + enc_str(metadata.doc),
        FrameView::Counters { ts, counters } => seq![3u8] + enc_u64(ts) + enc_u64(
            counters.len() as u64,
        ) + enc_counter_list(counters),
    }
}

/// A whole frame on the wire: the content's byte count as 8 little-endian
/// bytes, then exactly that many bytes of content.
pub open spec fn enc_frame(f: FrameView) -> Seq<u8> {
    enc_u64(enc_body(f).len() as u64) + enc_body(f)
}

/// A trace file's bytes: its frames in order.
pub open spec fn enc_frames(fs: Seq<FrameView>) -> Seq<u8>
    decreases fs.len(),
{
    if fs.len() == 0 {
        Seq::empty()
    } else {
        enc_frames(fs.drop_last()) + enc_frame(fs.last())
    }
}

/// The sizes a frame must respect for its wire form to be read back: every
/// length field must fit the 8 bytes it is written in.  Every frame built
/// from in-memory strings and vectors respects them.
pub open spec fn wf_str(s: Seq<char>) -> bool {
    encode_utf8(s).len() <= u64::MAX
}

pub open spec fn wf_desc(d: JobDescView) -> bool {
    &&& wf_str(d.jobid)
    &&& wf_str(d.command)
    &&& wf_str(d.nodelist)
    &&& wf_str(d.partition)
    &&& wf_str(d.cluster)
    &&& wf_str(d.run_dir)
}

pub open spec fn wf_frame(f: FrameView) -> bool {
    &&& enc_body(f).len() <= u64::MAX
    &&& match f {
        FrameView::Desc { desc, .. } => wf_desc(desc),
        FrameView::CounterMetadata { metadata, .. } => wf_str(metadata.name) && wf_str(
            metadata.doc,
        ),
        FrameView::Counters { counters, .. } => counters.len() <= u64::MAX,
    }
}

/// Append `x` as 8 little-endian bytes.
fn put_u64(out: &mut Vec<u8>, x: u64)
    ensures
        final(out)@ == old(out)@ + enc_u64(x),
{
    let mut b = u64_to_le_bytes(x);
    out.append(&mut b);
}

/// Append a string: byte count, then UTF-8 bytes.
fn put_str(out: &mut Vec<u8>, s: &String)
    ensures
        final(out)@ == old(out)@ + enc_str(s@),
        wf_str(s@),
{
    proof {
        assert(usize::MAX <= u64::MAX);
    }
    let bytes = s.as_str().as_bytes();
    put_u64(out, bytes.len() as u64);
    out.extend_from_slice(bytes);
    proof {
        assert(out@ =~= old(out)@ + enc_str(s@));
    }
}

/// Append a value: shape tag, then fields.
fn put_ct(out: &mut Vec<u8>, c: &CounterType)
    ensures
        final(out)@ == old(out)@ + enc_ct(*c),
{
    match c {
        CounterType::Counter { ts, value } => {
            out.push(1u8);
            put_u64(out, *ts);
            put_u64(out, *value);
            proof {
                assert(out@ =~= old(out)@ + enc_ct(*c));
            }
        },
        CounterType::Gauge { min, max, hits, total } => {
            out.push(2u8);
            put_u64(out, *min);
            put_u64(out, *max);
            put_u64(out, *hits);
            put_u64(out, *total);
            proof {
                assert(out@ =~= old(out)@ + enc_ct(*c));
            }
        },
    }
}

/// Append a job description, field by field.
fn put_desc(out: &mut Vec<u8>, d: &JobDesc)
    ensures
        final(out)@ == old(out)@ + enc_desc(d@),
        wf_desc(d@),
{
    put_str(out, &d.jobid);
    put_str(out, &d.command);
    put_u64(out, d.size);
    put_str(out, &d.nodelist);
    put_str(out, &d.partition);
    put_str(out, &d.cluster);
    put_str(out, &d.run_dir);
    put_u64(out, d.start_time);
    put_u64(out, d.end_time);
    proof {
        assert(out@ =~= old(out)@ + enc_desc(d@));
    }
}

/// A frame's content bytes.
#[verifier::loop_isolation(false)]
fn encode_body(f: &TraceFrame) -> (r: Vec<u8>)
    ensures
        r@ == enc_body(f@),
        wf_frame(f@) <== r@.len() <= u64::MAX,
{
    proof {
        assert(usize::MAX <= u64::MAX);
    }
    let mut out: Vec<u8> = Vec::new();
    match f {
        TraceFrame::Desc { ts, desc } => {
            out.push(1u8);
            put_u64(&mut out, *ts);
            put_desc(&mut out, desc);
            proof {
                assert(out@ =~= enc_body(f@));
            }
        },
        TraceFrame::CounterMetadata { ts, metadata } => {
            out.push(2u8);
            put_u64(&mut out, *ts);
            put_u64(&mut out, metadata.id);
            put_str(&mut out, &metadata.name);
            put_str(&mut out, &metadata.doc);
            proof {
                assert(out@ =~= enc_body(f@));
            }
        },
        TraceFrame::Counters { ts, counters } => {
            let ghost cs = counters@.map_values(|c: TraceCounter| c@);
            out.push(3u8);
            put_u64(&mut out, *ts);
            put_u64(&mut out, counters.len() as u64);
            let ghost head = out@;
            let mut i: usize = 0;
            while i < counters.len()
                invariant
                    i <= cs.len(),
                    out@ == head + enc_counter_list(cs.take(i as int)),
                decreases cs.len() - i,
            {
                proof {
                    assert(cs.take(i + 1).drop_last() =~= cs.take(i as int));
                    assert(cs.take(i + 1).last() == cs[i as int]);
                    assert(counters@[i as int]@ == cs[i as int]);
                }
                put_u64(&mut out, counters[i].id);
                put_ct(&mut out, &counters[i].value);
                proof {
                    assert(out@ =~= head + enc_counter_list(cs.take(i + 1)));
                }
                i += 1;
            }
            proof {
                assert(cs.take(cs.len() as int) =~= cs);
                assert(out@ =~= enc_body(f@));
            }
        },
    }
    out
}

/// A whole frame's wire form: length prefix, then content.
pub fn encode_frame(f: &TraceFrame) -> (r: Vec<u8>)
    ensures
        r@ == enc_frame(f@),
        wf_frame(f@),
{
    proof {
        assert(usize::MAX <= u64::MAX);
    }
    let mut body = encode_body(f);
    let mut out: Vec<u8> = Vec::new();
    put_u64(&mut out, body.len() as u64);
    out.append(&mut body);
    proof {
        assert(out@ =~= enc_frame(f@));
    }
    out
}


/// Read a 64-bit little-endian integer at `o`.
pub open spec fn dec_u64(b: Seq<u8>, o: int) -> Option<(u64, int)> {
    if 0 <= o && o + 8 <= b.len() {
        Some((spec_u64_from_le_bytes(b.subrange(o, o + 8)), o + 8))
    } else {
        None
    }
}

/// Read a length-prefixed UTF-8 string at `o`.
pub open spec fn dec_str(b: Seq<u8>, o: int) -> Option<(Seq<char>, int)> {
    match dec_u64(b, o) {
        Some((n, o1)) => {
            if o1 + n <= b.len() && valid_utf8(b.subrange(o1, o1 + n)) {
                Some((decode_utf8(b.subrange(o1, o1 + n)), o1 + n))
            } else {
                None
            }
        },
        None => None,
    }
}

/// Read a tagged value at `o`.
pub open spec fn dec_ct(b: Seq<u8>, o: int) -> Option<(CounterType, int)> {
    if 0 <= o && o < b.len() {
        if b[o] == 1u8 {
            match dec_u64(b, o + 1) {
                Some((ts, o1)) => match dec_u64(b, o1) {
                    Some((value, o2)) => Some((CounterType::Counter { ts, value }, o2)),
                    None => None,
                },
                None => None,
            }
        } else if b[o] == 2u8 {
            match dec_u64(b, o + 1) {
                Some((min, o1)) => match dec_u64(b, o1) {
                    Some((max, o2)) => match dec_u64(b, o2) {
                        Some((hits, o3)) => match dec_u64(b, o3) {
                            Some((total, o4)) => Some(
                                (CounterType::Gauge { min, max, hits, total }, o4),
                            ),
                            None => None,
                        },
                        None => None,
                    },
                    None => None,
                },
                None => None,
            }
        } else {
            None
        }
    } else {
        None
    }
}

/// Read a job description at `o`, field by field.
pub open spec fn dec_desc(b: Seq<u8>, o: int) -> Option<(JobDescView, int)> {
    match dec_str(b, o) {
        Some((jobid, o1)) => match dec_str(b, o1) {
            Some((command, o2)) => match dec_u64(b, o2) {
                Some((size, o3)) => match dec_str(b, o3) {
                    Some((nodelist, o4)) => match dec_str(b, o4) {
                        Some((partition, o5)) => match dec_str(b, o5) {
                            Some((cluster, o6)) => match dec_str(b, o6) {
                                Some((run_dir, o7)) => match dec_u64(b, o7) {
                                    Some((start_time, o8)) => match dec_u64(b, o8) {
                                        Some((end_time, o9)) => Some(
                                            (
                                                JobDescView {
                                                    jobid,
                                                    command,
                                                    size,
                                                    nodelist,
                                                    partition,
                                                    cluster,
                                                    run_dir,
                                                    start_time,
                                                    end_time,
                                                },
                                                o9,
                                            ),
                                        ),
                                        None => None,
                                    },
                                    None => None,
                                },
                                None => None,
                            },
                            None => None,
                        },
                        None => None,
                    },
                    None => None,
                },
                None => None,
            },
            None => None,
        },
        None => None,
    }
}

/// Read `n` measurements at `o`.
pub open spec fn dec_counters(n: nat, b: Seq<u8>, o: int) -> Option<(Seq<TraceCounterView>, int)>
    decreases n,
{
    if n == 0 {
        Some((Seq::empty(), o))
    } else {
        match dec_u64(b, o) {
            Some((id, o1)) => match dec_ct(b, o1) {
                Some((value, o2)) => match dec_counters((n - 1) as nat, b, o2) {
                    Some((rest, o3)) => Some(
                        (seq![TraceCounterView { id, value }] + rest, o3),
                    ),
                    None => None,
                },
                None => None,
            },
            None => None,
        }
    }
}

/// Read one frame's content at `o`: kind tag, timestamp, payload.
pub open spec fn dec_body(b: Seq<u8>, o: int) -> Option<(FrameView, int)> {
    if 0 <= o && o < b.len() {
        if b[o] == 1u8 {
            match dec_u64(b, o + 1) {
                Some((ts, o1)) => match dec_desc(b, o1) {
                    Some((desc, o2)) => Some((FrameView::Desc { ts, desc }, o2)),
                    None => None,
                },
                None => None,
            }
        } else if b[o] == 2u8 {
            match dec_u64(b, o + 1) {
                Some((ts, o1)) => match dec_u64(b, o1) {
                    Some((id, o2)) => match dec_str(b, o2) {
                        Some((name, o3)) => match dec_str(b, o3) {
                            Some((doc, o4)) => Some(
                                (
                                    FrameView::CounterMetadata {
                                        ts,
                                        metadata: MetadataView { id, name, doc },
                                    },
                                    o4,
                                ),
                            ),
                            None => None,
                        },
                        None => None,
                    },
                    None => None,
                },
                None => None,
            }
        } else if b[o] == 3u8 {
            match dec_u64(b, o + 1) {
                Some((ts, o1)) => match dec_u64(b, o1) {
                    Some((n, o2)) => match dec_counters(n as nat, b, o2) {
                        Some((counters, o3)) => Some((FrameView::Counters { ts, counters }, o3)),
                        None => None,
                    },
                    None => None,
                },
                None => None,
            }
        } else {
            None
        }
    } else {
        None
    }
}

/// Read one whole frame at `o`: the length prefix decides where the frame
/// ends, and the content must fill it exactly.
pub open spec fn dec_frame(b: Seq<u8>, o: int) -> Option<(FrameView, int)> {
    match dec_u64(b, o) {
        Some((len, o1)) => {
            if o1 + len <= b.len() {
                match dec_body(b, o1) {
                    Some((f, o2)) => {
                        if o2 == o1 + len {
                            Some((f, o2))
                        } else {
                            None
                        }
                    },
                    None => None,
                }
            } else {
                None
            }
        },
        None => None,
    }
}

/// Sequential composition of measurement decoding: what already-decoded
/// elements and the rest of a decode combine to.
pub open spec fn dec_counters_cont(
    acc: Seq<TraceCounterView>,
    r: Option<(Seq<TraceCounterView>, int)>,
) -> Option<(Seq<TraceCounterView>, int)> {
    match r {
        Some((rest, of)) => Some((acc + rest, of)),
        None => None,
    }
}

/// Relies on `String::from_utf8`: the returned string is the one whose
/// UTF-8 encoding is exactly the given bytes, and the call fails exactly
/// when the bytes are not valid UTF-8.
#[verifier::external_body]
fn bytes_to_string(v: Vec<u8>) -> (r: Option<String>)
    ensures
        r is Some <==> valid_utf8(v@),
        r matches Some(s) ==> encode_utf8(s@) == v@,
{
    String::from_utf8(v).ok()
}

/// Read a 64-bit little-endian integer, returning the value and the next
/// offset, exactly as `dec_u64` describes.
pub fn read_u64_at(data: &Vec<u8>, off: usize) -> (r: Option<(u64, usize)>)
    ensures
        dec_u64(data@, off as int) is Some <==> r is Some,
        r matches Some((x, o2)) ==> dec_u64(data@, off as int) == Some((x, o2 as int)),
{
    if data.len() >= 8 && off <= data.len() - 8 {
        let s = slice_subrange(data.as_slice(), off, off + 8);
        let x = u64_from_le_bytes(s);
        Some((x, off + 8))
    } else {
        None
    }
}

/// Read a length-prefixed UTF-8 string, exactly as `dec_str` describes.
pub fn read_str_at(data: &Vec<u8>, off: usize) -> (r: Option<(String, usize)>)
    ensures
        dec_str(data@, off as int) is Some <==> r is Some,
        r matches Some((s, o2)) ==> dec_str(data@, off as int) == Some((s@, o2 as int)),
{
    proof {
        assert(usize::MAX <= u64::MAX);
    }
    let (n, o1) = match read_u64_at(data, off) {
        Some(v) => v,
        None => {
            return None;
        },
    };
    if n > (data.len() - o1) as u64 {
        return None;
    }
    let nn = n as usize;
    let bytes = slice_to_vec(slice_subrange(data.as_slice(), o1, o1 + nn));
    match bytes_to_string(bytes) {
        Some(s) => {
            proof {
                vstd::utf8::encode_utf8_decode_utf8(s@);
            }
            Some((s, o1 + nn))
        },
        None => None,
    }
}

/// Read a tagged value, exactly as `dec_ct` describes.
pub fn read_ct_at(data: &Vec<u8>, off: usize) -> (r: Option<(CounterType, usize)>)
    ensures
        dec_ct(data@, off as int) is Some <==> r is Some,
        r matches Some((c, o2)) ==> dec_ct(data@, off as int) == Some((c, o2 as int)),
{
    if off >= data.len() {
        return None;
    }
    let tag = data[off];
    if tag == 1 {
        let (ts, o1) = match read_u64_at(data, off + 1) {
            Some(v) => v,
            None => {
                return None;
            },
        };
        let (value, o2) = match read_u64_at(data, o1) {
            Some(v) => v,
            None => {
                return None;
            },
        };
        Some((CounterType::Counter { ts, value }, o2))
    } else if tag == 2 {
        let (min, o1) = match read_u64_at(data, off + 1) {
            Some(v) => v,
            None => {
                return None;
            },
        };
        let (max, o2) = match read_u64_at(data, o1) {
            Some(v) => v,
            None => {
                return None;
            },
        };
        let (hits, o3) = match read_u64_at(data, o2) {
            Some(v) => v,
            None => {
                return None;
            },
        };
        let (total, o4) = match read_u64_at(data, o3) {
            Some(v) => v,
            None => {
                return None;
            },
        };
        Some((CounterType::Gauge { min, max, hits, total }, o4))
    } else {
        None
    }
}

/// Read a job description, exactly as `dec_desc` describes.
pub fn read_desc_at(data: &Vec<u8>, off: usize) -> (r: Option<(JobDesc, usize)>)
    ensures
        dec_desc(data@, off as int) is Some <==> r is Some,
        r matches Some((d, o2)) ==> dec_desc(data@, off as int) == Some((d@, o2 as int)),
{
    let (jobid, o1) = match read_str_at(data, off) {
        Some(v) => v,
        None => {
            return None;
        },
    };
    let (command, o2) = match read_str_at(data, o1) {
        Some(v) => v,
        None => {
            return None;
        },
    };
    let (size, o3) = match read_u64_at(data, o2) {
        Some(v) => v,
        None => {
            return None;
        },
    };
    let (nodelist, o4) = match read_str_at(data, o3) {
        Some(v) => v,
        None => {
            return None;
        },
    };
    let (partition, o5) = match read_str_at(data, o4) {
        Some(v) => v,
        None => {
            return None;
        },
    };
    let (cluster, o6) = match read_str_at(data, o5) {
        Some(v) => v,
        None => {
            return None;
        },
    };
    let (run_dir, o7) = match read_str_at(data, o6) {
        Some(v) => v,
        None => {
            return None;
        },
    };
    let (start_time, o8) = match read_u64_at(data, o7) {
        Some(v) => v,
        None => {
            return None;
        },
    };
    let (end_time, o9) = match read_u64_at(data, o8) {
        Some(v) => v,
        None => {
            return None;
        },
    };
    Some(
        (
            JobDesc {
                jobid,
                command,
                size,
                nodelist,
                partition,
                cluster,
                run_dir,
                start_time,
                end_time,
            },
            o9,
        ),
    )
}

/// Read one whole frame, exactly as `dec_frame` describes; `None` marks a
/// clean end of data at `off`.  An offset inside the data that does not
/// start a readable frame is corruption.
#[verifier::loop_isolation(false)]
pub fn read_frame_at(data: &Vec<u8>, off: usize) -> (r: Result<
    Option<(TraceFrame, usize)>,
    ProxyErr,
>)
    ensures
        r matches Ok(None) <==> off as int == data@.len(),
        r matches Ok(Some((f, o2))) ==> dec_frame(data@, off as int) == Some((f@, o2 as int))
            && off < o2 <= data@.len(),
        r is Err <==> (off as int != data@.len() && dec_frame(data@, off as int) is None),
{
    if off == data.len() {
        return Ok(None);
    }
    if off > data.len() {
        proof {
            assert(dec_u64(data@, off as int) is None);
        }
        return Err(ProxyErr::new("Offset past the end of the trace"));
    }
    let (len, o1) = match read_u64_at(data, off) {
        Some(v) => v,
        None => {
            return Err(ProxyErr::new("Truncated frame length"));
        },
    };
    proof {
        assert(usize::MAX <= u64::MAX);
    }
    if len > (data.len() - o1) as u64 {
        return Err(ProxyErr::new("Overrun of the file when scanning for EOF"));
    }
    let end = o1 + (len as usize);
    let ghost ob = data@;
    let body = read_body_at(data, o1);
    match body {
        Some((f, o2)) => {
            if o2 == end {
                Ok(Some((f, o2)))
            } else {
                Err(ProxyErr::new("Frame content does not fill its length"))
            }
        },
        None => Err(ProxyErr::new("Unreadable frame content")),
    }
}

/// Read one frame's content, exactly as `dec_body` describes.
#[verifier::loop_isolation(false)]
fn read_body_at(data: &Vec<u8>, off: usize) -> (r: Option<(TraceFrame, usize)>)
    ensures
        dec_body(data@, off as int) is Some <==> r is Some,
        r matches Some((f, o2)) ==> dec_body(data@, off as int) == Some((f@, o2 as int)),
{
    if off >= data.len() {
        return None;
    }
    let tag = data[off];
    if tag == 1 {
        let (ts, o1) = match read_u64_at(data, off + 1) {
            Some(v) => v,
            None => {
                return None;
            },
        };
        let (desc, o2) = match read_desc_at(data, o1) {
            Some(v) => v,
            None => {
                return None;
            },
        };
        Some((TraceFrame::Desc { ts, desc }, o2))
    } else if tag == 2 {
        let (ts, o1) = match read_u64_at(data, off + 1) {
            Some(v) => v,
            None => {
                return None;
            },
        };
        let (id, o2) = match read_u64_at(data, o1) {
            Some(v) => v,
            None => {
                return None;
            },
        };
        let (name, o3) = match read_str_at(data, o2) {
            Some(v) => v,
            None => {
                return None;
            },
        };
        let (doc, o4) = match read_str_at(data, o3) {
            Some(v) => v,
            None => {
                return None;
            },
        };
        Some(
            (
                TraceFrame::CounterMetadata {
                    ts,
                    metadata: TraceCounterMetadata { id, name, doc },
                },
                o4,
            ),
        )
    } else if tag == 3 {
        let (ts, o1) = match read_u64_at(data, off + 1) {
            Some(v) => v,
            None => {
                return None;
            },
        };
        let (n, o2) = match read_u64_at(data, o1) {
            Some(v) => v,
            None => {
                return None;
            },
        };
        let mut counters: Vec<TraceCounter> = Vec::new();
        let mut cur: usize = o2;
        let mut done: u64 = 0;
        proof {
            assert(counters@.map_values(|c: TraceCounter| c@) =~= Seq::<TraceCounterView>::empty());
        }
        while done < n
            invariant
                done <= n,
                cur <= data@.len(),
                dec_counters(n as nat, data@, o2 as int) == dec_counters_cont(
                    counters@.map_values(|c: TraceCounter| c@),
                    dec_counters((n - done) as nat, data@, cur as int),
                ),
            decreases n - done,
        {
            let ghost acc0 = counters@.map_values(|c: TraceCounter| c@);
            let (id, c1) = match read_u64_at(data, cur) {
                Some(v) => v,
                None => {
                    return None;
                },
            };
            let (value, c2) = match read_ct_at(data, c1) {
                Some(v) => v,
                None => {
                    return None;
                },
            };
            counters.push(TraceCounter { id, value });
            proof {
                let acc1 = counters@.map_values(|c: TraceCounter| c@);
                assert(acc1 =~= acc0 + seq![TraceCounterView { id, value }]);
                if dec_counters((n - done - 1) as nat, data@, c2 as int) is Some {
                    let (rest, of) = dec_counters((n - done - 1) as nat, data@, c2 as int)->Some_0;
                    assert(acc0 + (seq![TraceCounterView { id, value }] + rest) =~= acc1 + rest);
                }
            }
            cur = c2;
            done = done + 1;
        }
        proof {
            assert(dec_counters(0nat, data@, cur as int) == Some(
                (Seq::<TraceCounterView>::empty(), cur as int),
            ));
            let acc = counters@.map_values(|c: TraceCounter| c@);
            assert(acc + Seq::<TraceCounterView>::empty() =~= acc);
        }
        Some((TraceFrame::Counters { ts, counters }, cur))
    } else {
        None
    }
}


pub proof fn lemma_dec_enc_u64(b: Seq<u8>, o: int, x: u64)
    requires
        0 <= o,
        o + 8 <= b.len(),
        b.subrange(o, o + 8) == enc_u64(x),
    ensures
        dec_u64(b, o) == Some((x, o + 8)),
{
    lemma_auto_spec_u64_to_from_le_bytes();
}

pub proof fn lemma_dec_enc_str(b: Seq<u8>, o: int, s: Seq<char>)
    requires
        wf_str(s),
        0 <= o,
        o + enc_str(s).len() <= b.len(),
        b.subrange(o, o + enc_str(s).len()) == enc_str(s),
    ensures
        dec_str(b, o) == Some((s, o + enc_str(s).len())),
{
    lemma_auto_spec_u64_to_from_le_bytes();
    let u = encode_utf8(s);
    let n = u.len() as u64;
    let e = enc_str(s);
    assert(e == enc_u64(n) + u);
    assert(b.subrange(o, o + 8) =~= e.subrange(0, 8));
    assert(e.subrange(0, 8) =~= enc_u64(n));
    lemma_dec_enc_u64(b, o, n);
    assert(b.subrange(o + 8, o + 8 + u.len()) =~= e.subrange(8, e.len() as int));
    assert(e.subrange(8, e.len() as int) =~= u);
    vstd::utf8::encode_utf8_valid_utf8(s);
    vstd::utf8::encode_utf8_decode_utf8(s);
}

pub proof fn lemma_dec_enc_ct(b: Seq<u8>, o: int, c: CounterType)
    requires
        0 <= o,
        o + enc_ct(c).len() <= b.len(),
        b.subrange(o, o + enc_ct(c).len()) == enc_ct(c),
    ensures
        dec_ct(b, o) == Some((c, o + enc_ct(c).len())),
{
    lemma_auto_spec_u64_to_from_le_bytes();
    let e = enc_ct(c);
    assert(b.subrange(o, o + e.len() as int)[0] == b[o]);
    match c {
        CounterType::Counter { ts, value } => {
            assert(e[0] == 1u8);
            assert(b[o] == 1u8);
            assert(b.subrange(o + 1, o + 9) =~= e.subrange(1, 9));
            assert(e.subrange(1, 9) =~= enc_u64(ts));
            lemma_dec_enc_u64(b, o + 1, ts);
            assert(b.subrange(o + 9, o + 17) =~= e.subrange(9, 17));
            assert(e.subrange(9, 17) =~= enc_u64(value));
            lemma_dec_enc_u64(b, o + 9, value);
        },
        CounterType::Gauge { min, max, hits, total } => {
            assert(e[0] == 2u8);
            assert(b[o] == 2u8);
            assert(b.subrange(o + 1, o + 9) =~= e.subrange(1, 9));
            assert(e.subrange(1, 9) =~= enc_u64(min));
            lemma_dec_enc_u64(b, o + 1, min);
            assert(b.subrange(o + 9, o + 17) =~= e.subrange(9, 17));
            assert(e.subrange(9, 17) =~= enc_u64(max));
            lemma_dec_enc_u64(b, o + 9, max);
            assert(b.subrange(o + 17, o + 25) =~= e.subrange(17, 25));
            assert(e.subrange(17, 25) =~= enc_u64(hits));
            lemma_dec_enc_u64(b, o + 17, hits);
            assert(b.subrange(o + 25, o + 33) =~= e.subrange(25, 33));
            assert(e.subrange(25, 33) =~= enc_u64(total));
            lemma_dec_enc_u64(b, o + 25, total);
        },
    }
}

#[verifier::rlimit(60)]
pub proof fn lemma_dec_enc_desc(b: Seq<u8>, o: int, d: JobDescView)
    requires
        wf_desc(d),
        0 <= o,
        o + enc_desc(d).len() <= b.len(),
        b.subrange(o, o + enc_desc(d).len()) == enc_desc(d),
    ensures
        dec_desc(b, o) == Some((d, o + enc_desc(d).len())),
{
    lemma_auto_spec_u64_to_from_le_bytes();
    let e = enc_desc(d);
    let l1 = enc_str(d.jobid).len() as int;
    let l2 = l1 + enc_str(d.command).len();
    let l3 = l2 + 8;
    let l4 = l3 + enc_str(d.nodelist).len();
    let l5 = l4 + enc_str(d.partition).len();
    let l6 = l5 + enc_str(d.cluster).len();
    let l7 = l6 + enc_str(d.run_dir).len();
    let l8 = l7 + 8;
    let l9 = l8 + 8;
    assert(e.len() == l9);
    assert(b.subrange(o, o + l1) =~= e.subrange(0, l1));
    assert(e.subrange(0, l1) =~= enc_str(d.jobid));
    lemma_dec_enc_str(b, o, d.jobid);
    assert(b.subrange(o + l1, o + l2) =~= e.subrange(l1, l2));
    assert(e.subrange(l1, l2) =~= enc_str(d.command));
    lemma_dec_enc_str(b, o + l1, d.command);
    assert(b.subrange(o + l2, o + l3) =~= e.subrange(l2, l3));
    assert(e.subrange(l2, l3) =~= enc_u64(d.size));
    lemma_dec_enc_u64(b, o + l2, d.size);
    assert(b.subrange(o + l3, o + l4) =~= e.subrange(l3, l4));
    assert(e.subrange(l3, l4) =~= enc_str(d.nodelist));
    lemma_dec_enc_str(b, o + l3, d.nodelist);
    assert(b.subrange(o + l4, o + l5) =~= e.subrange(l4, l5));
    assert(e.subrange(l4, l5) =~= enc_str(d.partition));
    lemma_dec_enc_str(b, o + l4, d.partition);
    assert(b.subrange(o + l5, o + l6) =~= e.subrange(l5, l6));
    assert(e.subrange(l5, l6) =~= enc_str(d.cluster));
    lemma_dec_enc_str(b, o + l5, d.cluster);
    assert(b.subrange(o + l6, o + l7) =~= e.subrange(l6, l7));
    assert(e.subrange(l6, l7) =~= enc_str(d.run_dir));
    lemma_dec_enc_str(b, o + l6, d.run_dir);
    assert(b.subrange(o + l7, o + l8) =~= e.subrange(l7, l8));
    assert(e.subrange(l7, l8) =~= enc_u64(d.start_time));
    lemma_dec_enc_u64(b, o + l7, d.start_time);
    assert(b.subrange(o + l8, o + l9) =~= e.subrange(l8, l9));
    assert(e.subrange(l8, l9) =~= enc_u64(d.end_time));
    lemma_dec_enc_u64(b, o + l8, d.end_time);
}

/// The wire form of a measurement vector, read from the front.
pub proof fn lemma_enc_counter_list_first(cs: Seq<TraceCounterView>)
    requires
        cs.len() > 0,
    ensures
        enc_counter_list(cs) == enc_counter(cs[0]) + enc_counter_list(cs.drop_first()),
    decreases cs.len(),
{
    if cs.len() == 1 {
        assert(cs.drop_last() =~= Seq::<TraceCounterView>::empty());
        assert(cs.drop_first() =~= Seq::<TraceCounterView>::empty());
        assert(enc_counter_list(cs) == enc_counter_list(cs.drop_last()) + enc_counter(cs.last()));
        assert(Seq::<u8>::empty() + enc_counter(cs[0]) =~= enc_counter(cs[0]));
        assert(enc_counter(cs[0]) + Seq::<u8>::empty() =~= enc_counter(cs[0]));
    } else {
        let head = cs.drop_last();
        lemma_enc_counter_list_first(head);
        assert(head[0] == cs[0]);
        assert(cs.drop_first().drop_last() =~= head.drop_first());
        assert(cs.drop_first().last() == cs.last());
        assert(enc_counter_list(cs.drop_first()) == enc_counter_list(head.drop_first())
            + enc_counter(cs.last()));
        assert((enc_counter(cs[0]) + enc_counter_list(head.drop_first())) + enc_counter(cs.last())
            =~= enc_counter(cs[0]) + (enc_counter_list(head.drop_first()) + enc_counter(
            cs.last(),
        )));
    }
}

pub proof fn lemma_dec_enc_counters(b: Seq<u8>, o: int, cs: Seq<TraceCounterView>)
    requires
        0 <= o,
        o + enc_counter_list(cs).len() <= b.len(),
        b.subrange(o, o + enc_counter_list(cs).len()) == enc_counter_list(cs),
    ensures
        dec_counters(cs.len() as nat, b, o) == Some((cs, o + enc_counter_list(cs).len())),
    decreases cs.len(),
{
    lemma_auto_spec_u64_to_from_le_bytes();
    if cs.len() == 0 {
        assert(dec_counters(0nat, b, o) == Some((Seq::<TraceCounterView>::empty(), o)));
        assert(cs =~= Seq::<TraceCounterView>::empty());
    } else {
        lemma_enc_counter_list_first(cs);
        let e = enc_counter_list(cs);
        let c0 = enc_counter(cs[0]);
        let lc = c0.len() as int;
        assert(b.subrange(o, o + lc) =~= e.subrange(0, lc));
        assert(e.subrange(0, lc) =~= c0);
        assert(b.subrange(o, o + 8) =~= c0.subrange(0, 8));
        assert(c0.subrange(0, 8) =~= enc_u64(cs[0].id));
        lemma_dec_enc_u64(b, o, cs[0].id);
        assert(b.subrange(o + 8, o + lc) =~= c0.subrange(8, lc));
        assert(c0.subrange(8, lc) =~= enc_ct(cs[0].value));
        lemma_dec_enc_ct(b, o + 8, cs[0].value);
        let rest = cs.drop_first();
        assert(b.subrange(o + lc, o + e.len() as int) =~= e.subrange(lc, e.len() as int));
        assert(e.subrange(lc, e.len() as int) =~= enc_counter_list(rest));
        lemma_dec_enc_counters(b, o + lc, rest);
        assert(seq![cs[0]] + rest =~= cs);
    }
}

pub proof fn lemma_dec_enc_body(b: Seq<u8>, o: int, f: FrameView)
    requires
        wf_frame(f),
        0 <= o,
        o + enc_body(f).len() <= b.len(),
        b.subrange(o, o + enc_body(f).len()) == enc_body(f),
    ensures
        dec_body(b, o) == Some((f, o + enc_body(f).len())),
{
    lemma_auto_spec_u64_to_from_le_bytes();
    let e = enc_body(f);
    assert(b.subrange(o, o + e.len() as int)[0] == b[o]);
    match f {
        FrameView::Desc { ts, desc } => {
            assert(e[0] == 1u8);
            assert(b[o] == 1u8);
            assert(b.subrange(o + 1, o + 9) =~= e.subrange(1, 9));
            assert(e.subrange(1, 9) =~= enc_u64(ts));
            lemma_dec_enc_u64(b, o + 1, ts);
            assert(b.subrange(o + 9, o + e.len() as int) =~= e.subrange(9, e.len() as int));
            assert(e.subrange(9, e.len() as int) =~= enc_desc(desc));
            lemma_dec_enc_desc(b, o + 9, desc);
        },
        FrameView::CounterMetadata { ts, metadata } => {
            assert(e[0] == 2u8);
            assert(b[o] == 2u8);
            assert(b.subrange(o + 1, o + 9) =~= e.subrange(1, 9));
            assert(e.subrange(1, 9) =~= enc_u64(ts));
            lemma_dec_enc_u64(b, o + 1, ts);
            assert(b.subrange(o + 9, o + 17) =~= e.subrange(9, 17));
            assert(e.subrange(9, 17) =~= enc_u64(metadata.id));
            lemma_dec_enc_u64(b, o + 9, metadata.id);
            let ln = enc_str(metadata.name).len() as int;
            assert(b.subrange(o + 17, o + 17 + ln) =~= e.subrange(17, 17 + ln));
            assert(e.subrange(17, 17 + ln) =~= enc_str(metadata.name));
            lemma_dec_enc_str(b, o + 17, metadata.name);
            assert(b.subrange(o + 17 + ln, o + e.len() as int) =~= e.subrange(
                17 + ln,
                e.len() as int,
            ));
            assert(e.subrange(17 + ln, e.len() as int) =~= enc_str(metadata.doc));
            lemma_dec_enc_str(b, o + 17 + ln, metadata.doc);
        },
        FrameView::Counters { ts, counters } => {
            assert(e[0] == 3u8);
            assert(b[o] == 3u8);
            assert(b.subrange(o + 1, o + 9) =~= e.subrange(1, 9));
            assert(e.subrange(1, 9) =~= enc_u64(ts));
            lemma_dec_enc_u64(b, o + 1, ts);
            assert(b.subrange(o + 9, o + 17) =~= e.subrange(9, 17));
            assert(e.subrange(9, 17) =~= enc_u64(counters.len() as u64));
            lemma_dec_enc_u64(b, o + 9, counters.len() as u64);
            assert(b.subrange(o + 17, o + e.len() as int) =~= e.subrange(17, e.len() as int));
            assert(e.subrange(17, e.len() as int) =~= enc_counter_list(counters));
            lemma_dec_enc_counters(b, o + 17, counters);
            assert((counters.len() as u64) as nat == counters.len());
        },
    }
}

/// Reading back what was written: a frame's wire form reads as exactly that
/// frame.
pub proof fn lemma_dec_enc_frame(b: Seq<u8>, o: int, f: FrameView)
    requires
        wf_frame(f),
        0 <= o,
        o + enc_frame(f).len() <= b.len(),
        b.subrange(o, o + enc_frame(f).len()) == enc_frame(f),
    ensures
        dec_frame(b, o) == Some((f, o + enc_frame(f).len())),
{
    lemma_auto_spec_u64_to_from_le_bytes();
    let e = enc_frame(f);
    let body = enc_body(f);
    let n = body.len() as u64;
    assert(e == enc_u64(n) + body);
    assert(b.subrange(o, o + 8) =~= e.subrange(0, 8));
    assert(e.subrange(0, 8) =~= enc_u64(n));
    lemma_dec_enc_u64(b, o, n);
    assert(b.subrange(o + 8, o + 8 + body.len()) =~= e.subrange(8, e.len() as int));
    assert(e.subrange(8, e.len() as int) =~= body);
    lemma_dec_enc_body(b, o + 8, f);
}

/// A whole trace read front to back: each frame in turn, ending exactly at
/// the end of the data.
pub open spec fn dec_frames(b: Seq<u8>, o: int) -> Option<Seq<FrameView>>
    decreases b.len() - o,
{
    if o == b.len() {
        Some(Seq::empty())
    } else {
        match dec_frame(b, o) {
            Some((f, o2)) => {
                if o < o2 <= b.len() {
                    match dec_frames(b, o2) {
                        Some(rest) => Some(seq![f] + rest),
                        None => None,
                    }
                } else {
                    None
                }
            },
            None => None,
        }
    }
}

/// The wire form of a frame sequence, read from the front.
pub proof fn lemma_enc_frames_first(fs: Seq<FrameView>)
    requires
        fs.len() > 0,
    ensures
        enc_frames(fs) == enc_frame(fs[0]) + enc_frames(fs.drop_first()),
    decreases fs.len(),
{
    if fs.len() == 1 {
        assert(fs.drop_last() =~= Seq::<FrameView>::empty());
        assert(fs.drop_first() =~= Seq::<FrameView>::empty());
        assert(Seq::<u8>::empty() + enc_frame(fs[0]) =~= enc_frame(fs[0]));
        assert(enc_frame(fs[0]) + Seq::<u8>::empty() =~= enc_frame(fs[0]));
    } else {
        let head = fs.drop_last();
        lemma_enc_frames_first(head);
        assert(head[0] == fs[0]);
        assert(fs.drop_first().drop_last() =~= head.drop_first());
        assert(fs.drop_first().last() == fs.last());
        assert(enc_frames(fs.drop_first()) == enc_frames(head.drop_first()) + enc_frame(
            fs.last(),
        ));
        assert((enc_frame(fs[0]) + enc_frames(head.drop_first())) + enc_frame(fs.last())
            =~= enc_frame(fs[0]) + (enc_frames(head.drop_first()) + enc_frame(fs.last())));
    }
}

/// Replay fidelity: a trace whose bytes are the wire form of well-formed
/// frames reads back as exactly that frame sequence.
pub proof fn lemma_dec_enc_frames(b: Seq<u8>, o: int, fs: Seq<FrameView>)
    requires
        0 <= o,
        o + enc_frames(fs).len() == b.len(),
        b.subrange(o, b.len() as int) == enc_frames(fs),
        forall|i: int| 0 <= i < fs.len() ==> wf_frame(#[trigger] fs[i]),
    ensures
        dec_frames(b, o) == Some(fs),
    decreases fs.len(),
{
    if fs.len() == 0 {
        assert(fs =~= Seq::<FrameView>::empty());
    } else {
        lemma_enc_frames_first(fs);
        let e0 = enc_frame(fs[0]);
        assert(b.subrange(o, o + e0.len()) =~= enc_frames(fs).subrange(0, e0.len() as int));
        assert(enc_frames(fs).subrange(0, e0.len() as int) =~= e0);
        lemma_dec_enc_frame(b, o, fs[0]);
        let rest = fs.drop_first();
        assert(b.subrange(o + e0.len(), b.len() as int) =~= enc_frames(fs).subrange(
            e0.len() as int,
            enc_frames(fs).len() as int,
        ));
        assert(enc_frames(fs).subrange(e0.len() as int, enc_frames(fs).len() as int)
            =~= enc_frames(rest));
        assert forall|i: int| 0 <= i < rest.len() implies wf_frame(#[trigger] rest[i]) by {
            assert(rest[i] == fs[i + 1]);
        }
        lemma_dec_enc_frames(b, o + e0.len(), rest);
        assert(seq![fs[0]] + rest =~= fs);
        assert(enc_body(fs[0]).len() >= 1);
    }
}

} // verus!
