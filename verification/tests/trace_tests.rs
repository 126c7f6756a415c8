use metric_proxy::counters::{CounterSnapshot, CounterType};
use metric_proxy::jobs::{JobDesc, JobProfile};
use metric_proxy::trace::{Trace, TraceState, TraceView};
use metric_proxy::trace_codec::{encode_frame, read_frame_at, TraceFrame};

fn job(id: &str) -> JobDesc {
    JobDesc {
        jobid: id.to_string(),
        command: "app".to_string(),
        size: 2,
        nodelist: "n0".to_string(),
        partition: "part".to_string(),
        cluster: "clu".to_string(),
        run_dir: "/run".to_string(),
        start_time: 5,
        end_time: 0,
    }
}

fn snap(name: &str, value: u64, ts: u64) -> CounterSnapshot {
    CounterSnapshot::new(
        name.to_string(),
        format!("doc of {}", name),
        CounterType::Counter { ts, value },
    )
}

fn push(trace: &mut Trace, counters: Vec<CounterSnapshot>, now: u64) {
    let profile = JobProfile { desc: trace.desc().clone(), counters };
    trace.push(profile, now).unwrap();
}

#[test]
fn a_written_trace_replays_to_the_same_sequence() {
    let mut t = Trace::new(&"/traces".to_string(), &job("j"), 100);
    push(&mut t, vec![snap("x", 1, 0)], 100);
    push(&mut t, vec![snap("x", 2, 0), snap("y", 5, 0)], 101);

    let (desc, frames) = t.state.read_all().unwrap();
    assert_eq!(desc.jobid, "j");
    // [Metadata(x), Counters(x=1), Metadata(y), Counters(x=2, y=5)]
    assert_eq!(frames.len(), 4);
    match &frames[0] {
        TraceFrame::CounterMetadata { ts, metadata } => {
            assert_eq!(*ts, 100);
            assert_eq!(metadata.id, 0);
            assert_eq!(metadata.name, "x");
        },
        _ => panic!("expected a metadata frame"),
    }
    match &frames[1] {
        TraceFrame::Counters { ts, counters } => {
            assert_eq!(*ts, 100);
            assert_eq!(counters.len(), 1);
            assert_eq!(counters[0].id, 0);
            assert_eq!(counters[0].value, CounterType::Counter { ts: 0, value: 1 });
        },
        _ => panic!("expected a counters frame"),
    }
    match &frames[2] {
        TraceFrame::CounterMetadata { ts, metadata } => {
            assert_eq!(*ts, 101);
            assert_eq!(metadata.id, 1);
            assert_eq!(metadata.name, "y");
        },
        _ => panic!("expected a metadata frame"),
    }
    match &frames[3] {
        TraceFrame::Counters { ts, counters } => {
            assert_eq!(*ts, 101);
            assert_eq!(counters.len(), 2);
            assert_eq!(counters[0].id, 0);
            assert_eq!(counters[0].value, CounterType::Counter { ts: 0, value: 2 });
            assert_eq!(counters[1].id, 1);
            assert_eq!(counters[1].value, CounterType::Counter { ts: 0, value: 5 });
        },
        _ => panic!("expected a counters frame"),
    }
}

#[test]
fn a_filtered_read_keeps_only_the_named_metric() {
    let mut tv = TraceView::new("/traces".to_string(), Vec::new());
    let d = job("j");
    let idx = tv.get(&d, 100);
    {
        let tr = &mut tv.traces[idx];
        push(tr, vec![snap("x", 1, 0)], 100);
        push(tr, vec![snap("x", 2, 0), snap("y", 5, 0)], 101);
    }
    let r = tv.read("j".to_string(), Some("y".to_string())).unwrap();
    // Exactly the declaration of y and one counters frame holding only y.
    assert_eq!(r.frames.len(), 2);
    match &r.frames[0] {
        TraceFrame::CounterMetadata { ts: _, metadata } => {
            assert_eq!(metadata.name, "y");
            assert_eq!(metadata.id, 1);
        },
        _ => panic!("expected the declaration of y"),
    }
    match &r.frames[1] {
        TraceFrame::Counters { ts, counters } => {
            assert_eq!(*ts, 101);
            assert_eq!(counters.len(), 1);
            assert_eq!(counters[0].id, 1);
            assert_eq!(counters[0].value, CounterType::Counter { ts: 0, value: 5 });
        },
        _ => panic!("expected one counters frame"),
    }
}

#[test]
fn an_unfiltered_read_returns_every_frame() {
    let mut tv = TraceView::new("/t".to_string(), Vec::new());
    let d = job("j");
    let idx = tv.get(&d, 1);
    push(&mut tv.traces[idx], vec![snap("x", 1, 0)], 2);
    let r = tv.read("j".to_string(), None).unwrap();
    assert_eq!(r.frames.len(), 2);
    assert!(tv.read("missing".to_string(), None).is_err());
}

#[test]
fn reopening_recovers_description_and_last_write() {
    let mut t = Trace::new(&"/traces".to_string(), &job("j"), 50);
    push(&mut t, vec![snap("x", 1, 0)], 77);
    let image = t.state.data.clone();

    let reopened = Trace::new_from_file("/traces/j.trace".to_string(), image).unwrap();
    assert_eq!(reopened.desc().jobid, "j");
    // The end time is backfilled from the last observed activity.
    assert_eq!(reopened.desc().end_time, 77);
    assert_eq!(reopened.state.lastwrite, 77);
}

#[test]
fn a_frozen_trace_refuses_pushes() {
    let mut tv = TraceView::new("/t".to_string(), Vec::new());
    let d = job("j");
    let idx = tv.get(&d, 1);
    tv.done(&d).unwrap();
    let profile = JobProfile { desc: d.clone(), counters: vec![snap("x", 1, 0)] };
    assert!(tv.traces[idx].push(profile, 2).is_err());
    // The id stays a one-shot key: the same job maps to the frozen trace.
    assert_eq!(tv.get(&d, 3), idx);
}

#[test]
fn clear_drops_the_trace_and_names_its_file() {
    let mut tv = TraceView::new("/t".to_string(), Vec::new());
    let d = job("j");
    tv.get(&d, 1);
    assert_eq!(tv.list().len(), 1);
    let path = tv.clear(&d);
    assert_eq!(path, "/t/j.trace");
    assert_eq!(tv.list().len(), 0);
}

#[test]
fn listing_shows_size_and_last_write() {
    let mut tv = TraceView::new("/t".to_string(), Vec::new());
    let d = job("j");
    let idx = tv.get(&d, 1);
    push(&mut tv.traces[idx], vec![snap("x", 1, 0)], 9);
    let infos = tv.list();
    assert_eq!(infos.len(), 1);
    assert_eq!(infos[0].desc.jobid, "j");
    assert_eq!(infos[0].lastwrite, 9);
    assert_eq!(infos[0].size as usize, tv.traces[idx].state.data.len());
}

#[test]
fn startup_loads_readable_files_and_skips_the_rest() {
    let mut t = Trace::new(&"/t".to_string(), &job("a"), 10);
    push(&mut t, vec![snap("x", 1, 0)], 11);
    let good = t.state.data.clone();
    let bad = vec![1u8, 2, 3];
    let tv = TraceView::new(
        "/t".to_string(),
        vec![("/t/a.trace".to_string(), good), ("/t/b.trace".to_string(), bad)],
    );
    let infos = tv.list();
    assert_eq!(infos.len(), 1);
    assert_eq!(infos[0].desc.jobid, "a");
}

#[test]
fn frame_wire_form_round_trips() {
    let frame = TraceFrame::Desc { ts: 42, desc: job("j") };
    let bytes = encode_frame(&frame);
    let (back, end) = read_frame_at(&bytes, 0).unwrap().unwrap();
    assert_eq!(end, bytes.len());
    match back {
        TraceFrame::Desc { ts, desc } => {
            assert_eq!(ts, 42);
            assert_eq!(desc.jobid, "j");
            assert_eq!(desc.command, "app");
            assert_eq!(desc.size, 2);
            assert_eq!(desc.start_time, 5);
        },
        _ => panic!("expected the description frame back"),
    }
}

#[test]
fn corrupt_length_walks_are_rejected() {
    // A length prefix pointing past the end of the data is an overrun.
    let mut data = 100u64.to_le_bytes().to_vec();
    data.extend_from_slice(&[0u8; 4]);
    assert!(TraceState::offset_of_last_frame_start(&data).is_err());
    assert!(read_frame_at(&data, 0).is_err());
}

#[test]
fn a_trace_must_open_with_a_description() {
    // An image whose only frame declares a counter name is not a trace.
    let frame = TraceFrame::CounterMetadata {
        ts: 1,
        metadata: metric_proxy::trace_codec::TraceCounterMetadata {
            id: 0,
            name: "x".to_string(),
            doc: String::new(),
        },
    };
    let image = encode_frame(&frame);
    let st = TraceState::from("/t/j.trace".to_string(), image).unwrap();
    assert!(st.desc().is_err());
    assert!(st.read_all().is_err());
}

#[test]
fn an_empty_image_cannot_be_reopened() {
    assert!(TraceState::from("/t/j.trace".to_string(), Vec::new()).is_err());
    assert!(Trace::new_from_file("/t/j.trace".to_string(), Vec::new()).is_err());
}
