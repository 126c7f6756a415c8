//! Core of a distributed metrics-aggregation proxy: a job-scoped counter
//! store with reference-counted lifecycle, a scrape/merge engine that diffs
//! remote job snapshots, a load-balanced tree-join table, and an append-only
//! binary trace log.  All state-changing operations carry contracts; the
//! surrounding process (HTTP surface, IPC front door, file and network I/O)
//! lives outside this crate and drives it with plain values.

pub mod counters;
pub mod errors;
pub mod exporter;
pub mod factory;
pub mod jobs;
pub mod numfmt;
pub mod pivot;
pub mod scraper;
pub mod seqx;
pub mod strutil;
pub mod trace;
pub mod trace_codec;
