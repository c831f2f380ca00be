//! Adaptive load-testing support: boundary ("cliff") searches over a probe value,
//! a bounded scheduler for many searches with a backfill wave, and latency
//! timelines built from interval logs of HDR histograms.

pub mod search;
pub mod explore;
pub mod hist;
pub mod interval;
pub mod aggregate;
