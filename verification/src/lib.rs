//! Bookkeeping for a memory profiler: which callstack holds how much memory, now and at the peak.
//!
//! [`tracker::AllocationTracker`] is told of every allocation and every mapping, with the id of the
//! callstack it comes from. What it knows is a [`state::TrackerState`]; what holds of it however
//! many events there are is in [`laws`]. Reports are prepared as plain values ([`report`]), for the
//! program around this library to print and to write to files.

pub mod allocation;
pub mod callstack;
pub mod filter;
pub mod functions;
pub mod hashing;
pub mod interner;
pub mod laws;
pub mod rangemap;
pub mod report;
pub mod state;
pub mod text;
pub mod tracker;
pub mod usage;
