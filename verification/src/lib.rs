//! Core of a tiered-memory page-placement simulator.
//!
//! A binary trace of per-page read/write records is replayed against an
//! ordered hierarchy of memory tiers. A HeMem-style classifier keeps a page
//! table with lazily cooled access counters, migrates pages between tiers as
//! they become hot or cold, and appends every access and migration to a
//! statistics journal, from which the output data snapshot is built.

pub mod data;
pub mod memories;
pub mod page_table;
pub mod pin_trace;
pub mod sim;
pub mod hemem;
pub mod statistics;
