//! Scheduling and partitioning engine for mirroring a search service whose
//! queries return at most a fixed number of results.

pub mod calendar;
pub mod event;
pub mod facet;
pub mod identity;
pub mod query;
pub mod schedule;
pub mod partition;
pub mod store;
pub mod text;
pub mod worker;
