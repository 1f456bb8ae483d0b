//! The engine of a status dashboard for local git working copies: the
//! probe of one directory, the classification of what it answered, and the
//! grouping of many rows into the sections of a report.

pub mod buckets;
pub mod classify;
pub mod cluster;
pub mod config;
pub mod grouping;
pub mod model;
pub mod paths;
pub mod probe;
pub mod report;
pub mod text;
