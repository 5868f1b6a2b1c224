//! Analysis of HTTP access logs: parsing Combined Log Format lines,
//! removing duplicate records, grouping records by calendar granularity and
//! deriving per-group statistics and the point series that plots show.
pub mod text;
pub mod date;
pub mod keyindex;
pub mod codes;
pub mod log;
pub mod corpus;
pub mod grouping;
pub mod stats;
pub mod analyzer;
pub mod metrics;
pub mod laws;
pub mod series;
