//! Verified core of the WiFi spatial-graph bridge: which location pairs become
//! graph edges, how a symmetric correlation matrix is filled, how spectral
//! cluster labels are attached to locations and grouped for the report.

pub mod probe;
pub mod edges;
pub mod matrix;
pub mod communities;
pub mod embedding;
pub mod report;
