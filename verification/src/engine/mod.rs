//! Query execution: late-materialised scans, hash joins, two-phase
//! aggregation and TopN.
pub mod answers;
pub mod execute;
pub mod finish;
pub mod join;
pub mod laws;
pub mod pipeline;
pub mod scan;
pub mod scan_laws;
pub mod scans;
pub mod values;
