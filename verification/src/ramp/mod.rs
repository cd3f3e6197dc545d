//! Morsel-driven execution that starts on one node and takes in workers while
//! a query runs.
pub mod answers;
pub mod message;
pub mod morsel;
pub mod resolve;
pub mod schedule;
pub mod shuffle;
pub mod worker;
