//! Streams in epochs: each epoch is sized by the backlog, its work is handed
//! out in units, and the offsets reached are committed outside the workers.
pub mod epoch;
pub mod laws;
pub mod offsets;
pub mod sizer;
pub mod source;
