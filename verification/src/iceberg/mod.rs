//! Iceberg tables: metadata, manifests and the pruning of data files.
pub mod avro;
pub mod container;
pub mod contents;
pub mod integer;
pub mod json;
pub mod manifest;
pub mod metadata;
pub mod number;
pub mod single;
pub mod table;
pub mod warehouse;
