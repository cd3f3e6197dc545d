//! Blitz: a columnar query engine with its storage format, metadata quorum,
//! planner, executor and stream ingestion, stated and proved in Verus.
pub mod avro;
pub mod avro_container;
pub mod avro_file;
pub mod boot;
pub mod chars;
pub mod cluster;
pub mod doc;
pub mod encodings;
pub mod engine;
pub mod format;
pub mod iceberg;
pub mod kernel;
pub mod meta;
pub mod partial;
pub mod phrase;
pub mod plan;
pub mod queryd;
pub mod ramp;
pub mod readings;
pub mod relations;
pub mod sample;
pub mod sort;
pub mod sql;
pub mod store;
pub mod stream;
pub mod tally;
pub mod text;
pub mod varint;
pub mod wire;
