//! The columnar file format: compressed pages with zone maps, dictionaries,
//! and a footer that describes them.
pub mod lz4;
pub mod meta;
pub mod page;
pub mod parquet;
pub mod reader;
pub mod roundtrip;
pub mod writer;
pub mod zones;
