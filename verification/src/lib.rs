//! An immutable inverted index: segment and manifest formats, their readers
//! and writers, and term lookup across segments.

pub mod wire;
pub mod varint;
pub mod model;
pub mod address_order;
pub mod postings;
pub mod checksum;
pub mod text;
pub mod binary_file;
pub mod manifest;
pub mod manifest_codec;
pub mod bytes_order;
pub mod inverted_index;
pub mod concat;
pub mod segment_codec;
pub mod segment_reader;
pub mod segment_round_trip;
pub mod segment_validation;
pub mod query_engine;
pub mod multi_segment_postings;
pub mod multi_segment_query_engine;
pub mod index_snapshot;
pub mod debug_text;
pub mod stats;
pub mod clock;
pub mod lookup_executor;
pub mod document;
pub mod dictionary;
pub mod index_builder;
pub mod index_storage;
pub mod index_creation_stats;
pub mod command;
pub mod index_creator;
pub mod lookup_round_trip;
