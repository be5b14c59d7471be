//! A succinct quad store: sorted lists of quads and terms in compact files, and the indexes that
//! find quads and terms in them.

pub mod analyze;
pub mod array_sorter;
pub mod arrays;
pub mod bits;
pub mod buildable;
pub mod bytes;
pub mod chunks;
pub mod database_builder;
pub mod dictionary;
pub mod flatten;
pub mod frames;
pub mod front_coding;
pub mod gammas;
pub mod graphs;
pub mod indexes;
pub mod loading;
pub mod parsing;
pub mod quads;
pub mod quads_store;
pub mod queries;
pub mod queryable_dataset;
pub mod radix;
pub mod recompression;
pub mod secondary_indexes;
pub mod storage;
pub mod store;
pub mod string_sorter;
pub mod strings;
pub mod terms;
pub mod terms_mphf;
pub mod terms_store;
pub mod terms_writer;
pub mod utils;
pub mod zstd_store;
pub mod zstd_terms;
