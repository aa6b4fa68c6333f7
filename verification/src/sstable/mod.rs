//! Sorted tables: data blocks, an index, a Bloom filter and a footer.

pub mod block;
pub mod bloom;
pub mod builder;
pub mod reader;
pub mod contents;
