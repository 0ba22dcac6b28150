//! Codec for packed localisation containers: reads the container and its
//! compressed blocks, extracts the identifier-to-text entries of each table,
//! and rebuilds tables and containers from an edited set of texts.
pub mod bytes;
pub mod structs;
pub mod table;
pub mod merge;
pub mod merge_lemmas;
pub mod codec;
pub mod container;
pub mod texts;
pub mod pipeline;
pub mod overrides;
