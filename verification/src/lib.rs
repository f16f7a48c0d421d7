//! Resolution of content-addressed game assets from a CDN-style store.
//!
//! The crate decodes the chunked container format that wraps every stored
//! blob, parses the encoding table (content key to encoding key), the
//! install manifest (file name to content key, filtered by tags) and the
//! archive index (encoding key to archive location), and chains those
//! lookups into a resolution pipeline.  All parsing is verified; byte
//! transport and on-disk caching are left to the caller.

pub mod archive_index;
pub mod blte;
pub mod client;
pub mod digest;
pub mod encoding;
pub mod errors;
pub mod install;
pub mod keys;
pub mod pipevars;
pub mod reader;
pub mod text;
