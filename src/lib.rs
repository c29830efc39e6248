//! A small content-addressed object store in the style of git's plumbing:
//! blobs and trees framed as `"<kind> <length>\0<payload>"`, named by the
//! SHA-1 digest of that framing, and kept zlib-compressed under their ids.
pub mod codec;
pub mod id;
pub mod error;
pub mod store;
pub mod objects;
pub mod builder;
