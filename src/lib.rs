//! Reading and writing the two-file packed archive format: a header that
//! describes a directory tree and a data blob that holds the file bytes.
//!
//! - `fs`: the tree and its model.
//! - `wire`: little-endian numbers and the byte buffers, checksums and
//!   readers that the format is written with.
//! - `io`: length-prefixed and fixed-length strings, and a read cursor.
//! - `codec`: packing a tree and reading a header back, with the proof that
//!   the two agree.
//! - `layout`: where the packed files' bytes lie in the data blob.
//! - `truncation`: a header cut short is rejected.
pub mod fs;
pub mod wire;
pub mod io;
pub mod codec;
pub mod layout;
pub mod truncation;
