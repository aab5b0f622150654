//! Reading and writing of RIFF containers: a tree of lists and chunks, read
//! without copying from a mapped buffer, turned into an owned tree, and written
//! back as bytes.

pub mod file;
pub mod proofs;
pub mod reader;
pub mod tree;
pub mod writer;

pub use file::RiffFile;
pub use reader::{parse_fourcc, parse_header, parse_size, read_entries_from, read_entries_in, RiffError};
pub use tree::{Chunk, Data, DataOwned, DataRef, Entry, FourCC, List};
