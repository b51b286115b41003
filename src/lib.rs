//! Packed DNA k-mers and membership indexes over them.
pub mod model;
pub mod frame;
pub mod kmer;
pub mod backing;
pub mod dbg;
