//! Reading and changing xv6 file system images held in memory.
pub mod fs;
pub mod libfs;
pub mod dir;
pub mod cmd;
pub mod laws;
pub mod outcomes;
