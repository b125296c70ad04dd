//! Reader for the directory tree of a VPK pack file.

pub mod bytes;
pub mod header;
pub mod model;
pub mod laws;
pub mod layout;
pub mod reader;

pub use header::{DirHeader, DirHeader2};
pub use model::DirError;
pub use reader::{DirEntry, DirReader};
