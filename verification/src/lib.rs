//! Path handling and dynamic search-path bookkeeping for an ELF loader.
pub mod dir;
pub mod expand;
pub mod path;
pub mod search;

pub use dir::{DirStatus, SearchDir, SharedDir};
pub use expand::PathTokens;
pub use path::{Path, PathBuf, PathStr, PathString};
