//! Locates save-data directories under a search root, reduces the matched
//! paths to a minimal set of non-nested backup roots, and translates absolute
//! Windows-style paths into archive-relative destination paths.
//!
//! Paths are handled as byte strings (`Vec<u8>`) with `\` as the component
//! separator; an absolute path starts with a single-letter volume designator
//! such as `C:\`.

pub mod archive;
pub mod context;
pub mod matcher;
pub mod paths;
pub mod reduce;
pub mod store;
pub mod translate;
