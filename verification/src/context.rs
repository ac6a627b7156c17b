//! The per-user configuration the tool works against: the configuration
//! directory and the three path-list files inside it. The caller that owns
//! the process environment constructs it once and passes it by reference;
//! the library holds no ambient state.

use vstd::prelude::*;

verus! {

/// Locations of the configuration directory and the persisted path lists.
pub struct AppContext {
    /// The per-user configuration directory holding the list files.
    pub config_dir: String,
    /// Lists the root directories to scan for candidates.
    pub search_dir_file: String,
    /// Lists the reduced candidate directories; overwritten by each search.
    pub target_dir_file: String,
    /// Lists user-curated glob patterns for single files to back up.
    pub target_file_file: String,
}

} // verus!
