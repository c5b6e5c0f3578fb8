//! The options that shape how assets are gathered and keyed before they
//! reach the table builder. Reading these options from a caller's syntax is
//! the embedding tool's business; the library only carries them as plain
//! values.

use vstd::prelude::*;

verus! {

/// How an asset tree is turned into keyed assets.
#[derive(Debug)]
pub struct Config {
    /// The directory the assets are gathered from.
    pub location: Vec<u8>,
    /// Prepended to every key.
    pub prefix: Vec<u8>,
    /// Whether keys join their path segments with a backslash instead of a
    /// forward slash.
    pub use_backslash_in_keys: bool,
    /// Patterns of paths to leave out.
    pub ignore_globs: Vec<Vec<u8>>,
    /// Explicitly listed assets to include.
    pub asset_manifest: Vec<Vec<u8>>,
}

impl Default for Config {
    /// No location, no prefix, forward slashes, nothing ignored, no
    /// manifest.
    fn default() -> (c: Config)
        ensures
            c.location@.len() == 0,
            c.prefix@.len() == 0,
            !c.use_backslash_in_keys,
            c.ignore_globs@.len() == 0,
            c.asset_manifest@.len() == 0,
    {
        Config {
            location: Vec::new(),
            prefix: Vec::new(),
            use_backslash_in_keys: false,
            ignore_globs: Vec::new(),
            asset_manifest: Vec::new(),
        }
    }
}

} // verus!
