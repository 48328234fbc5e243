//! Entries of the mount table, as the logic reads them.

use vstd::prelude::*;

verus! {

/// A mounted filesystem: where it is mounted, what is mounted, its type, and
/// its options (`key=value` or `key`).
#[derive(Debug, Clone)]
pub struct MountEntry {
    pub path: String,
    pub source: String,
    pub fstype: String,
    pub attributes: Vec<String>,
}

} // verus!
