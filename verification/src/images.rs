//! Images that sandboxes can be created from.

use vstd::prelude::*;

verus! {

/// An image that sandboxes can be created from.
#[derive(Debug, Clone)]
pub struct ImageInfo {
    /// Pass this as the image when creating a sandbox.
    pub id: String,
    pub name: String,
    pub url: String,
    pub sha256: String,
    pub os: String,
    pub arch: String,
    /// "builtin" or "admin".
    pub source: String,
    /// The image used when none is named.
    pub is_default: bool,
    pub description: String,
    /// Unix seconds.
    pub created_at: i64,
}

} // verus!
