//! Codec-aware image merge, which is planned.
use crate::sync::strategy::Kind;
use vstd::prelude::*;

verus! {

/// An image that is to be merged.
pub struct ImageSyncer;

impl ImageSyncer {
    /// An image without content.
    pub fn new(_name: &str) -> Self {
        ImageSyncer
    }

    /// Which algorithm this is.
    pub fn kind(&self) -> (r: Kind)
        ensures
            r == Kind::Image,
    {
        Kind::Image
    }
}

} // verus!
