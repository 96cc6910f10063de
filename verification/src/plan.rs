//! What a caller asks of shaping beyond the text: the features to turn on
//! or off, and over which clusters.

use vstd::prelude::*;
use crate::tag::Tag;

verus! {

/// A feature setting over the clusters `start .. end`.
#[derive(Clone, Copy, PartialEq, Eq, Structural, Debug)]
pub struct UserFeature {
    pub tag: Tag,
    pub value: u32,
    pub start: u32,
    pub end: u32,
}

impl UserFeature {
    /// A setting over the whole text.
    pub fn global(tag: Tag, value: u32) -> (f: UserFeature)
        ensures
            f == (UserFeature { tag, value, start: 0, end: u32::MAX }),
    {
        UserFeature { tag, value, start: 0, end: u32::MAX }
    }

    /// Whether the setting covers the whole text.
    pub fn is_global(&self) -> (r: bool)
        ensures
            r == (self.start == 0 && self.end == u32::MAX),
    {
        self.start == 0 && self.end == u32::MAX
    }
}

} // verus!
