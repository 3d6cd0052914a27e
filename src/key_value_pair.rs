use vstd::prelude::*;
use crate::hash::{spec_bucket, spec_distance, Digest};

verus! {

/// Byte position of a data frame inside an archive.
pub type FrameOffset = u64;

/// One table slot: a digest and the offset of the frame it identifies.
#[derive(Debug, Clone, Copy, PartialEq, Eq, Structural)]
pub struct KeyValuePair {
    pub hash: Digest,
    pub value: FrameOffset,
}

impl KeyValuePair {
    /// Optimal offset for this pair's digest with a given table length.
    pub fn bucket(&self, len: u64) -> (r: u64)
        requires
            len > 0,
        ensures
            r == spec_bucket(self.hash.0, len as int),
            r < len,
    {
        self.hash.bucket(len)
    }

    /// Walking distance between `at` and the optimal location of this pair's digest.
    pub fn distance(&self, at: u64, len: u64) -> (r: u64)
        requires
            len > 0,
            at < len,
        ensures
            r == spec_distance(self.hash.0, at as int, len as int),
            r < len,
    {
        self.hash.distance(at, len)
    }
}

} // verus!
