use vstd::prelude::*;

verus! {

/// The digest value reserved to mark an empty slot. No entry ever carries it.
pub const EMPTY_DIGEST: u64 = 0xffff_ffff_ffff_ffff;

/// Ideal position of digest `h` in a table with `len` positions.
#[verifier::opaque]
pub open spec fn spec_bucket(h: u64, len: int) -> int {
    (h as int) % len
}

/// Number of probes from the ideal position `b` forward (wrapping) to `at`.
pub open spec fn spec_walk(b: int, at: int, len: int) -> int {
    if at >= b {
        at - b
    } else {
        at + len - b
    }
}

/// Displacement of digest `h` when it sits at position `at`.
pub open spec fn spec_distance(h: u64, at: int, len: int) -> int {
    spec_walk(spec_bucket(h, len), at, len)
}

/// The digest of a content identifier: a 64-bit value with `EMPTY_DIGEST` reserved.
#[derive(Debug, Clone, Copy, PartialEq, Eq, Structural)]
pub struct Digest(pub u64);

impl Digest {
    /// Builds a digest from a raw 64-bit hash; the reserved empty value is
    /// folded onto its neighbour so that every digest is storable.
    pub fn from(raw: u64) -> (r: Digest)
        ensures
            r.0 != EMPTY_DIGEST,
            raw != EMPTY_DIGEST ==> r.0 == raw,
            raw == EMPTY_DIGEST ==> r.0 == EMPTY_DIGEST - 1,
    {
        if raw == EMPTY_DIGEST {
            Digest(EMPTY_DIGEST - 1)
        } else {
            Digest(raw)
        }
    }

    /// Optimal position of this digest in a table of `len` positions.
    pub fn bucket(&self, len: u64) -> (r: u64)
        requires
            len > 0,
        ensures
            r == spec_bucket(self.0, len as int),
            r < len,
    {
        proof {
            reveal(spec_bucket);
        }
        self.0 % len
    }

    /// Walking distance between `at` and the optimal position of this digest.
    pub fn distance(&self, at: u64, len: u64) -> (r: u64)
        requires
            len > 0,
            at < len,
        ensures
            r == spec_distance(self.0, at as int, len as int),
            r < len,
    {
        let pos = self.bucket(len);
        if pos > at {
            len - pos + at
        } else {
            at - pos
        }
    }
}

} // verus!
