//! The dimensionality descriptor: a fixed requested rank, or "dynamic"
//! meaning any rank is accepted and the concrete rank is recorded at
//! runtime.

use vstd::prelude::*;

verus! {

/// Requested dimensionality: a fixed rank (0 through 6) or dynamic.
#[derive(Clone, Copy, Debug, PartialEq, Eq, Structural)]
pub enum Rank {
    Fixed(usize),
    Dyn,
}

impl Rank {
    /// A fixed rank never exceeds six axes.
    pub open spec fn wf(&self) -> bool {
        match *self {
            Rank::Fixed(k) => k <= 6,
            Rank::Dyn => true,
        }
    }

    /// Whether a shape of `len` axes satisfies this descriptor.
    pub open spec fn spec_matches_len(&self, len: nat) -> bool {
        match *self {
            Rank::Fixed(k) => len == k,
            Rank::Dyn => true,
        }
    }

    pub fn matches_len(&self, len: usize) -> (r: bool)
        ensures
            r == self.spec_matches_len(len as nat),
    {
        match *self {
            Rank::Fixed(k) => len == k,
            Rank::Dyn => true,
        }
    }

    /// Whether extraction at this descriptor may produce rank `k`.
    pub open spec fn spec_allows(&self, k: nat) -> bool {
        match *self {
            Rank::Fixed(j) => j == k,
            Rank::Dyn => true,
        }
    }

    pub fn allows(&self, k: usize) -> (r: bool)
        ensures
            r == self.spec_allows(k as nat),
    {
        match *self {
            Rank::Fixed(j) => j == k,
            Rank::Dyn => true,
        }
    }

    /// Whether the stacking strategy applies: rank two or more, or dynamic.
    pub open spec fn spec_deep(&self) -> bool {
        match *self {
            Rank::Fixed(k) => k >= 2,
            Rank::Dyn => true,
        }
    }

    pub fn deep(&self) -> (r: bool)
        ensures
            r == self.spec_deep(),
    {
        match *self {
            Rank::Fixed(k) => k >= 2,
            Rank::Dyn => true,
        }
    }

    /// The descriptor one rank smaller, used for recursive descent into
    /// nested sequences; rank zero is the base case and is never recursed
    /// past.
    pub open spec fn spec_smaller(&self) -> Rank {
        match *self {
            Rank::Fixed(k) => Rank::Fixed((k - 1) as usize),
            Rank::Dyn => Rank::Dyn,
        }
    }

    pub fn smaller(&self) -> (r: Rank)
        requires
            *self matches Rank::Fixed(k) ==> k >= 1,
        ensures
            r == self.spec_smaller(),
    {
        match *self {
            Rank::Fixed(k) => Rank::Fixed(k - 1),
            Rank::Dyn => Rank::Dyn,
        }
    }
}

} // verus!
