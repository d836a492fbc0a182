//! A 32-bit unsigned integer that is known not to be zero.
use vstd::prelude::*;

verus! {

/// A `u32` that is never zero. An optional position is stored as one word,
/// with zero standing for "none", and handed out as `Option<NonZeroU32>`.
#[derive(Clone, Copy, Debug, Eq, Hash, PartialEq)]
pub struct NonZeroU32(u32);

impl NonZeroU32 {
    #[verifier::type_invariant]
    closed spec fn inv(self) -> bool {
        self.0 != 0
    }

    /// The number held.
    pub closed spec fn view(self) -> u32 {
        self.0
    }

    /// Returns `Some` exactly when `n` is not zero.
    #[inline(always)]
    pub fn new(n: u32) -> (r: Option<Self>)
        ensures
            n == 0 <==> r is None,
            r matches Some(x) ==> x@ == n,
    {
        if n == 0 {
            None
        } else {
            Some(NonZeroU32(n))
        }
    }

    /// Returns the number held, which is not zero.
    #[inline(always)]
    pub fn get(self) -> (r: u32)
        ensures
            r == self@,
            r != 0,
    {
        proof {
            use_type_invariant(self);
        }
        self.0
    }
}

/// The word that stores an optional non-zero number: zero for `None`.
pub open spec fn raw_of(x: Option<NonZeroU32>) -> u32 {
    match x {
        Some(n) => n@,
        None => 0,
    }
}

/// Stores an optional non-zero number as one word.
#[inline(always)]
pub fn to_raw(x: Option<NonZeroU32>) -> (r: u32)
    ensures
        r == raw_of(x),
        r == 0 <==> x is None,
{
    match x {
        Some(n) => n.get(),
        None => 0,
    }
}

/// Reads an optional non-zero number back from its word.
#[inline(always)]
pub fn from_raw(w: u32) -> (r: Option<NonZeroU32>)
    ensures
        raw_of(r) == w,
        w == 0 <==> r is None,
{
    NonZeroU32::new(w)
}

} // verus!
