use vstd::prelude::*;

use crate::sealed::Sealed;

verus! {

/// Type-level LEB128 decoding policy.
///
/// The trait is sealed: the decoder supports exactly the two canonicality
/// modes represented by [`Strict`] and [`NonStrict`].
pub trait Leb128DecodePolicy: Sealed + Copy + Default {
    /// Whether this policy rejects non-canonical encodings.
    const STRICT: bool;

    /// Whether this policy rejects non-canonical encodings, as the decoding
    /// contracts state it: `true` for [`Strict`], `false` for [`NonStrict`].
    spec fn strict_flag() -> bool;

    /// Reads the policy's strictness at run time: the value of `STRICT`,
    /// which each implementation proves equal to
    /// [`Leb128DecodePolicy::strict_flag`].
    fn is_strict() -> (b: bool)
        ensures
            b == Self::strict_flag(),
    ;
}

/// Decoding policy that rejects non-canonical LEB128 encodings.
#[derive(Clone, Copy, Debug, Default, PartialEq, Eq, Structural)]
pub struct Strict;

/// Decoding policy that accepts non-canonical LEB128 encodings within the
/// target integer's maximum width.
#[derive(Clone, Copy, Debug, Default, PartialEq, Eq, Structural)]
pub struct NonStrict;

impl Sealed for Strict {}

impl Sealed for NonStrict {}

impl Leb128DecodePolicy for Strict {
    const STRICT: bool = true;

    open spec fn strict_flag() -> bool {
        true
    }

    fn is_strict() -> (b: bool) {
        Self::STRICT
    }
}

impl Leb128DecodePolicy for NonStrict {
    const STRICT: bool = false;

    open spec fn strict_flag() -> bool {
        false
    }

    fn is_strict() -> (b: bool) {
        Self::STRICT
    }
}

} // verus!
