//! What the column store asks of a field that it writes its values in.

use crate::field::Fgl;
use vstd::prelude::*;

verus! {

/// A field that the base field lies in.
pub trait FieldExtension: Sized {
    /// The element of this field that the base element of value `x` is.
    spec fn embed(x: nat) -> Self;

    /// The element of this field that the base element `x` is.
    fn from_fgl(x: Fgl) -> (r: Self)
        ensures
            r == Self::embed(x@),
    ;
}

} // verus!
