//! The Goldilocks prime field, with modulus `p = 2^64 - 2^32 + 1`.
//!
//! An element is held as its canonical representative in `[0, p)`, and every
//! contract speaks of that representative as a natural number.

use crate::traits::FieldExtension;
use vstd::prelude::*;

verus! {

/// The field modulus `p = 2^64 - 2^32 + 1`.
pub const MODULUS: u64 = 0xFFFF_FFFF_0000_0001;

/// `x` reduced into `[0, p)`.
pub open spec fn gl_reduce(x: int) -> nat {
    (x % (MODULUS as int)) as nat
}

/// Sum in the field.
pub open spec fn gl_add(a: nat, b: nat) -> nat {
    gl_reduce((a + b) as int)
}

/// Difference in the field.
pub open spec fn gl_sub(a: nat, b: nat) -> nat {
    gl_reduce(a - b)
}

/// Product in the field.
pub open spec fn gl_mul(a: nat, b: nat) -> nat {
    gl_reduce((a * b) as int)
}

/// Additive inverse in the field.
pub open spec fn gl_neg(a: nat) -> nat {
    gl_reduce(-(a as int))
}

/// An element of the Goldilocks field.
#[derive(Clone, Copy, Debug, PartialEq, Eq, Structural, Hash)]
pub struct Fgl {
    value: u64,
}

impl View for Fgl {
    type V = nat;

    /// The canonical representative.
    closed spec fn view(&self) -> nat {
        self.value as nat
    }
}

impl DeepView for Fgl {
    type V = nat;

    open spec fn deep_view(&self) -> nat {
        self@
    }
}

/// The field element whose canonical representative is `x`, for `x` in
/// `[0, p)`.
pub closed spec fn fgl_of(x: nat) -> Fgl {
    Fgl { value: x as u64 }
}

/// The element whose representative is `x` has the representative `x`.
pub proof fn lemma_fgl_of(x: nat)
    requires
        x < MODULUS,
    ensures
        fgl_of(x)@ == x,
{
}

/// Two elements with the same representative are the same element.
pub proof fn lemma_fgl_view_injective(a: Fgl, b: Fgl)
    ensures
        (a@ == b@) <==> (a == b),
{
}

impl Default for Fgl {
    /// The additive identity.
    fn default() -> (r: Fgl)
        ensures
            r@ == 0,
    {
        Fgl { value: 0 }
    }
}

impl From<u64> for Fgl {
    /// The element that the unsigned integer `x` stands for.
    fn from(x: u64) -> (r: Fgl) {
        Fgl { value: x % MODULUS }
    }
}

impl vstd::std_specs::convert::FromSpecImpl<u64> for Fgl {
    open spec fn obeys_from_spec() -> bool {
        true
    }

    open spec fn from_spec(x: u64) -> Fgl {
        fgl_of(gl_reduce(x as int))
    }
}

/// The base field is the extension of itself of degree one.
impl FieldExtension for Fgl {
    open spec fn embed(x: nat) -> Fgl {
        fgl_of(x)
    }

    fn from_fgl(x: Fgl) -> (r: Fgl) {
        x
    }
}

impl Fgl {
    #[verifier::type_invariant]
    spec fn canonical(self) -> bool {
        self.value < MODULUS
    }

    /// The additive identity.
    pub fn zero() -> (r: Fgl)
        ensures
            r@ == 0,
    {
        Fgl { value: 0 }
    }

    /// The multiplicative identity.
    pub fn one() -> (r: Fgl)
        ensures
            r@ == 1,
    {
        Fgl { value: 1 }
    }

    /// The element that the unsigned integer `x` stands for.
    pub fn from_u64(x: u64) -> (r: Fgl)
        ensures
            r@ == gl_reduce(x as int),
    {
        Fgl { value: x % MODULUS }
    }

    /// The element that the signed integer `x` stands for: a negative `x`
    /// is the additive inverse of `-x`.
    pub fn from_i64(x: i64) -> (r: Fgl)
        ensures
            r@ == gl_reduce(x as int),
    {
        if x >= 0 {
            Fgl { value: x as u64 }
        } else {
            let shifted: i128 = (x as i128) + (MODULUS as i128);
            Fgl { value: shifted as u64 }
        }
    }

    /// The canonical representative in `[0, p)`.
    pub fn as_int(&self) -> (r: u64)
        ensures
            r as nat == self@,
            r < MODULUS,
            *self == fgl_of(self@),
    {
        proof {
            use_type_invariant(self);
        }
        self.value
    }

    /// Whether both hold the same element.
    pub fn same(&self, other: &Fgl) -> (r: bool)
        ensures
            r == (self@ == other@),
    {
        self.value == other.value
    }

    /// `self + rhs`.
    pub fn add(self, rhs: Fgl) -> (r: Fgl)
        ensures
            r@ == gl_add(self@, rhs@),
    {
        proof {
            use_type_invariant(self);
            use_type_invariant(rhs);
        }
        let sum: u128 = self.value as u128 + rhs.value as u128;
        Fgl { value: (sum % (MODULUS as u128)) as u64 }
    }

    /// `self - rhs`.
    pub fn sub(self, rhs: Fgl) -> (r: Fgl)
        ensures
            r@ == gl_sub(self@, rhs@),
    {
        proof {
            use_type_invariant(self);
            use_type_invariant(rhs);
        }
        if self.value >= rhs.value {
            Fgl { value: self.value - rhs.value }
        } else {
            Fgl { value: MODULUS - (rhs.value - self.value) }
        }
    }

    /// `self * rhs`.
    pub fn mul(self, rhs: Fgl) -> (r: Fgl)
        ensures
            r@ == gl_mul(self@, rhs@),
    {
        proof {
            use_type_invariant(self);
            use_type_invariant(rhs);
            assert(self.value * rhs.value <= 0xFFFF_FFFF_FFFF_FFFF * 0xFFFF_FFFF_FFFF_FFFF)
                by (nonlinear_arith)
                requires
                    self.value <= 0xFFFF_FFFF_FFFF_FFFF,
                    rhs.value <= 0xFFFF_FFFF_FFFF_FFFF,
            ;
        }
        let product: u128 = (self.value as u128) * (rhs.value as u128);
        Fgl { value: (product % (MODULUS as u128)) as u64 }
    }

    /// `-self`.
    pub fn neg(self) -> (r: Fgl)
        ensures
            r@ == gl_neg(self@),
    {
        proof {
            use_type_invariant(self);
        }
        if self.value == 0 {
            Fgl { value: 0 }
        } else {
            Fgl { value: MODULUS - self.value }
        }
    }
}

} // verus!
