use vstd::prelude::*;

verus! {

/// The number type a graph computes with.
///
/// The engine records structure and decides which rule applies where; every
/// arithmetic step is delegated to the implementing type, which users supply
/// (typically a wrapper round a 64-bit float). Each operation is named by a
/// spec function, and its executable form returns exactly that function of
/// its arguments: nothing more is assumed of the arithmetic, in particular no
/// algebraic law.
pub trait Scalar: Copy + Sized {
    spec fn spec_zero() -> Self;

    spec fn spec_one() -> Self;

    spec fn spec_add(self, other: Self) -> Self;

    spec fn spec_sub(self, other: Self) -> Self;

    spec fn spec_mul(self, other: Self) -> Self;

    spec fn spec_neg(self) -> Self;

    spec fn spec_exp(self) -> Self;

    spec fn spec_powf(self, k: Self) -> Self;

    spec fn spec_tanh(self) -> Self;

    spec fn spec_relu(self) -> Self;

    spec fn spec_is_positive(self) -> bool;

    /// The additive identity; fresh gradients start here.
    fn zero() -> (r: Self)
        ensures
            r == Self::spec_zero(),
    ;

    /// The multiplicative identity; the seed of a backward pass.
    fn one() -> (r: Self)
        ensures
            r == Self::spec_one(),
    ;

    /// The sum of the two values.
    fn add(self, other: Self) -> (r: Self)
        ensures
            r == self.spec_add(other),
    ;

    /// This value minus `other`.
    fn sub(self, other: Self) -> (r: Self)
        ensures
            r == self.spec_sub(other),
    ;

    /// The product of the two values.
    fn mul(self, other: Self) -> (r: Self)
        ensures
            r == self.spec_mul(other),
    ;

    /// The additive inverse.
    fn neg(self) -> (r: Self)
        ensures
            r == self.spec_neg(),
    ;

    /// `e` raised to this value.
    fn exp(self) -> (r: Self)
        ensures
            r == self.spec_exp(),
    ;

    /// This value raised to the power `k`.
    fn powf(self, k: Self) -> (r: Self)
        ensures
            r == self.spec_powf(k),
    ;

    /// The hyperbolic tangent.
    fn tanh(self) -> (r: Self)
        ensures
            r == self.spec_tanh(),
    ;

    /// The larger of this value and zero.
    fn relu(self) -> (r: Self)
        ensures
            r == self.spec_relu(),
    ;

    /// Whether this value is strictly greater than zero.
    fn is_positive(self) -> (r: bool)
        ensures
            r == self.spec_is_positive(),
    ;
}

} // verus!
