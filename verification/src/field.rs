//! The arithmetic that the matrix engine asks of a field element.
//!
//! The engine is generic over the field. All it proves, it proves from the
//! contracts below, so it holds for every type that keeps them.

use vstd::prelude::*;

verus! {

/// An element of a prime field, seen as its canonical representative in
/// `0..modulus()`. Addition, subtraction and multiplication are those of the
/// integers modulo `modulus()`; equality is exact.
pub trait FieldElement: Sized + Copy {
    /// The order of the field.
    spec fn modulus() -> int;

    /// The canonical representative of this element.
    spec fn value(&self) -> int;

    /// The field has at least two elements.
    proof fn lemma_modulus()
        ensures
            Self::modulus() > 1,
    ;

    /// Representatives are reduced.
    proof fn lemma_value(&self)
        ensures
            0 <= self.value() < Self::modulus(),
    ;

    /// The additive identity.
    fn zero() -> (r: Self)
        ensures
            r.value() == 0,
    ;

    /// The multiplicative identity.
    fn one() -> (r: Self)
        ensures
            r.value() == 1,
    ;

    /// The sum of two elements.
    fn plus(&self, rhs: &Self) -> (r: Self)
        ensures
            r.value() == (self.value() + rhs.value()) % Self::modulus(),
    ;

    /// The difference of two elements.
    fn minus(&self, rhs: &Self) -> (r: Self)
        ensures
            r.value() == (self.value() - rhs.value()) % Self::modulus(),
    ;

    /// The product of two elements.
    fn times(&self, rhs: &Self) -> (r: Self)
        ensures
            r.value() == (self.value() * rhs.value()) % Self::modulus(),
    ;

    /// The multiplicative inverse, which only zero lacks.
    fn inverse(&self) -> (r: Option<Self>)
        ensures
            match r {
                Some(inv) => self.value() != 0 && (self.value() * inv.value())
                    % Self::modulus() == 1,
                None => self.value() == 0,
            },
    ;

    /// Whether two elements are the same element of the field.
    fn equals(&self, rhs: &Self) -> (r: bool)
        ensures
            r == (self.value() == rhs.value()),
    ;
}

} // verus!
