//! The scalar field of BLS12-381 as a `FieldElement`.
//!
//! The arithmetic is that of `paired::bls12_381::Fr`, reached through the
//! methods of `ff::Field`. What this module says of those methods is taken on
//! trust; the rest of the library is proved from it.

use crate::field::FieldElement;
use ff::Field;
use paired::bls12_381::Fr;
use vstd::arithmetic::div_mod::{
    lemma_add_mod_noop, lemma_mod_bound, lemma_mod_twice, lemma_mul_mod_noop, lemma_small_mod,
    lemma_sub_mod_noop,
};
use vstd::prelude::*;

verus! {

/// `paired::bls12_381::Fr`, an element of the scalar field. The verifier sees
/// nothing inside it.
#[verifier::external_type_specification]
#[verifier::external_body]
pub struct ExFr(Fr);

/// The integer that an element of the scalar field stands for: the one that
/// `PrimeField::into_repr` gives, which is below the field's order.
pub uninterp spec fn fr_integer(x: Fr) -> int;

/// The order of the scalar field of BLS12-381,
/// 52435875175126190479447740508185965837690552500527637822603658699938581184513,
/// written in base 2^64.
pub open spec fn fr_modulus() -> int {
    let base: int = 0x1_0000_0000_0000_0000;
    0xffff_ffff_0000_0001 + base * (0x53bd_a402_fffe_5bfe + base * (0x3339_d808_09a1_d805 + base
        * 0x73ed_a753_299d_7d48))
}

/// `Field::zero` of `Fr`: gives the element that stands for 0.
#[verifier::external_body]
fn fr_zero() -> (r: Fr)
    ensures
        fr_integer(r) == 0,
{
    <Fr as Field>::zero()
}

/// `Field::one` of `Fr`: gives the element that stands for 1.
#[verifier::external_body]
fn fr_one() -> (r: Fr)
    ensures
        fr_integer(r) == 1,
{
    <Fr as Field>::one()
}

/// `Field::add_assign` of `Fr`, on a copy of `a`: the result stands for the
/// sum of the two integers, reduced modulo the field's order.
#[verifier::external_body]
fn fr_add(a: &Fr, b: &Fr) -> (r: Fr)
    ensures
        fr_integer(r) == (fr_integer(*a) + fr_integer(*b)) % fr_modulus(),
{
    let mut r = *a;
    r.add_assign(b);
    r
}

/// `Field::sub_assign` of `Fr`, on a copy of `a`: the result stands for the
/// difference of the two integers, reduced modulo the field's order.
#[verifier::external_body]
fn fr_sub(a: &Fr, b: &Fr) -> (r: Fr)
    ensures
        fr_integer(r) == (fr_integer(*a) - fr_integer(*b)) % fr_modulus(),
{
    let mut r = *a;
    r.sub_assign(b);
    r
}

/// `Field::mul_assign` of `Fr`, on a copy of `a`: the result stands for the
/// product of the two integers, reduced modulo the field's order.
#[verifier::external_body]
fn fr_mul(a: &Fr, b: &Fr) -> (r: Fr)
    ensures
        fr_integer(r) == (fr_integer(*a) * fr_integer(*b)) % fr_modulus(),
{
    let mut r = *a;
    r.mul_assign(b);
    r
}

/// `Field::inverse` of `Fr`: `None` for the element that stands for zero and
/// for no other; else an element whose product with `a` stands for 1.
#[verifier::external_body]
fn fr_inverse(a: &Fr) -> (r: Option<Fr>)
    ensures
        match r {
            Some(inv) => fr_integer(*a) % fr_modulus() != 0 && (fr_integer(*a) * fr_integer(inv))
                % fr_modulus() == 1,
            None => fr_integer(*a) % fr_modulus() == 0,
        },
{
    Field::inverse(a)
}

/// `PartialEq::eq` of `Fr`: two elements are equal exactly when they stand
/// for the same residue.
#[verifier::external_body]
fn fr_eq(a: &Fr, b: &Fr) -> (r: bool)
    ensures
        r == (fr_integer(*a) % fr_modulus() == fr_integer(*b) % fr_modulus()),
{
    a == b
}

impl FieldElement for Fr {
    /// The order of the scalar field.
    open spec fn modulus() -> int {
        fr_modulus()
    }

    /// The residue that the element stands for.
    open spec fn value(&self) -> int {
        fr_integer(*self) % fr_modulus()
    }

    proof fn lemma_modulus() {
    }

    proof fn lemma_value(&self) {
        lemma_mod_bound(fr_integer(*self), fr_modulus());
    }

    fn zero() -> (r: Self) {
        proof {
            lemma_small_mod(0, fr_modulus() as nat);
        }
        fr_zero()
    }

    fn one() -> (r: Self) {
        proof {
            lemma_small_mod(1, fr_modulus() as nat);
        }
        fr_one()
    }

    fn plus(&self, rhs: &Self) -> (r: Self) {
        proof {
            lemma_add_mod_noop(fr_integer(*self), fr_integer(*rhs), fr_modulus());
            lemma_mod_twice(fr_integer(*self) + fr_integer(*rhs), fr_modulus());
        }
        fr_add(self, rhs)
    }

    fn minus(&self, rhs: &Self) -> (r: Self) {
        proof {
            lemma_sub_mod_noop(fr_integer(*self), fr_integer(*rhs), fr_modulus());
            lemma_mod_twice(fr_integer(*self) - fr_integer(*rhs), fr_modulus());
        }
        fr_sub(self, rhs)
    }

    fn times(&self, rhs: &Self) -> (r: Self) {
        proof {
            lemma_mul_mod_noop(fr_integer(*self), fr_integer(*rhs), fr_modulus());
            lemma_mod_twice(fr_integer(*self) * fr_integer(*rhs), fr_modulus());
        }
        fr_mul(self, rhs)
    }

    fn inverse(&self) -> (r: Option<Self>) {
        let r = fr_inverse(self);
        proof {
            if let Some(inv) = r {
                lemma_mul_mod_noop(fr_integer(*self), fr_integer(inv), fr_modulus());
            }
        }
        r
    }

    fn equals(&self, rhs: &Self) -> (r: bool) {
        fr_eq(self, rhs)
    }
}

} // verus!
