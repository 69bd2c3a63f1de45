//! Arithmetic modulo the field's order.

use crate::model::{has_inverse, inverse_of, is_inverse_of};
use vstd::arithmetic::div_mod::{
    lemma_add_mod_noop, lemma_mod_bound, lemma_mod_twice, lemma_mul_mod_noop,
    lemma_mul_mod_noop_right, lemma_small_mod, lemma_sub_mod_noop,
};
use vstd::prelude::*;

verus! {

/// `a` and `b` leave the same remainder modulo `p`.
pub open spec fn congruent(p: int, a: int, b: int) -> bool {
    a % p == b % p
}

/// A remainder is congruent to what it was taken of.
pub proof fn lemma_congruent_reduced(p: int, a: int)
    requires
        p > 0,
    ensures
        congruent(p, a % p, a),
{
    lemma_mod_twice(a, p);
}

/// Congruence is kept by addition.
pub proof fn lemma_congruent_add(p: int, a: int, b: int, c: int, d: int)
    requires
        p > 0,
        congruent(p, a, b),
        congruent(p, c, d),
    ensures
        congruent(p, a + c, b + d),
{
    lemma_add_mod_noop(a, c, p);
    lemma_add_mod_noop(b, d, p);
}

/// Congruence is kept by subtraction.
pub proof fn lemma_congruent_sub(p: int, a: int, b: int, c: int, d: int)
    requires
        p > 0,
        congruent(p, a, b),
        congruent(p, c, d),
    ensures
        congruent(p, a - c, b - d),
{
    lemma_sub_mod_noop(a, c, p);
    lemma_sub_mod_noop(b, d, p);
}

/// Congruence is kept by multiplication.
pub proof fn lemma_congruent_mul(p: int, a: int, b: int, c: int, d: int)
    requires
        p > 0,
        congruent(p, a, b),
        congruent(p, c, d),
    ensures
        congruent(p, a * c, b * d),
{
    lemma_mul_mod_noop(a, c, p);
    lemma_mul_mod_noop(b, d, p);
}

/// Two reduced inverses of one number are the same.
pub proof fn lemma_inverse_unique(p: int, a: int, x: int, y: int)
    requires
        p > 0,
        is_inverse_of(p, a, x),
        is_inverse_of(p, a, y),
    ensures
        x == y,
{
    lemma_mul_mod_noop_right(x, a * y, p);
    lemma_mul_mod_noop_right(y, a * x, p);
    assert(x * (a * y) == y * (a * x)) by (nonlinear_arith);
    assert(x * 1 == x);
    assert(y * 1 == y);
    lemma_small_mod(x as nat, p as nat);
    lemma_small_mod(y as nat, p as nat);
}

/// A reduced inverse of `a` is the inverse of `a`.
pub proof fn lemma_inverse_of(p: int, a: int, x: int)
    requires
        p > 0,
        is_inverse_of(p, a, x),
    ensures
        has_inverse(p, a),
        inverse_of(p, a) == x,
{
    lemma_inverse_unique(p, a, x, inverse_of(p, a));
}

/// A number congruent to one with an inverse has that inverse.
pub proof fn lemma_has_inverse_congruent(p: int, a: int, b: int)
    requires
        p > 0,
        congruent(p, a, b),
        has_inverse(p, a),
    ensures
        has_inverse(p, b),
{
    let x = inverse_of(p, a);
    lemma_congruent_mul(p, a, b, x, x);
    assert(is_inverse_of(p, b, x));
}

/// A product of numbers with inverses has an inverse.
pub proof fn lemma_has_inverse_product(p: int, a: int, b: int)
    requires
        p > 0,
        has_inverse(p, a),
        has_inverse(p, b),
    ensures
        has_inverse(p, a * b),
{
    let x = inverse_of(p, a);
    let y = inverse_of(p, b);
    let z = (x * y) % p;
    lemma_mod_bound(x * y, p);
    lemma_mul_mod_noop_right(a * b, x * y, p);
    assert((a * b) * (x * y) == (a * x) * (b * y)) by (nonlinear_arith);
    lemma_mul_mod_noop(a * x, b * y, p);
    lemma_mod_bound(a * x, p);
    lemma_small_mod(1, p as nat);
    assert(1int * 1int == 1int);
    assert(is_inverse_of(p, a * b, z));
}

} // verus!
