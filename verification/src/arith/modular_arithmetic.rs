//! Residues modulo a positive integer.

use crate::arith::integer::{
    integer_add, integer_from_u64, integer_lt, integer_mul, integer_pow, integer_sub, is_gcd,
    is_inverse, truncated_quotient, value_of,
};
use rug::Integer;
use vstd::arithmetic::div_mod::lemma_fundamental_div_mod;
use vstd::arithmetic::div_mod::lemma_fundamental_div_mod_converse;
use vstd::arithmetic::power::pow;
use vstd::prelude::*;

verus! {

/// `Integer::div_rem_ref`, completed: quotient and remainder of the division
/// that rounds towards zero, so that the remainder has the sign of `a`. The
/// divisor must not be zero.
#[verifier::external_body]
pub fn div_mod(a: &Integer, modulo: &Integer) -> (r: (Integer, Integer))
    requires
        value_of(*modulo) != 0,
    ensures
        value_of(r.0) == truncated_quotient(value_of(*a), value_of(*modulo)),
        value_of(r.1) == value_of(*a) - value_of(r.0) * value_of(*modulo),
{
    <(Integer, Integer)>::from(a.div_rem_ref(modulo))
}

/// `Integer::invert_ref`, completed: the inverse of `a` modulo the positive
/// `modulo`, in `[0, modulo)`. There is one exactly when the greatest common
/// divisor of the two is one.
#[verifier::external_body]
pub fn invert_mod(a: &Integer, modulo: &Integer) -> (r: Option<Integer>)
    requires
        value_of(*modulo) > 0,
    ensures
        r.is_some() <==> is_gcd(1, value_of(*a), value_of(*modulo)),
        r matches Some(i) ==> is_inverse(value_of(i), value_of(*a), value_of(*modulo)),
{
    a.invert_ref(modulo).map(Integer::from)
}

/// The representative of `a` in `[0, modulo)`.
pub fn take_mod(a: &Integer, modulo: &Integer) -> (r: Integer)
    requires
        value_of(*modulo) > 0,
    ensures
        value_of(r) == value_of(*a) % value_of(*modulo),
{
    let (q, rem) = div_mod(a, modulo);
    let zero = integer_from_u64(0);
    let ghost av = value_of(*a);
    let ghost m = value_of(*modulo);
    let ghost qv = value_of(q);
    proof {
        if av >= 0 {
            lemma_fundamental_div_mod(av, m);
            assert(qv == av / m);
            assert(qv * m == m * qv) by (nonlinear_arith);
        } else {
            lemma_fundamental_div_mod(-av, m);
            assert(qv == -((-av) / m));
            assert(qv * m == -(m * ((-av) / m))) by (nonlinear_arith)
                requires
                    qv == -((-av) / m),
            ;
        }
    }
    if integer_lt(&rem, &zero) {
        let r = integer_add(&rem, modulo);
        proof {
            assert(av == (qv - 1) * m + value_of(r)) by (nonlinear_arith)
                requires
                    value_of(r) == av - qv * m + m,
            ;
            lemma_fundamental_div_mod_converse(av, m, qv - 1, value_of(r));
        }
        r
    } else {
        proof {
            lemma_fundamental_div_mod_converse(av, m, qv, value_of(rem));
        }
        rem
    }
}

/// The product of `a` and `b`, reduced.
pub fn multiply_mod(a: &Integer, b: &Integer, modulo: &Integer) -> (r: Integer)
    requires
        value_of(*modulo) > 0,
    ensures
        value_of(r) == (value_of(*a) * value_of(*b)) % value_of(*modulo),
{
    take_mod(&integer_mul(a, b), modulo)
}

/// The sum of `a` and `b`, reduced.
pub fn add_mod(a: &Integer, b: &Integer, modulo: &Integer) -> (r: Integer)
    requires
        value_of(*modulo) > 0,
    ensures
        value_of(r) == (value_of(*a) + value_of(*b)) % value_of(*modulo),
{
    take_mod(&integer_add(a, b), modulo)
}

/// The difference of `a` and `b`, reduced.
pub fn subtract_mod(a: &Integer, b: &Integer, modulo: &Integer) -> (r: Integer)
    requires
        value_of(*modulo) > 0,
    ensures
        value_of(r) == (value_of(*a) - value_of(*b)) % value_of(*modulo),
{
    take_mod(&integer_sub(a, b), modulo)
}

/// The power `a^n`, reduced.
pub fn pow_mod(a: &Integer, n: u32, modulo: &Integer) -> (r: Integer)
    requires
        value_of(*modulo) > 0,
    ensures
        value_of(r) == pow(value_of(*a), n as nat) % value_of(*modulo),
{
    take_mod(&integer_pow(a, n), modulo)
}

} // verus!
